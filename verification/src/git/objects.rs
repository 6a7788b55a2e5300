//! Trees and commits: walking trees, looking entries up, and rewriting the
//! trees along a path.

use vstd::prelude::*;
use vstd::utf8::valid_utf8;

use crate::bytes::{copy_bytes, position, same_bytes, text};
use crate::git::entry::{
    EntryMode, EntryModel, TreeEntry, check_clashes, clash_free, directory_mode, give_entries,
    in_tree_order, lemma_clash_free_entries, lemma_given, lemma_own_modes, lemma_same_entries,
    lemma_tree_order_keeps, lemma_tree_order_orders, models, octal_digits, ordered, regular_entries,
    regular_entry, regular_mode, sort_entries, tree_mode,
};
use crate::git::lists::{
    ObjectError, TargetModel, distinct_names, first_named, holds_name, last_named,
    lemma_first_named_present, lemma_last_named_pick, lemma_pick, lemma_pick_is,
    lemma_present_readable, lemma_readable_present, lemma_redirected, lemma_sorted,
    lemma_tree_items, lemma_updated, named_entry, pick, readable, redirected, rewritten,
    sound_items, updated,
};
use crate::git::packfile::{OBJ_TREE, hash_object, object_id};
use crate::oid::{ObjectId, ObjectMap, OidSet};
use crate::outside::{
    CommitModel, clear_names, clock, commit_text, commit_tree, decode_tree, decoded_entry,
    encode_tree, hex_digit, hex_of, item_models, oid_model, plain_token, present, tree_items,
    tree_object, utf8_text, write_commit,
};
use crate::path::{Components, RepoPath, components_of, joined, under};
use crate::path_map::{FileMap, PathMap, Slots, put};

verus! {

/// What an entry is changed to: its mode and its id.
pub type Target = (EntryMode, ObjectId);

/// Objects to pack: the type and the content of each.
pub type ObjectList = Vec<(u8, Vec<u8>)>;

/// What a target is.
pub open spec fn target_model(t: Target) -> TargetModel {
    (t.0@, t.1@)
}

/// What a target that may be absent is.
pub open spec fn target_option(t: Option<Target>) -> Option<TargetModel> {
    match t {
        Some(x) => Some(target_model(x)),
        None => None,
    }
}

/// What a list of objects is.
pub open spec fn list_model(list: Seq<(u8, Vec<u8>)>) -> Seq<(u8, Seq<u8>)> {
    list.map_values(|o: (u8, Vec<u8>)| (o.0, o.1@))
}

// ---------------------------------------------------------------------------
// Lookup
// ---------------------------------------------------------------------------

/// What a path leads to from the tree `oid` on: the mode and the id of the
/// entry, and for the path without components the tree itself.
pub open spec fn found(
    objects: Map<Seq<u8>, Seq<u8>>,
    oid: Seq<u8>,
    names: Seq<Seq<u8>>,
) -> Result<Option<TargetModel>, ObjectError>
    decreases names.len(),
{
    if names.len() == 0 {
        Ok(Some((directory_mode(), oid)))
    } else if !valid_utf8(names[0]) {
        Err(ObjectError::NotUtf8)
    } else if !objects.contains_key(oid) {
        Err(ObjectError::MissingTree)
    } else {
        match first_named(tree_items(objects[oid]), names[0]) {
            Err(e) => Err(e),
            Ok(None) => Ok(None),
            Ok(Some(e)) => if names.len() == 1 {
                Ok(Some((e.octal, e.oid)))
            } else if tree_mode(e.octal) {
                found(objects, e.oid, names.drop_first())
            } else {
                Ok(None)
            },
        }
    }
}

fn find_named(items: &Vec<Option<TreeEntry>>, name: &[u8]) -> (r: Result<
    Option<usize>,
    ObjectError,
>)
    ensures
        match r {
            Ok(Some(i)) => i < items@.len() && items@[i as int] is Some && first_named(
                item_models(items@),
                name@,
            ) == Ok::<Option<EntryModel>, ObjectError>(Some(items@[i as int]->0@)),
            Ok(None) => first_named(item_models(items@), name@) == Ok::<
                Option<EntryModel>,
                ObjectError,
            >(None),
            Err(e) => first_named(item_models(items@), name@) == Err::<
                Option<EntryModel>,
                ObjectError,
            >(e),
        },
{
    let ghost all = item_models(items@);
    let mut i: usize = 0;
    assert(all.skip(0) =~= all);
    while i < items.len()
        invariant
            i <= items@.len(),
            all == item_models(items@),
            first_named(all, name@) == first_named(all.skip(i as int), name@),
        decreases items@.len() - i,
    {
        assert(all.skip(i as int)[0] == all[i as int]);
        match &items[i] {
            None => {
                return Err(ObjectError::BadTree);
            },
            Some(e) => {
                if same_bytes(e.filename.as_slice(), name) {
                    return Ok(Some(i));
                }
            },
        }
        assert(all.skip(i as int).drop_first() =~= all.skip(i + 1));
        i += 1;
    }
    Ok(None)
}

/// Whether these bytes are UTF-8.
pub fn is_utf8(name: &[u8]) -> (r: bool)
    ensures
        r == valid_utf8(name@),
{
    utf8_text(name).is_some()
}

/// What these components lead to from the tree `tree_oid` on.
pub fn find_names(objects: &ObjectMap, tree_oid: &ObjectId, names: &Components) -> (r: Result<
    Option<Target>,
    ObjectError,
>)
    ensures
        match r {
            Ok(t) => found(objects@, tree_oid@, names@) == Ok::<Option<TargetModel>, ObjectError>(
                target_option(t),
            ),
            Err(e) => found(objects@, tree_oid@, names@) == Err::<
                Option<TargetModel>,
                ObjectError,
            >(e),
        },
        r matches Ok(Some(t)) ==> octal_digits(t.0@),
{
    let mut current: ObjectId = *tree_oid;
    let mut i: usize = 0;
    let count: usize = names.len();
    assert(names@.skip(0) =~= names@);
    proof {
        lemma_own_modes();
    }
    while i < count
        invariant
            i <= count == names@.len(),
            found(objects@, tree_oid@, names@) == found(
                objects@,
                current@,
                names@.skip(i as int),
            ),
        decreases count - i,
    {
        let name = names.name(i);
        let ghost rest = names@.skip(i as int);
        assert(rest[0] == name@);
        assert(rest.drop_first() =~= names@.skip(i + 1));
        if !is_utf8(name.as_slice()) {
            return Err(ObjectError::NotUtf8);
        }
        let items = match objects.get(&current) {
            Some(data) => decode_tree(data.as_slice()),
            None => {
                return Err(ObjectError::MissingTree);
            },
        };
        match find_named(&items, name.as_slice()) {
            Err(e) => {
                return Err(e);
            },
            Ok(None) => {
                return Ok(None);
            },
            Ok(Some(k)) => {
                if let Some(e) = &items[k] {
                    if i == count - 1 {
                        assert(decoded_entry(e@));
                        return Ok(Some((e.mode.duplicate(), e.oid)));
                    }
                    if !e.mode.is_tree() {
                        return Ok(None);
                    }
                    current = e.oid;
                }
            },
        }
        i += 1;
    }
    Ok(Some((EntryMode::tree(), current)))
}

/// What `path` leads to from the tree `tree_oid` on: the mode and the id of
/// its entry.
pub fn find_tree_entry(objects: &ObjectMap, tree_oid: &ObjectId, path: &RepoPath) -> (r: Result<
    Option<Target>,
    ObjectError,
>)
    ensures
        match r {
            Ok(t) => found(objects@, tree_oid@, components_of(path@)) == Ok::<
                Option<TargetModel>,
                ObjectError,
            >(target_option(t)),
            Err(e) => found(objects@, tree_oid@, components_of(path@)) == Err::<
                Option<TargetModel>,
                ObjectError,
            >(e),
        },
        r matches Ok(Some(t)) ==> octal_digits(t.0@),
{
    find_names(objects, tree_oid, &path.components())
}

// ---------------------------------------------------------------------------
// Rewriting the trees along a path
// ---------------------------------------------------------------------------

/// What storing a tree with these entries does to the objects, and its id and
/// content.
pub open spec fn stored(objects: Map<Seq<u8>, Seq<u8>>, es: Seq<EntryModel>) -> (
    Map<Seq<u8>, Seq<u8>>,
    Result<(Seq<u8>, Seq<u8>), ObjectError>,
) {
    if !clash_free(es) {
        (objects, Err(ObjectError::NameClash))
    } else {
        match tree_object(in_tree_order(es)) {
            None => (objects, Err(ObjectError::BadName)),
            Some(data) => {
                let oid = object_id(OBJ_TREE, data);
                (objects.insert(oid, data), Ok((oid, data)))
            },
        }
    }
}

/// The directory entry of this name that leads to the empty tree.
pub open spec fn empty_directory(name: Seq<u8>) -> EntryModel {
    named_entry(name, (directory_mode(), object_id(OBJ_TREE, Seq::empty())))
}

/// The objects and the entries with a directory of this name among them: an
/// empty one is made where there is none and something is to be put there.
pub open spec fn with_directory(
    objects: Map<Seq<u8>, Seq<u8>>,
    es: Seq<EntryModel>,
    name: Seq<u8>,
) -> (Map<Seq<u8>, Seq<u8>>, Seq<EntryModel>) {
    if holds_name(es, name) {
        (objects, es)
    } else {
        (
            objects.insert(object_id(OBJ_TREE, Seq::empty()), Seq::empty()),
            es.push(empty_directory(name)),
        )
    }
}

/// What a change at a path does: to the objects, and the id of the new root
/// with the trees that were written, the deepest first.
pub open spec fn modified(
    objects: Map<Seq<u8>, Seq<u8>>,
    oid: Seq<u8>,
    names: Seq<Seq<u8>>,
    target: Option<TargetModel>,
) -> (Map<Seq<u8>, Seq<u8>>, Result<(Seq<u8>, Seq<(u8, Seq<u8>)>), ObjectError>)
    decreases names.len(),
{
    if names.len() == 0 {
        (objects, Err(ObjectError::EmptyPath))
    } else if !valid_utf8(names[0]) {
        (objects, Err(ObjectError::NotUtf8))
    } else if !objects.contains_key(oid) {
        (objects, Err(ObjectError::MissingTree))
    } else {
        let es = readable(tree_items(objects[oid]));
        if target is None && !holds_name(es, names[0]) {
            (objects, Err(ObjectError::NotFound))
        } else if names.len() == 1 {
            let (after, r) = stored(objects, updated(es, names[0], target));
            match r {
                Ok((root, data)) => (after, Ok((root, seq![(OBJ_TREE, data)]))),
                Err(e) => (after, Err(e)),
            }
        } else {
            let (start, all) = with_directory(objects, es, names[0]);
            let (below, child) = modified(
                start,
                last_named(all, names[0])->0,
                names.drop_first(),
                target,
            );
            match child {
                Err(e) => (below, Err(e)),
                Ok((child_oid, list)) => {
                    let (after, r) = stored(below, redirected(all, names[0], child_oid));
                    match r {
                        Ok((root, data)) => (after, Ok((root, list.push((OBJ_TREE, data))))),
                        Err(e) => (after, Err(e)),
                    }
                },
            }
        }
    }
}

/// The tree with these entries decodes to them, and no tree is written with a
/// name that holds a NUL.
pub open spec fn reads_back(es: Seq<EntryModel>) -> bool {
    match tree_object(es) {
        Some(data) => clear_names(es) && (regular_entries(es) ==> tree_items(data) == present(
            es,
        )),
        None => !regular_entries(es),
    }
}

/// Every tree that the change writes decodes to its entries, and so does the
/// empty one.
pub open spec fn path_reads_back(
    objects: Map<Seq<u8>, Seq<u8>>,
    oid: Seq<u8>,
    names: Seq<Seq<u8>>,
    target: Option<TargetModel>,
) -> bool
    decreases names.len(),
{
    if names.len() == 0 {
        true
    } else {
        let es = readable(tree_items(objects[oid]));
        if names.len() == 1 {
            reads_back(in_tree_order(updated(es, names[0], target)))
        } else {
            let (start, all) = with_directory(objects, es, names[0]);
            let last = last_named(all, names[0])->0;
            let child = modified(start, last, names.drop_first(), target).1;
            &&& path_reads_back(start, last, names.drop_first(), target)
            &&& child matches Ok((child_oid, _)) ==> child_oid.len() == 20 && reads_back(
                in_tree_order(redirected(all, names[0], child_oid)),
            )
            &&& !holds_name(es, names[0]) ==> tree_items(Seq::empty()) == Seq::<
                Option<EntryModel>,
            >::empty() && object_id(OBJ_TREE, Seq::empty()).len() == 20
        }
    }
}

/// All modes are octal digits.
pub open spec fn digits(es: Seq<EntryModel>) -> bool {
    forall|i: int| 0 <= i < es.len() ==> octal_digits((#[trigger] es[i]).octal)
}

pub(crate) fn read_entries(data: &[u8]) -> (r: Vec<TreeEntry>)
    ensures
        models(r@) == readable(tree_items(data@)),
        digits(models(r@)),
{
    let items = decode_tree(data);
    let ghost all = item_models(items@);
    let mut r: Vec<TreeEntry> = Vec::new();
    let mut i: usize = 0;
    assert(models(r@) =~= readable(all.take(0)));
    while i < items.len()
        invariant
            i <= items@.len(),
            all == item_models(items@),
            models(r@) == readable(all.take(i as int)),
            digits(models(r@)),
            forall|k: int|
                0 <= k < items@.len() ==> match #[trigger] items@[k] {
                    Some(e) => decoded_entry(e@),
                    None => true,
                },
        decreases items@.len() - i,
    {
        let ghost before = r@;
        assert(all.take(i + 1).drop_last() =~= all.take(i as int));
        assert(all.take(i + 1).last() == all[i as int]);
        if let Some(e) = &items[i] {
            r.push(e.duplicate());
            assert(models(r@) =~= models(before).push(e@));
        }
        i += 1;
    }
    assert(all.take(i as int) =~= all);
    r
}

fn has_name(entries: &Vec<TreeEntry>, name: &[u8]) -> (r: bool)
    ensures
        r == holds_name(models(entries@), name@),
{
    let mut i: usize = 0;
    while i < entries.len()
        invariant
            i <= entries@.len(),
            forall|k: int| 0 <= k < i ==> (#[trigger] models(entries@)[k]).name != name@,
        decreases entries@.len() - i,
    {
        if same_bytes(entries[i].filename.as_slice(), name) {
            assert(models(entries@)[i as int].name == name@);
            return true;
        }
        i += 1;
    }
    false
}

fn make_entry(name: &[u8], target: &Target) -> (r: TreeEntry)
    ensures
        r@ == named_entry(name@, target_model(*target)),
{
    TreeEntry { mode: target.0.duplicate(), filename: copy_bytes(name), oid: target.1 }
}

fn update_entries(entries: &Vec<TreeEntry>, name: &[u8], entry: &Option<Target>) -> (r: Vec<
    TreeEntry,
>)
    requires
        digits(models(entries@)),
        entry matches Some(t) ==> octal_digits(t.0@),
    ensures
        models(r@) == updated(models(entries@), name@, target_option(*entry)),
        digits(models(r@)),
{
    let ghost all = models(entries@);
    let ghost target = target_option(*entry);
    let mut r: Vec<TreeEntry> = Vec::new();
    let mut i: usize = 0;
    assert(models(r@) =~= rewritten(all.take(0), name@, target));
    while i < entries.len()
        invariant
            i <= entries@.len(),
            all == models(entries@),
            target == target_option(*entry),
            models(r@) == rewritten(all.take(i as int), name@, target),
            digits(all),
            digits(models(r@)),
            entry matches Some(t) ==> octal_digits(t.0@),
        decreases entries@.len() - i,
    {
        let ghost before = r@;
        assert(all.take(i + 1).drop_last() =~= all.take(i as int));
        assert(all.take(i + 1).last() == all[i as int]);
        if same_bytes(entries[i].filename.as_slice(), name) {
            if let Some(t) = entry {
                let e = make_entry(name, t);
                let ghost model = e@;
                r.push(e);
                assert(models(r@) =~= models(before).push(model));
            }
        } else {
            let e = entries[i].duplicate();
            let ghost model = e@;
            r.push(e);
            assert(models(r@) =~= models(before).push(model));
        }
        i += 1;
    }
    assert(all.take(i as int) =~= all);
    if let Some(t) = entry {
        if !has_name(entries, name) {
            let ghost before = r@;
            let e = make_entry(name, t);
            let ghost model = e@;
            r.push(e);
            assert(models(r@) =~= models(before).push(model));
        }
    }
    r
}

fn redirect_entries(entries: &Vec<TreeEntry>, name: &[u8], oid: &ObjectId) -> (r: Vec<TreeEntry>)
    requires
        digits(models(entries@)),
    ensures
        models(r@) == redirected(models(entries@), name@, oid@),
        digits(models(r@)),
{
    let ghost all = models(entries@);
    let mut r: Vec<TreeEntry> = Vec::new();
    let mut i: usize = 0;
    while i < entries.len()
        invariant
            i <= entries@.len(),
            all == models(entries@),
            r@.len() == i,
            digits(all),
            forall|k: int|
                0 <= k < i ==> #[trigger] models(r@)[k] == redirected(all, name@, oid@)[k],
        decreases entries@.len() - i,
    {
        let ghost before = models(r@);
        let mut e = entries[i].duplicate();
        assert(all[i as int] == e@);
        if same_bytes(e.filename.as_slice(), name) {
            e.oid = *oid;
        }
        let ghost model = e@;
        r.push(e);
        assert(models(r@) =~= before.push(model));
        i += 1;
    }
    assert(models(r@) =~= redirected(all, name@, oid@));
    proof {
        assert forall|k: int| 0 <= k < models(r@).len() implies octal_digits(
            (#[trigger] models(r@)[k]).octal,
        ) by {
            assert(octal_digits(all[k].octal));
        }
    }
    r
}

fn write_tree(entries: &Vec<TreeEntry>) -> (r: Option<Vec<u8>>)
    requires
        ordered(models(entries@)),
        clash_free(models(entries@)),
        forall|i: int| 0 <= i < entries@.len() ==> octal_digits((#[trigger] entries@[i]).mode@),
    ensures
        match r {
            Some(out) => tree_object(models(entries@)) == Some(out@),
            None => tree_object(models(entries@)) is None,
        },
        r is None <==> !clear_names(models(entries@)),
        regular_entries(models(entries@)) ==> r is Some,
{
    let converted = give_entries(entries);
    proof {
        let es = models(entries@);
        let g = models(converted@);
        lemma_given(es);
        assert forall|i: int| 0 <= i < converted@.len() implies octal_digits(
            (#[trigger] converted@[i]).mode@,
        ) by {
            assert(g[i] == converted@[i]@);
            assert(es[i] == entries@[i]@);
            assert(octal_digits(entries@[i].mode@));
        }
        assert(clear_names(es) == clear_names(g)) by {
            assert forall|i: int| 0 <= i < es.len() implies es[i].name == g[i].name by {}
            if clear_names(g) {
                assert forall|i: int| 0 <= i < es.len() implies position(
                    (#[trigger] es[i]).name,
                    0,
                ) is None by {
                    assert(position(g[i].name, 0) is None);
                }
            }
            if clear_names(es) {
                assert forall|i: int| 0 <= i < g.len() implies position(
                    (#[trigger] g[i]).name,
                    0,
                ) is None by {
                    assert(position(es[i].name, 0) is None);
                }
            }
        }
    }
    encode_tree(&converted)
}

fn store_tree(objects: &mut ObjectMap, entries: &Vec<TreeEntry>) -> (r: Result<
    (ObjectId, Vec<u8>),
    ObjectError,
>)
    requires
        digits(models(entries@)),
    ensures
        match r {
            Ok((oid, data)) => stored(old(objects)@, models(entries@)) == (
                final(objects)@,
                Ok::<(Seq<u8>, Seq<u8>), ObjectError>((oid@, data@)),
            ) && reads_back(in_tree_order(models(entries@))),
            Err(e) => stored(old(objects)@, models(entries@)) == (
                final(objects)@,
                Err::<(Seq<u8>, Seq<u8>), ObjectError>(e),
            ) && final(objects)@ == old(objects)@,
        },
{
    if !check_clashes(entries) {
        return Err(ObjectError::NameClash);
    }
    let sorted = sort_entries(entries);
    proof {
        let es = models(entries@);
        let so = models(sorted@);
        lemma_tree_order_keeps(es);
        lemma_tree_order_orders(es);
        lemma_same_entries(es, so);
        lemma_clash_free_entries(es, so);
        assert forall|i: int| 0 <= i < sorted@.len() implies octal_digits(
            (#[trigger] sorted@[i]).mode@,
        ) by {
            assert(so[i] == sorted@[i]@);
            assert(so.contains(so[i]));
            assert(es.contains(so[i]));
            let x = choose|x: int| 0 <= x < es.len() && es[x] == so[i];
            assert(octal_digits(es[x].octal));
        }
    }
    match write_tree(&sorted) {
        Some(data) => {
            proof {
                if regular_entries(models(sorted@)) {
                    lemma_tree_items(models(sorted@));
                }
            }
            let oid = hash_object(OBJ_TREE, data.as_slice());
            objects.insert(&oid, copy_bytes(data.as_slice()));
            Ok((oid, data))
        },
        None => Err(ObjectError::BadName),
    }
}

fn last_oid(entries: &Vec<TreeEntry>, name: &[u8]) -> (r: Option<ObjectId>)
    ensures
        match r {
            Some(oid) => last_named(models(entries@), name@) == Some(oid@) && holds_name(
                models(entries@),
                name@,
            ),
            None => last_named(models(entries@), name@) is None && !holds_name(
                models(entries@),
                name@,
            ),
        },
{
    let ghost all = models(entries@);
    let mut n: usize = entries.len();
    assert(all.take(n as int) =~= all);
    while n > 0
        invariant
            n <= entries@.len(),
            all == models(entries@),
            last_named(all, name@) == last_named(all.take(n as int), name@),
            forall|k: int| n <= k < all.len() ==> (#[trigger] all[k]).name != name@,
        decreases n,
    {
        assert(all.take(n as int).last() == all[n - 1]);
        assert(all.take(n as int).drop_last() =~= all.take(n - 1));
        if same_bytes(entries[n - 1].filename.as_slice(), name) {
            return Some(entries[n - 1].oid);
        }
        n -= 1;
    }
    None
}

pub proof fn lemma_last_named_pushed(es: Seq<EntryModel>, e: EntryModel)
    ensures
        last_named(es.push(e), e.name) == Some(e.oid),
{
    assert(es.push(e).last() == e);
}

fn modify_names(
    objects: &mut ObjectMap,
    tree_oid: &ObjectId,
    names: &Components,
    from: usize,
    entry: &Option<Target>,
) -> (r: Result<(ObjectId, ObjectList), ObjectError>)
    requires
        from <= names@.len(),
        entry matches Some(t) ==> octal_digits(t.0@),
    ensures
        match r {
            Ok((root, list)) => modified(
                old(objects)@,
                tree_oid@,
                names@.skip(from as int),
                target_option(*entry),
            ) == (
                final(objects)@,
                Ok::<(Seq<u8>, Seq<(u8, Seq<u8>)>), ObjectError>((root@, list_model(list@))),
            ) && path_reads_back(
                old(objects)@,
                tree_oid@,
                names@.skip(from as int),
                target_option(*entry),
            ),
            Err(e) => modified(
                old(objects)@,
                tree_oid@,
                names@.skip(from as int),
                target_option(*entry),
            ) == (
                final(objects)@,
                Err::<(Seq<u8>, Seq<(u8, Seq<u8>)>), ObjectError>(e),
            ),
        },
    decreases names@.len() - from,
{
    let ghost path = names@.skip(from as int);
    let ghost target = target_option(*entry);
    if from == names.len() {
        return Err(ObjectError::EmptyPath);
    }
    let name = names.name(from);
    assert(path[0] == name@);
    assert(path.drop_first() =~= names@.skip(from + 1));
    if !is_utf8(name.as_slice()) {
        return Err(ObjectError::NotUtf8);
    }
    let mut entries = match objects.get(tree_oid) {
        Some(data) => read_entries(data.as_slice()),
        None => {
            return Err(ObjectError::MissingTree);
        },
    };
    let ghost es = models(entries@);
    let child = last_oid(&entries, name.as_slice());
    if entry.is_none() && child.is_none() {
        return Err(ObjectError::NotFound);
    }
    if from + 1 == names.len() {
        let updated_entries = update_entries(&entries, name.as_slice(), entry);
        match store_tree(objects, &updated_entries) {
            Ok((root, data)) => {
                let mut list: ObjectList = Vec::new();
                list.push((OBJ_TREE, data));
                assert(list_model(list@) =~= seq![(OBJ_TREE, data@)]);
                Ok((root, list))
            },
            Err(e) => Err(e),
        }
    } else {
        let child_oid = match child {
            Some(oid) => oid,
            None => {
                let none: Vec<TreeEntry> = Vec::new();
                assert(models(none@) =~= Seq::empty());
                match write_tree(&none) {
                    Some(data) => {
                        proof {
                            lemma_tree_items(Seq::empty());
                            assert(data@ =~= Seq::empty());
                            assert(present(Seq::empty()) =~= Seq::empty());
                        }
                        let oid = hash_object(OBJ_TREE, data.as_slice());
                        objects.insert(&oid, data);
                        let e = TreeEntry {
                            mode: EntryMode::tree(),
                            filename: copy_bytes(name.as_slice()),
                            oid,
                        };
                        let ghost model = e@;
                        entries.push(e);
                        proof {
                            lemma_own_modes();
                            assert(model == empty_directory(name@));
                            assert(models(entries@) =~= es.push(model));
                            lemma_last_named_pushed(es, model);
                        }
                        oid
                    },
                    None => {
                        return Err(ObjectError::BadName);
                    },
                }
            },
        };
        let ghost all = models(entries@);
        let ghost start = objects@;
        assert((start, all) == with_directory(old(objects)@, es, name@));
        match modify_names(objects, &child_oid, names, from + 1, entry) {
            Ok((new_child, mut list)) => {
                let changed = redirect_entries(&entries, name.as_slice(), &new_child);
                match store_tree(objects, &changed) {
                    Ok((root, data)) => {
                        let ghost before = list_model(list@);
                        let ghost content = data@;
                        list.push((OBJ_TREE, data));
                        assert(list_model(list@) =~= before.push((OBJ_TREE, content)));
                        Ok((root, list))
                    },
                    Err(e) => Err(e),
                }
            },
            Err(e) => Err(e),
        }
    }
}

// ---------------------------------------------------------------------------
// What a change at a path means for lookups
// ---------------------------------------------------------------------------

/// The trees that a path leads through can be read and are sound, and what it
/// leads through are directories.
pub open spec fn sound_path(
    objects: Map<Seq<u8>, Seq<u8>>,
    oid: Seq<u8>,
    names: Seq<Seq<u8>>,
) -> bool
    decreases names.len(),
{
    names.len() > 0 ==> {
        &&& objects.contains_key(oid)
        &&& sound_items(tree_items(objects[oid]))
        &&& names.len() > 1 ==> match first_named(tree_items(objects[oid]), names[0]) {
            Ok(Some(e)) => tree_mode(e.octal) && sound_path(objects, e.oid, names.drop_first()),
            _ => true,
        }
    }
}

/// The objects of `a` are in `b` too.
pub open spec fn held_in(a: Map<Seq<u8>, Seq<u8>>, b: Map<Seq<u8>, Seq<u8>>) -> bool {
    forall|k: Seq<u8>| #[trigger] a.contains_key(k) ==> b.contains_key(k) && a[k] == b[k]
}

/// The written objects together with the empty tree.
pub open spec fn with_empty_tree(list: Seq<(u8, Seq<u8>)>) -> Seq<(u8, Seq<u8>)> {
    list.push((OBJ_TREE, Seq::empty()))
}

/// No id stands for two contents, among the objects, those of the list and the
/// empty tree.
pub open spec fn no_collision(
    objects: Map<Seq<u8>, Seq<u8>>,
    list: Seq<(u8, Seq<u8>)>,
) -> bool {
    let all = with_empty_tree(list);
    &&& forall|i: int|
        0 <= i < all.len() && objects.contains_key(object_id((#[trigger] all[i]).0, all[i].1))
            ==> objects[object_id(all[i].0, all[i].1)] == all[i].1
    &&& forall|i: int, j: int|
        0 <= i < all.len() && 0 <= j < all.len() && object_id((#[trigger] all[i]).0, all[i].1)
            == object_id((#[trigger] all[j]).0, all[j].1) ==> all[i].1 == all[j].1
}

/// All names are UTF-8.
pub open spec fn utf8_names(names: Seq<Seq<u8>>) -> bool {
    forall|i: int| 0 <= i < names.len() ==> valid_utf8(#[trigger] names[i])
}

/// The two paths part ways: neither leads through the other.
pub open spec fn apart(a: Seq<Seq<u8>>, b: Seq<Seq<u8>>) -> bool {
    exists|i: int| 0 <= i < a.len() && i < b.len() && #[trigger] a[i] != #[trigger] b[i]
}

/// A target that a tree holds unchanged.
pub open spec fn sound_target(target: Option<TargetModel>) -> bool {
    target matches Some(t) ==> regular_mode(t.0) && t.1.len() == 20
}

/// Every object of `after` was there before, or was written.
pub open spec fn accounted(
    objects: Map<Seq<u8>, Seq<u8>>,
    after: Map<Seq<u8>, Seq<u8>>,
    list: Seq<(u8, Seq<u8>)>,
) -> bool {
    forall|k: Seq<u8>| #[trigger]
        after.contains_key(k) ==> (objects.contains_key(k) && objects[k] == after[k]) || among(
            with_empty_tree(list),
            k,
            after[k],
        )
}

/// The list has this content, with this id.
pub open spec fn among(all: Seq<(u8, Seq<u8>)>, k: Seq<u8>, content: Seq<u8>) -> bool {
    exists|i: int|
        0 <= i < all.len() && object_id((#[trigger] all[i]).0, all[i].1) == k && all[i].1 == content
}

/// What a lookup gives is not changed by more objects.
pub proof fn lemma_found_extends(
    a: Map<Seq<u8>, Seq<u8>>,
    b: Map<Seq<u8>, Seq<u8>>,
    oid: Seq<u8>,
    names: Seq<Seq<u8>>,
)
    requires
        held_in(a, b),
        found(a, oid, names) is Ok,
    ensures
        found(b, oid, names) == found(a, oid, names),
    decreases names.len(),
{
    if names.len() > 0 {
        assert(a.contains_key(oid));
        assert(a.contains_pair(oid, a[oid]));
        assert(b.contains_key(oid) && b[oid] == a[oid]);
        match first_named(tree_items(a[oid]), names[0]) {
            Ok(Some(e)) => {
                if names.len() > 1 && tree_mode(e.octal) {
                    lemma_found_extends(a, b, e.oid, names.drop_first());
                }
            },
            _ => {},
        }
    }
}

proof fn lemma_no_collision_front(
    objects: Map<Seq<u8>, Seq<u8>>,
    list: Seq<(u8, Seq<u8>)>,
    last: (u8, Seq<u8>),
)
    requires
        no_collision(objects, list.push(last)),
    ensures
        no_collision(objects, list),
        no_collision(objects.insert(object_id(OBJ_TREE, Seq::empty()), Seq::empty()), list),
{
    let big = with_empty_tree(list.push(last));
    let all = with_empty_tree(list);
    let wider = objects.insert(object_id(OBJ_TREE, Seq::empty()), Seq::empty());
    let n = list.len() as int;
    assert(big[n + 1] == all[n]);
    assert forall|i: int| 0 <= i < all.len() implies #[trigger] all[i] == big[if i < n {
        i
    } else {
        n + 1
    }] by {}
    assert forall|i: int|
        0 <= i < all.len() && wider.contains_key(
            object_id((#[trigger] all[i]).0, all[i].1),
        ) implies wider[object_id(all[i].0, all[i].1)] == all[i].1 by {
        let x = if i < n {
            i
        } else {
            n + 1
        };
        assert(all[i] == big[x]);
        assert(big[n + 1] == (OBJ_TREE, Seq::<u8>::empty()));
        if object_id(all[i].0, all[i].1) == object_id(OBJ_TREE, Seq::empty()) {
            assert(big[x].1 == big[n + 1].1);
        }
    }
    assert forall|i: int, j: int|
        0 <= i < all.len() && 0 <= j < all.len() && object_id((#[trigger] all[i]).0, all[i].1)
            == object_id((#[trigger] all[j]).0, all[j].1) implies all[i].1 == all[j].1 by {
        let x = if i < n {
            i
        } else {
            n + 1
        };
        let y = if j < n {
            j
        } else {
            n + 1
        };
        assert(big[x].1 == big[y].1);
    }
}

proof fn lemma_among_wider(
    list: Seq<(u8, Seq<u8>)>,
    last: (u8, Seq<u8>),
    k: Seq<u8>,
    content: Seq<u8>,
)
    requires
        among(with_empty_tree(list), k, content),
    ensures
        among(with_empty_tree(list.push(last)), k, content),
{
    let all = with_empty_tree(list);
    let big = with_empty_tree(list.push(last));
    let i = choose|i: int|
        0 <= i < all.len() && object_id((#[trigger] all[i]).0, all[i].1) == k && all[i].1
            == content;
    if i < list.len() {
        assert(big[i] == all[i]);
    } else {
        assert(big[list.len() as int + 1] == all[i]);
    }
}

/// Storing one more tree, after those of `list`.
proof fn lemma_store_step(
    objects: Map<Seq<u8>, Seq<u8>>,
    below: Map<Seq<u8>, Seq<u8>>,
    list: Seq<(u8, Seq<u8>)>,
    data: Seq<u8>,
)
    requires
        no_collision(objects, list.push((OBJ_TREE, data))),
        accounted(objects, below, list),
        held_in(objects, below),
    ensures
        held_in(below, below.insert(object_id(OBJ_TREE, data), data)),
        held_in(objects, below.insert(object_id(OBJ_TREE, data), data)),
        accounted(
            objects,
            below.insert(object_id(OBJ_TREE, data), data),
            list.push((OBJ_TREE, data)),
        ),
{
    let root = object_id(OBJ_TREE, data);
    let after = below.insert(root, data);
    let big = with_empty_tree(list.push((OBJ_TREE, data)));
    let n = list.len() as int;
    assert(big[n] == (OBJ_TREE, data));
    assert(big[n + 1] == (OBJ_TREE, Seq::<u8>::empty()));
    if below.contains_key(root) {
        if objects.contains_key(root) && objects[root] == below[root] {
            assert(objects.contains_key(object_id(big[n].0, big[n].1)));
        } else {
            let all = with_empty_tree(list);
            let i = choose|i: int|
                0 <= i < all.len() && object_id((#[trigger] all[i]).0, all[i].1) == root
                    && all[i].1 == below[root];
            let x = if i < n {
                i
            } else {
                n + 1
            };
            assert(big[x] == all[i]);
            assert(big[x].1 == big[n].1);
        }
        assert(below[root] == data);
    }
    assert forall|k: Seq<u8>| #[trigger] after.contains_key(k) implies (objects.contains_key(k)
        && objects[k] == after[k]) || among(big, k, after[k]) by {
        if k == root {
            assert(object_id(big[n].0, big[n].1) == k && big[n].1 == after[k]);
        } else {
            assert(below.contains_key(k));
            if !(objects.contains_key(k) && objects[k] == after[k]) {
                lemma_among_wider(list, (OBJ_TREE, data), k, after[k]);
            }
        }
    }
}

proof fn lemma_accounted_directory(
    objects: Map<Seq<u8>, Seq<u8>>,
    after: Map<Seq<u8>, Seq<u8>>,
    list: Seq<(u8, Seq<u8>)>,
)
    requires
        accounted(
            objects.insert(object_id(OBJ_TREE, Seq::empty()), Seq::empty()),
            after,
            list,
        ),
    ensures
        accounted(objects, after, list),
{
    let all = with_empty_tree(list);
    let n = list.len() as int;
    let wider = objects.insert(object_id(OBJ_TREE, Seq::empty()), Seq::empty());
    assert forall|k: Seq<u8>| #[trigger] after.contains_key(k) implies (objects.contains_key(k)
        && objects[k] == after[k]) || among(all, k, after[k]) by {
        if k == object_id(OBJ_TREE, Seq::empty()) && wider[k] == after[k] {
            assert(all[n] == (OBJ_TREE, Seq::<u8>::empty()));
            assert(object_id(all[n].0, all[n].1) == k && all[n].1 == after[k]);
        }
    }
}

/// A change keeps what was there, has what it wrote, and adds nothing else.
pub proof fn lemma_modified_keeps(
    objects: Map<Seq<u8>, Seq<u8>>,
    oid: Seq<u8>,
    names: Seq<Seq<u8>>,
    target: Option<TargetModel>,
)
    requires
        modified(objects, oid, names, target).1 is Ok,
        no_collision(objects, modified(objects, oid, names, target).1->Ok_0.1),
    ensures
        held_in(objects, modified(objects, oid, names, target).0),
        accounted(
            objects,
            modified(objects, oid, names, target).0,
            modified(objects, oid, names, target).1->Ok_0.1,
        ),
        has_all(
            modified(objects, oid, names, target).1->Ok_0.1,
            modified(objects, oid, names, target).0,
        ),
    decreases names.len(),
{
    let es = readable(tree_items(objects[oid]));
    let (after, r) = modified(objects, oid, names, target);
    let list = r->Ok_0.1;
    if names.len() == 1 {
        let data = stored(objects, updated(es, names[0], target)).1->Ok_0.1;
        let none = Seq::<(u8, Seq<u8>)>::empty();
        assert(list =~= none.push((OBJ_TREE, data)));
        assert(accounted(objects, objects, none));
        lemma_store_step(objects, objects, none, data);
    } else {
        let (start, all) = with_directory(objects, es, names[0]);
        let last = last_named(all, names[0])->0;
        let (below, child) = modified(start, last, names.drop_first(), target);
        let (child_oid, child_list) = child->Ok_0;
        let data = stored(below, redirected(all, names[0], child_oid)).1->Ok_0.1;
        assert(list == child_list.push((OBJ_TREE, data)));
        lemma_no_collision_front(objects, child_list, (OBJ_TREE, data));
        lemma_modified_keeps(start, last, names.drop_first(), target);
        if !holds_name(es, names[0]) {
            lemma_accounted_directory(objects, below, child_list);
            lemma_empty_tree_fits(objects, child_list);
        }
        assert(held_in(objects, below));
        lemma_store_step(objects, below, child_list, data);
    }
}

proof fn lemma_empty_tree_fits(objects: Map<Seq<u8>, Seq<u8>>, list: Seq<(u8, Seq<u8>)>)
    requires
        no_collision(objects, list),
    ensures
        held_in(objects, objects.insert(object_id(OBJ_TREE, Seq::empty()), Seq::empty())),
{
    let all = with_empty_tree(list);
    assert(all[list.len() as int] == (OBJ_TREE, Seq::<u8>::empty()));
}

/// What the tree that was stored gives for a name.
proof fn lemma_stored_lookup(below: Map<Seq<u8>, Seq<u8>>, es: Seq<EntryModel>)
    requires
        stored(below, es).1 is Ok,
        reads_back(in_tree_order(es)),
        distinct_names(es),
        regular_entries(es),
    ensures
        forall|name: Seq<u8>| #[trigger]
            first_named(tree_items(stored(below, es).1->Ok_0.1), name) == Ok::<
                Option<EntryModel>,
                ObjectError,
            >(pick(es, name)),
        sound_items(tree_items(stored(below, es).1->Ok_0.1)),
{
    let data = stored(below, es).1->Ok_0.1;
    let so = in_tree_order(es);
    lemma_sorted(es);
    assert(tree_items(data) == present(so));
    lemma_present_readable(so);
    assert forall|name: Seq<u8>| #[trigger] first_named(tree_items(data), name) == Ok::<
        Option<EntryModel>,
        ObjectError,
    >(pick(es, name)) by {
        lemma_first_named_present(so, name);
    }
}

/// The name of an entry in a stored tree holds no NUL.
proof fn lemma_stored_clear(below: Map<Seq<u8>, Seq<u8>>, es: Seq<EntryModel>, e: EntryModel)
    requires
        stored(below, es).1 is Ok,
        reads_back(in_tree_order(es)),
        es.contains(e),
    ensures
        position(e.name, 0) is None,
{
    let so = in_tree_order(es);
    lemma_tree_order_keeps(es);
    lemma_same_entries(es, so);
    assert(so.contains(e));
    let k = choose|k: int| 0 <= k < so.len() && so[k] == e;
    assert(position(so[k].name, 0) is None);
}

/// The level of a change where the path has more than one component: what the
/// new tree gives for a name.
pub proof fn lemma_upper_level(
    objects: Map<Seq<u8>, Seq<u8>>,
    oid: Seq<u8>,
    names: Seq<Seq<u8>>,
    target: Option<TargetModel>,
)
    requires
        names.len() > 1,
        modified(objects, oid, names, target).1 is Ok,
        path_reads_back(objects, oid, names, target),
        sound_path(objects, oid, names),
    ensures
        ({
            let es = readable(tree_items(objects[oid]));
            let (start, all) = with_directory(objects, es, names[0]);
            let last = last_named(all, names[0])->0;
            let (below, child) = modified(start, last, names.drop_first(), target);
            let (root, list) = modified(objects, oid, names, target).1->Ok_0;
            let now = tree_items(list.last().1);
            &&& root == object_id(OBJ_TREE, list.last().1)
            &&& list.last().0 == OBJ_TREE
            &&& list.drop_last() == child->Ok_0.1
            &&& sound_items(now)
            &&& sound_path(start, last, names.drop_first())
            &&& match first_named(now, names[0]) {
                Ok(Some(e)) => tree_mode(e.octal) && e.oid == child->Ok_0.0,
                _ => false,
            }
            &&& forall|other: Seq<u8>|
                other != names[0] ==> #[trigger] first_named(now, other) == first_named(
                    tree_items(objects[oid]),
                    other,
                )
        }),
{
    let items = tree_items(objects[oid]);
    let es = readable(items);
    let (start, all) = with_directory(objects, es, names[0]);
    let last = last_named(all, names[0])->0;
    let rest = names.drop_first();
    let (below, child) = modified(start, last, rest, target);
    let child_oid = child->Ok_0.0;
    let changed = redirected(all, names[0], child_oid);
    lemma_readable_present(items);
    lemma_first_named_present(es, names[0]);
    lemma_pick(es, names[0]);
    if !holds_name(es, names[0]) {
        let x = empty_directory(names[0]);
        assert(all == es.push(x));
        assert(all[es.len() as int] == x);
        assert(all.contains(x));
        lemma_last_named_pushed(es, x);
        let y = EntryModel { oid: child_oid, ..x };
        assert(changed[es.len() as int] == y);
        assert(changed.contains(y));
        lemma_stored_clear(below, changed, y);
        lemma_own_modes();
        assert forall|i: int, j: int| 0 <= i < j < all.len() implies (#[trigger] all[i]).name != (
        #[trigger] all[j]).name by {
            assert(es[i].name != names[0]);
            if j < es.len() {
                assert(es[i].name != es[j].name);
            }
        }
        assert forall|i: int| 0 <= i < all.len() implies regular_entry(#[trigger] all[i]) by {
            if i < es.len() {
                assert(regular_entry(es[i]));
            }
        }
        lemma_pick_is(all, x);
        assert(start[last] == Seq::<u8>::empty());
        assert(sound_path(start, last, rest));
        assert forall|other: Seq<u8>| other != names[0] implies #[trigger] pick(all, other) == pick(
            es,
            other,
        ) by {
            lemma_pick_pushed(es, x, other);
        }
    } else {
        lemma_last_named_pick(es, names[0]);
        assert(all == es);
        assert(tree_mode(pick(es, names[0])->0.octal));
    }
    lemma_redirected(all, names[0], child_oid);
    lemma_stored_lookup(below, changed);
    let list = modified(objects, oid, names, target).1->Ok_0.1;
    assert(list.drop_last() =~= child->Ok_0.1);
    let now = tree_items(list.last().1);
    assert(first_named(now, names[0]) == Ok::<Option<EntryModel>, ObjectError>(
        pick(changed, names[0]),
    ));
    assert forall|other: Seq<u8>| other != names[0] implies #[trigger] first_named(now, other)
        == first_named(items, other) by {
        lemma_first_named_present(es, other);
        assert(pick(changed, other) == pick(all, other));
    }
}

proof fn lemma_pick_pushed(es: Seq<EntryModel>, e: EntryModel, name: Seq<u8>)
    requires
        e.name != name,
    ensures
        pick(es.push(e), name) == pick(es, name),
    decreases es.len(),
{
    if es.len() > 0 {
        assert(es.push(e).drop_first() =~= es.drop_first().push(e));
        lemma_pick_pushed(es.drop_first(), e, name);
    } else {
        assert(es.push(e).drop_first() =~= es);
    }
}

/// A map that has the written objects.
pub open spec fn has_all(list: Seq<(u8, Seq<u8>)>, after: Map<Seq<u8>, Seq<u8>>) -> bool {
    forall|i: int|
        0 <= i < list.len() ==> after.contains_key(object_id((#[trigger] list[i]).0, list[i].1))
            && after[object_id(list[i].0, list[i].1)] == list[i].1
}

/// A map that has the objects that were there before, and those that were
/// written.
pub open spec fn carries(
    before: Map<Seq<u8>, Seq<u8>>,
    list: Seq<(u8, Seq<u8>)>,
    after: Map<Seq<u8>, Seq<u8>>,
) -> bool {
    held_in(before, after) && has_all(list, after)
}

/// What was put at a path is found there, and what was removed is not, in any
/// map that has the trees that were written.
proof fn lemma_modified_found(
    objects: Map<Seq<u8>, Seq<u8>>,
    oid: Seq<u8>,
    names: Seq<Seq<u8>>,
    target: Option<TargetModel>,
    after: Map<Seq<u8>, Seq<u8>>,
)
    requires
        modified(objects, oid, names, target).1 is Ok,
        path_reads_back(objects, oid, names, target),
        sound_path(objects, oid, names),
        sound_target(target),
        has_all(modified(objects, oid, names, target).1->Ok_0.1, after),
    ensures
        found(after, modified(objects, oid, names, target).1->Ok_0.0, names) == Ok::<
            Option<TargetModel>,
            ObjectError,
        >(target),
        sound_path(after, modified(objects, oid, names, target).1->Ok_0.0, names),
    decreases names.len(),
{
    let es = readable(tree_items(objects[oid]));
    let (root, list) = modified(objects, oid, names, target).1->Ok_0;
    if names.len() == 1 {
        lemma_lowest_level(objects, oid, names, target);
    } else {
        let (start, all) = with_directory(objects, es, names[0]);
        let last = last_named(all, names[0])->0;
        lemma_upper_level(objects, oid, names, target);
        lemma_has_all_front(list, after);
        lemma_modified_found(start, last, names.drop_first(), target, after);
    }
    assert(list[list.len() - 1] == list.last());
}

pub proof fn lemma_has_all_front(list: Seq<(u8, Seq<u8>)>, after: Map<Seq<u8>, Seq<u8>>)
    requires
        list.len() > 0,
        has_all(list, after),
    ensures
        has_all(list.drop_last(), after),
{
    let front = list.drop_last();
    assert forall|i: int| 0 <= i < front.len() implies after.contains_key(
        object_id((#[trigger] front[i]).0, front[i].1),
    ) && after[object_id(front[i].0, front[i].1)] == front[i].1 by {
        assert(front[i] == list[i]);
    }
}

/// The level of a change where the path has one component: what the new tree
/// gives for a name.
pub proof fn lemma_lowest_level(
    objects: Map<Seq<u8>, Seq<u8>>,
    oid: Seq<u8>,
    names: Seq<Seq<u8>>,
    target: Option<TargetModel>,
)
    requires
        names.len() == 1,
        modified(objects, oid, names, target).1 is Ok,
        path_reads_back(objects, oid, names, target),
        sound_path(objects, oid, names),
        sound_target(target),
    ensures
        ({
            let (root, list) = modified(objects, oid, names, target).1->Ok_0;
            let now = tree_items(list.last().1);
            &&& root == object_id(OBJ_TREE, list.last().1)
            &&& list.last().0 == OBJ_TREE
            &&& list.len() == 1
            &&& sound_items(now)
            &&& first_named(now, names[0]) == Ok::<Option<EntryModel>, ObjectError>(
                match target {
                    Some(t) => Some(named_entry(names[0], t)),
                    None => None,
                },
            )
            &&& forall|other: Seq<u8>|
                other != names[0] ==> #[trigger] first_named(now, other) == first_named(
                    tree_items(objects[oid]),
                    other,
                )
        }),
{
    let items = tree_items(objects[oid]);
    let es = readable(items);
    let u = updated(es, names[0], target);
    lemma_updated(es, names[0], target);
    match target {
        Some(t) => {
            lemma_pick(u, names[0]);
            lemma_stored_clear(objects, u, named_entry(names[0], t));
        },
        None => {},
    }
    lemma_stored_lookup(objects, u);
    lemma_readable_present(items);
    let now = tree_items(stored(objects, u).1->Ok_0.1);
    assert(first_named(now, names[0]) == Ok::<Option<EntryModel>, ObjectError>(pick(u, names[0])));
    assert forall|other: Seq<u8>| other != names[0] implies #[trigger] first_named(now, other)
        == first_named(items, other) by {
        lemma_first_named_present(es, other);
        assert(pick(u, other) == pick(es, other));
    }
}

/// Below a directory that was made on the way, a path that parts ways with the
/// changed one leads to nothing.
proof fn lemma_created_apart(
    objects: Map<Seq<u8>, Seq<u8>>,
    oid: Seq<u8>,
    names: Seq<Seq<u8>>,
    target: Option<TargetModel>,
    other: Seq<Seq<u8>>,
    after: Map<Seq<u8>, Seq<u8>>,
)
    requires
        modified(objects, oid, names, target).1 is Ok,
        path_reads_back(objects, oid, names, target),
        sound_path(objects, oid, names),
        sound_target(target),
        has_all(modified(objects, oid, names, target).1->Ok_0.1, after),
        tree_items(objects[oid]).len() == 0,
        apart(names, other),
        utf8_names(other),
    ensures
        found(after, modified(objects, oid, names, target).1->Ok_0.0, other) == Ok::<
            Option<TargetModel>,
            ObjectError,
        >(None),
        sound_path(after, modified(objects, oid, names, target).1->Ok_0.0, other),
    decreases names.len(),
{
    let items = tree_items(objects[oid]);
    let es = readable(items);
    let (root, list) = modified(objects, oid, names, target).1->Ok_0;
    let now = tree_items(list.last().1);
    if names.len() == 1 {
        lemma_lowest_level(objects, oid, names, target);
    } else {
        lemma_upper_level(objects, oid, names, target);
    }
    assert(list[list.len() - 1] == list.last());
    if other[0] != names[0] {
        assert(first_named(now, other[0]) == first_named(items, other[0]));
    } else {
        assert(!holds_name(es, names[0]));
        let (start, all) = with_directory(objects, es, names[0]);
        let last = last_named(all, names[0])->0;
        lemma_last_named_pushed(es, empty_directory(names[0]));
        lemma_apart_below(names, other);
        lemma_has_all_front(list, after);
        lemma_created_apart(start, last, names.drop_first(), target, other.drop_first(), after);
    }
}

pub proof fn lemma_apart_below(names: Seq<Seq<u8>>, other: Seq<Seq<u8>>)
    requires
        apart(names, other),
        utf8_names(other),
        names[0] == other[0],
    ensures
        apart(names.drop_first(), other.drop_first()),
        utf8_names(other.drop_first()),
        names.len() > 1,
        other.len() > 1,
{
    let rest = names.drop_first();
    let below_path = other.drop_first();
    let i = choose|i: int|
        0 <= i < names.len() && i < other.len() && #[trigger] names[i] != #[trigger] other[i];
    assert(rest[i - 1] == names[i] && below_path[i - 1] == other[i]);
    assert forall|k: int| 0 <= k < below_path.len() implies valid_utf8(
        #[trigger] below_path[k],
    ) by {
        assert(below_path[k] == other[k + 1]);
    }
}

/// What a path leads through stays sound with more objects.
pub proof fn lemma_sound_extends(
    a: Map<Seq<u8>, Seq<u8>>,
    b: Map<Seq<u8>, Seq<u8>>,
    oid: Seq<u8>,
    names: Seq<Seq<u8>>,
)
    requires
        held_in(a, b),
        sound_path(a, oid, names),
    ensures
        sound_path(b, oid, names),
    decreases names.len(),
{
    if names.len() > 1 {
        match first_named(tree_items(a[oid]), names[0]) {
            Ok(Some(e)) => {
                lemma_sound_extends(a, b, e.oid, names.drop_first());
            },
            _ => {},
        }
    }
}

/// A path that parts ways with the changed one leads where it led: out of the
/// objects from before, those of `known` are looked at, and any map that has
/// them and the trees that were written gives the same.
proof fn lemma_modified_apart(
    objects: Map<Seq<u8>, Seq<u8>>,
    oid: Seq<u8>,
    names: Seq<Seq<u8>>,
    target: Option<TargetModel>,
    other: Seq<Seq<u8>>,
    known: Map<Seq<u8>, Seq<u8>>,
    after: Map<Seq<u8>, Seq<u8>>,
)
    requires
        modified(objects, oid, names, target).1 is Ok,
        path_reads_back(objects, oid, names, target),
        sound_path(objects, oid, names),
        sound_target(target),
        has_all(modified(objects, oid, names, target).1->Ok_0.1, after),
        held_in(known, objects),
        held_in(known, after),
        apart(names, other),
        utf8_names(other),
        found(known, oid, other) is Ok,
    ensures
        found(after, modified(objects, oid, names, target).1->Ok_0.0, other) == found(
            known,
            oid,
            other,
        ),
        sound_path(known, oid, other) ==> sound_path(
            after,
            modified(objects, oid, names, target).1->Ok_0.0,
            other,
        ),
    decreases names.len(),
{
    let items = tree_items(objects[oid]);
    let es = readable(items);
    let (root, list) = modified(objects, oid, names, target).1->Ok_0;
    let now = tree_items(list.last().1);
    if names.len() == 1 {
        lemma_lowest_level(objects, oid, names, target);
    } else {
        lemma_upper_level(objects, oid, names, target);
    }
    assert(list[list.len() - 1] == list.last());
    assert(known.contains_key(oid));
    if other[0] != names[0] {
        assert(first_named(now, other[0]) == first_named(items, other[0]));
        match first_named(items, other[0]) {
            Ok(Some(e)) => {
                if other.len() > 1 && tree_mode(e.octal) {
                    lemma_found_extends(known, after, e.oid, other.drop_first());
                    if sound_path(known, oid, other) {
                        lemma_sound_extends(known, after, e.oid, other.drop_first());
                    }
                }
            },
            _ => {},
        }
    } else {
        let (start, all) = with_directory(objects, es, names[0]);
        let last = last_named(all, names[0])->0;
        let rest = names.drop_first();
        let below_path = other.drop_first();
        lemma_apart_below(names, other);
        lemma_readable_present(items);
        lemma_first_named_present(es, names[0]);
        lemma_pick(es, names[0]);
        lemma_has_all_front(list, after);
        if !holds_name(es, names[0]) {
            lemma_last_named_pushed(es, empty_directory(names[0]));
            lemma_created_apart(start, last, rest, target, below_path, after);
        } else {
            lemma_last_named_pick(es, names[0]);
            lemma_modified_apart(start, last, rest, target, below_path, known, after);
        }
    }
}

/// What a change at `names` comes to: the path leads to the target, or to
/// nothing where the entry was removed; and every path that parts ways with
/// it, and that could be looked up before, leads where it led. What these
/// paths lead through is sound, where it was before.
pub open spec fn change_holds(
    known: Map<Seq<u8>, Seq<u8>>,
    oid: Seq<u8>,
    after: Map<Seq<u8>, Seq<u8>>,
    root: Seq<u8>,
    names: Seq<Seq<u8>>,
    target: Option<TargetModel>,
) -> bool {
    &&& found(after, root, names) == Ok::<Option<TargetModel>, ObjectError>(target)
    &&& sound_path(after, root, names)
    &&& forall|other: Seq<Seq<u8>>|
        apart(names, other) && utf8_names(other) && found(known, oid, other) is Ok
            ==> #[trigger] found(after, root, other) == found(known, oid, other) && (sound_path(
            known,
            oid,
            other,
        ) ==> sound_path(after, root, other))
}

/// What a change needs to come to that: sound trees on the path, and a target
/// that a tree holds unchanged.
pub open spec fn change_sound(
    before: Map<Seq<u8>, Seq<u8>>,
    oid: Seq<u8>,
    names: Seq<Seq<u8>>,
    target: Option<TargetModel>,
) -> bool {
    sound_path(before, oid, names) && sound_target(target)
}

/// A change that is sound comes to what it should in every map that has the
/// objects that were written, and those from before that are looked at.
pub open spec fn change_lasts(
    before: Map<Seq<u8>, Seq<u8>>,
    oid: Seq<u8>,
    root: Seq<u8>,
    list: Seq<(u8, Seq<u8>)>,
    names: Seq<Seq<u8>>,
    target: Option<TargetModel>,
) -> bool {
    change_sound(before, oid, names, target) ==> forall|
        known: Map<Seq<u8>, Seq<u8>>,
        after: Map<Seq<u8>, Seq<u8>>,
    |
        held_in(known, before) && #[trigger] carries(known, list, after) ==> change_holds(
            known,
            oid,
            after,
            root,
            names,
            target,
        )
}

/// A change whose trees read back comes to what it should.
pub proof fn lemma_change_lasts(
    objects: Map<Seq<u8>, Seq<u8>>,
    oid: Seq<u8>,
    names: Seq<Seq<u8>>,
    target: Option<TargetModel>,
)
    requires
        modified(objects, oid, names, target).1 is Ok,
        path_reads_back(objects, oid, names, target),
    ensures
        ({
            let (after, r) = modified(objects, oid, names, target);
            let (root, list) = r->Ok_0;
            &&& change_lasts(objects, oid, root, list, names, target)
            &&& no_collision(objects, list) ==> carries(objects, list, after) && accounted(
                objects,
                after,
                list,
            )
        }),
{
    let (end, r) = modified(objects, oid, names, target);
    let (root, list) = r->Ok_0;
    if change_sound(objects, oid, names, target) {
        assert forall|known: Map<Seq<u8>, Seq<u8>>, after: Map<Seq<u8>, Seq<u8>>|
            held_in(known, objects) && #[trigger] carries(known, list, after) implies change_holds(
            known,
            oid,
            after,
            root,
            names,
            target,
        ) by {
            lemma_modified_found(objects, oid, names, target, after);
            assert forall|other: Seq<Seq<u8>>|
                apart(names, other) && utf8_names(other) && found(known, oid, other) is Ok implies
                #[trigger] found(after, root, other) == found(known, oid, other) && (sound_path(
                known,
                oid,
                other,
            ) ==> sound_path(after, root, other)) by {
                lemma_modified_apart(objects, oid, names, target, other, known, after);
            }
        }
    }
    if no_collision(objects, list) {
        lemma_modified_keeps(objects, oid, names, target);
    }
}

/// Changes the entry at `path`, in the tree `tree_oid` and those below it: to
/// `entry`, which makes the directories that are missing on the way, or for
/// `None` takes it out. The new trees are put among the objects; the id of the
/// new root is returned with them, the deepest first.
pub fn modify_tree_entry(
    objects: &mut ObjectMap,
    tree_oid: &ObjectId,
    path: &RepoPath,
    entry: Option<Target>,
) -> (r: Result<(ObjectId, ObjectList), ObjectError>)
    requires
        entry matches Some(t) ==> octal_digits(t.0@),
    ensures
        match r {
            Ok((root, list)) => modified(
                old(objects)@,
                tree_oid@,
                components_of(path@),
                target_option(entry),
            ) == (
                final(objects)@,
                Ok::<(Seq<u8>, Seq<(u8, Seq<u8>)>), ObjectError>((root@, list_model(list@))),
            ) && change_lasts(
                old(objects)@,
                tree_oid@,
                root@,
                list_model(list@),
                components_of(path@),
                target_option(entry),
            ) && (no_collision(old(objects)@, list_model(list@)) ==> carries(
                old(objects)@,
                list_model(list@),
                final(objects)@,
            ) && accounted(old(objects)@, final(objects)@, list_model(list@))),
            Err(e) => modified(
                old(objects)@,
                tree_oid@,
                components_of(path@),
                target_option(entry),
            ) == (final(objects)@, Err::<(Seq<u8>, Seq<(u8, Seq<u8>)>), ObjectError>(e)),
        },
{
    let names = path.components();
    assert(names@.skip(0) =~= names@);
    let r = modify_names(objects, tree_oid, &names, 0, &entry);
    proof {
        if r is Ok {
            lemma_change_lasts(old(objects)@, tree_oid@, names@, target_option(entry));
        }
    }
    r
}

/// What copying the entry at `src` to `dest` does.
pub open spec fn copied_entry(
    objects: Map<Seq<u8>, Seq<u8>>,
    oid: Seq<u8>,
    src: Seq<Seq<u8>>,
    dest: Seq<Seq<u8>>,
) -> (Map<Seq<u8>, Seq<u8>>, Result<(Seq<u8>, Seq<(u8, Seq<u8>)>), ObjectError>) {
    match found(objects, oid, src) {
        Err(e) => (objects, Err(e)),
        Ok(None) => (objects, Err(ObjectError::NotFound)),
        Ok(Some(t)) => modified(objects, oid, dest, Some(t)),
    }
}

/// Copies the entry at `src`, a file or a whole directory, to `dest`, and
/// makes the directories that are missing on the way there.
pub fn copy_tree_entry(
    objects: &mut ObjectMap,
    root_oid: &ObjectId,
    src: &RepoPath,
    dest: &RepoPath,
) -> (r: Result<(ObjectId, ObjectList), ObjectError>)
    ensures
        match r {
            Ok((root, list)) => copied_entry(
                old(objects)@,
                root_oid@,
                components_of(src@),
                components_of(dest@),
            ) == (
                final(objects)@,
                Ok::<(Seq<u8>, Seq<(u8, Seq<u8>)>), ObjectError>((root@, list_model(list@))),
            ) && match found(old(objects)@, root_oid@, components_of(src@)) {
                Ok(t) => change_lasts(
                    old(objects)@,
                    root_oid@,
                    root@,
                    list_model(list@),
                    components_of(dest@),
                    t,
                ),
                Err(_) => false,
            } && (no_collision(old(objects)@, list_model(list@)) ==> carries(
                old(objects)@,
                list_model(list@),
                final(objects)@,
            ) && accounted(old(objects)@, final(objects)@, list_model(list@))),
            Err(e) => copied_entry(
                old(objects)@,
                root_oid@,
                components_of(src@),
                components_of(dest@),
            ) == (final(objects)@, Err::<(Seq<u8>, Seq<(u8, Seq<u8>)>), ObjectError>(e)),
        },
{
    match find_tree_entry(objects, root_oid, src) {
        Err(e) => Err(e),
        Ok(None) => Err(ObjectError::NotFound),
        Ok(Some(t)) => modify_tree_entry(objects, root_oid, dest, Some(t)),
    }
}

/// Takes the entry at `path` out, a file or a whole directory.
pub fn remove_tree_entry(objects: &mut ObjectMap, root_oid: &ObjectId, path: &RepoPath) -> (r:
    Result<(ObjectId, ObjectList), ObjectError>)
    ensures
        match r {
            Ok((root, list)) => modified(old(objects)@, root_oid@, components_of(path@), None) == (
                final(objects)@,
                Ok::<(Seq<u8>, Seq<(u8, Seq<u8>)>), ObjectError>((root@, list_model(list@))),
            ) && change_lasts(
                old(objects)@,
                root_oid@,
                root@,
                list_model(list@),
                components_of(path@),
                None,
            ) && (no_collision(old(objects)@, list_model(list@)) ==> carries(
                old(objects)@,
                list_model(list@),
                final(objects)@,
            ) && accounted(old(objects)@, final(objects)@, list_model(list@))),
            Err(e) => modified(old(objects)@, root_oid@, components_of(path@), None) == (
                final(objects)@,
                Err::<(Seq<u8>, Seq<(u8, Seq<u8>)>), ObjectError>(e),
            ),
        },
{
    modify_tree_entry(objects, root_oid, path, None)
}

/// What a sound path leads to is a target that a tree holds unchanged.
pub proof fn lemma_found_sound(
    objects: Map<Seq<u8>, Seq<u8>>,
    oid: Seq<u8>,
    names: Seq<Seq<u8>>,
)
    requires
        sound_path(objects, oid, names),
        names.len() > 0,
        found(objects, oid, names) is Ok,
    ensures
        sound_target(found(objects, oid, names)->Ok_0),
    decreases names.len(),
{
    let items = tree_items(objects[oid]);
    let es = readable(items);
    lemma_readable_present(items);
    lemma_first_named_present(es, names[0]);
    lemma_pick(es, names[0]);
    match pick(es, names[0]) {
        Some(e) => {
            let k = choose|k: int| 0 <= k < es.len() && es[k] == e;
            assert(regular_entry(es[k]));
            if names.len() > 1 {
                lemma_found_sound(objects, e.oid, names.drop_first());
            }
        },
        None => {},
    }
}

/// A path that goes on behind a file leads to nothing.
pub proof fn lemma_found_behind_file(
    objects: Map<Seq<u8>, Seq<u8>>,
    oid: Seq<u8>,
    names: Seq<Seq<u8>>,
    rest: Seq<Seq<u8>>,
)
    requires
        found(objects, oid, names) matches Ok(Some(t)) && !tree_mode(t.0),
        rest.len() > 0,
    ensures
        found(objects, oid, names + rest) == Ok::<Option<TargetModel>, ObjectError>(None),
    decreases names.len(),
{
    lemma_own_modes();
    assert((names + rest)[0] == names[0]);
    assert((names + rest).drop_first() =~= names.drop_first() + rest);
    match first_named(tree_items(objects[oid]), names[0]) {
        Ok(Some(e)) => {
            if names.len() > 1 {
                lemma_found_behind_file(objects, e.oid, names.drop_first(), rest);
            }
        },
        _ => {},
    }
}

/// A path that goes on behind a directory leads where the rest of it leads
/// from that directory on.
pub proof fn lemma_found_below(
    objects: Map<Seq<u8>, Seq<u8>>,
    oid: Seq<u8>,
    names: Seq<Seq<u8>>,
    rest: Seq<Seq<u8>>,
)
    requires
        found(objects, oid, names) matches Ok(Some(t)) && tree_mode(t.0),
        rest.len() > 0,
    ensures
        match found(objects, oid, names) {
            Ok(Some(t)) => found(objects, oid, names + rest) == found(objects, t.1, rest),
            _ => false,
        },
    decreases names.len(),
{
    if names.len() == 0 {
        assert(names + rest =~= rest);
    } else {
        assert((names + rest)[0] == names[0]);
        assert((names + rest).drop_first() =~= names.drop_first() + rest);
        match first_named(tree_items(objects[oid]), names[0]) {
            Ok(Some(e)) => {
                if names.len() > 1 {
                    lemma_found_below(objects, e.oid, names.drop_first(), rest);
                } else {
                    assert(names.drop_first() + rest =~= rest);
                }
            },
            _ => {},
        }
    }
}

/// A path that leads somewhere has names that are UTF-8.
pub proof fn lemma_found_utf8(objects: Map<Seq<u8>, Seq<u8>>, oid: Seq<u8>, names: Seq<Seq<u8>>)
    requires
        found(objects, oid, names) matches Ok(Some(_)),
    ensures
        utf8_names(names),
    decreases names.len(),
{
    if names.len() > 0 {
        let rest = names.drop_first();
        match first_named(tree_items(objects[oid]), names[0]) {
            Ok(Some(e)) => {
                if names.len() > 1 {
                    lemma_found_utf8(objects, e.oid, rest);
                }
            },
            _ => {},
        }
        assert forall|i: int| 0 <= i < names.len() implies valid_utf8(#[trigger] names[i]) by {
            if i > 0 {
                assert(rest[i - 1] == names[i]);
            }
        }
    }
}

/// Below a path that leads to nothing there is nothing.
pub proof fn lemma_nothing_below(
    objects: Map<Seq<u8>, Seq<u8>>,
    oid: Seq<u8>,
    names: Seq<Seq<u8>>,
    longer: Seq<Seq<u8>>,
)
    requires
        found(objects, oid, names) == Ok::<Option<TargetModel>, ObjectError>(None),
        under(longer, names),
    ensures
        found(objects, oid, longer) == Ok::<Option<TargetModel>, ObjectError>(None),
    decreases names.len(),
{
    if names.len() > 0 {
        assert(longer.take(names.len() as int)[0] == longer[0]);
        match first_named(tree_items(objects[oid]), names[0]) {
            Ok(Some(e)) => {
                if names.len() > 1 && tree_mode(e.octal) {
                    let rest = longer.drop_first();
                    assert(rest.take(names.len() - 1) =~= longer.take(
                        names.len() as int,
                    ).drop_first());
                    lemma_nothing_below(objects, e.oid, names.drop_first(), rest);
                }
            },
            _ => {},
        }
    }
}

// ---------------------------------------------------------------------------
// Reachable trees
// ---------------------------------------------------------------------------

/// Whether `e` is an entry of the tree `oid`.
pub open spec fn entry_of(objects: Map<Seq<u8>, Seq<u8>>, oid: Seq<u8>, e: EntryModel) -> bool {
    objects.contains_key(oid) && readable(tree_items(objects[oid])).contains(e)
}

/// Whether the tree `a` has the directory `b`.
pub open spec fn child_tree(objects: Map<Seq<u8>, Seq<u8>>, a: Seq<u8>, b: Seq<u8>) -> bool {
    exists|e: EntryModel| #[trigger] entry_of(objects, a, e) && tree_mode(e.octal) && e.oid == b
}

/// A chain of trees from `root` to `oid`, each a directory of the one before.
pub open spec fn tree_chain(
    objects: Map<Seq<u8>, Seq<u8>>,
    root: Seq<u8>,
    oid: Seq<u8>,
    chain: Seq<Seq<u8>>,
) -> bool {
    &&& chain.len() > 0
    &&& chain[0] == root
    &&& chain.last() == oid
    &&& forall|i: int|
        0 <= i < chain.len() - 1 ==> child_tree(objects, #[trigger] chain[i], chain[i + 1])
}

/// The tree `oid` is `root`, or a directory somewhere below it.
pub open spec fn tree_reached(objects: Map<Seq<u8>, Seq<u8>>, root: Seq<u8>, oid: Seq<u8>) -> bool {
    exists|chain: Seq<Seq<u8>>| tree_chain(objects, root, oid, chain)
}

/// The object `oid` is a tree that is reached, or an entry of one.
pub open spec fn object_reached(
    objects: Map<Seq<u8>, Seq<u8>>,
    root: Seq<u8>,
    oid: Seq<u8>,
) -> bool {
    tree_reached(objects, root, oid) || exists|t: Seq<u8>, e: EntryModel|
        tree_reached(objects, root, t) && #[trigger] entry_of(objects, t, e) && e.oid == oid
}

/// A directory of a tree that is reached is reached.
pub proof fn lemma_reached_child(objects: Map<Seq<u8>, Seq<u8>>, root: Seq<u8>, a: Seq<u8>, b: Seq<u8>)
    requires
        tree_reached(objects, root, a),
        child_tree(objects, a, b),
    ensures
        tree_reached(objects, root, b),
{
    let chain = choose|chain: Seq<Seq<u8>>| tree_chain(objects, root, a, chain);
    let longer = chain.push(b);
    assert forall|i: int| 0 <= i < longer.len() - 1 implies child_tree(
        objects,
        #[trigger] longer[i],
        longer[i + 1],
    ) by {
        assert(longer[i] == chain[i]);
        if i < chain.len() - 1 {
            assert(longer[i + 1] == chain[i + 1]);
        }
    }
    assert(tree_chain(objects, root, b, longer));
}

proof fn lemma_closed_holds_reached(
    objects: Map<Seq<u8>, Seq<u8>>,
    root: Seq<u8>,
    visited: Set<Seq<u8>>,
    oid: Seq<u8>,
    chain: Seq<Seq<u8>>,
)
    requires
        visited.contains(root),
        forall|a: Seq<u8>, b: Seq<u8>|
            visited.contains(a) && #[trigger] child_tree(objects, a, b) ==> visited.contains(b),
        tree_chain(objects, root, oid, chain),
    ensures
        visited.contains(oid),
    decreases chain.len(),
{
    if chain.len() > 1 {
        let shorter = chain.drop_last();
        let n = chain.len() as int;
        assert(tree_chain(objects, root, shorter.last(), shorter)) by {
            assert forall|i: int| 0 <= i < shorter.len() - 1 implies child_tree(
                objects,
                #[trigger] shorter[i],
                shorter[i + 1],
            ) by {
                assert(shorter[i] == chain[i] && shorter[i + 1] == chain[i + 1]);
            }
        }
        lemma_closed_holds_reached(objects, root, visited, shorter.last(), shorter);
        assert(child_tree(objects, chain[n - 2], chain[n - 2 + 1]));
    }
}

spec fn waiting(work: Seq<ObjectId>, oid: Seq<u8>) -> bool {
    exists|i: int| 0 <= i < work.len() && (#[trigger] work[i])@ == oid
}

/// Walks the trees that are reached from `root`: their ids, and the ids of
/// those trees and of all their entries.
fn walk_trees(objects: &ObjectMap, root: &ObjectId) -> (r: (OidSet, OidSet))
    ensures
        forall|oid: Seq<u8>| #[trigger]
            r.0@.contains(oid) <==> tree_reached(objects@, root@, oid),
        forall|oid: Seq<u8>| #[trigger]
            r.1@.contains(oid) <==> object_reached(objects@, root@, oid),
{
    let mut visited = OidSet::new();
    let mut all = OidSet::new();
    let mut work: Vec<ObjectId> = Vec::new();
    work.push(*root);
    all.insert(root);
    objects.finite();
    proof {
        assert(tree_chain(objects@, root@, root@, seq![root@]));
        assert(waiting(work@, root@)) by {
            assert(work@[0]@ == root@);
        }
    }
    while work.len() > 0
        invariant
            objects@.dom().finite(),
            visited@.contains(root@) || waiting(work@, root@),
            forall|i: int|
                0 <= i < work@.len() ==> tree_reached(objects@, root@, (#[trigger] work@[i])@)
                    && all@.contains(work@[i]@),
            forall|oid: Seq<u8>| #[trigger]
                visited@.contains(oid) ==> tree_reached(objects@, root@, oid) && all@.contains(oid),
            forall|oid: Seq<u8>| #[trigger]
                all@.contains(oid) ==> object_reached(objects@, root@, oid),
            forall|a: Seq<u8>, b: Seq<u8>|
                visited@.contains(a) && #[trigger] child_tree(objects@, a, b) ==> visited@.contains(
                    b,
                ) || waiting(work@, b),
            forall|a: Seq<u8>, e: EntryModel|
                visited@.contains(a) && #[trigger] entry_of(objects@, a, e) ==> all@.contains(
                    e.oid,
                ),
        decreases objects@.dom().difference(visited@).len(), work@.len(),
    {
        let ghost work0 = work@;
        let ghost visited0 = visited@;
        let ghost all0 = all@;
        let n: usize = work.len();
        let oid: ObjectId = work[n - 1];
        work.pop();
        assert(work@ =~= work0.drop_last());
        assert forall|b: Seq<u8>| #[trigger] waiting(work0, b) implies waiting(work@, b) || b
            == oid@ by {
            let k = choose|k: int| 0 <= k < work0.len() && (#[trigger] work0[k])@ == b;
            if k < n - 1 {
                assert(work@[k]@ == b);
            }
        }
        assert(tree_reached(objects@, root@, work0[n - 1]@));
        if visited.insert(&oid) {
            if let Some(data) = objects.get(&oid) {
                let entries = read_entries(data.as_slice());
                let ghost es = models(entries@);
                proof {
                    lemma_unseen_shrinks(objects@.dom(), visited0, oid@);
                }
                let mut i: usize = 0;
                while i < entries.len()
                    invariant
                        i <= entries@.len(),
                        es == models(entries@),
                        visited@ == visited0.insert(oid@),
                        objects@.contains_key(oid@),
                        es == readable(tree_items(objects@[oid@])),
                        tree_reached(objects@, root@, oid@),
                        forall|k: int|
                            0 <= k < work@.len() ==> tree_reached(
                                objects@,
                                root@,
                                (#[trigger] work@[k])@,
                            ) && all@.contains(work@[k]@),
                        forall|x: Seq<u8>| #[trigger]
                            all@.contains(x) ==> object_reached(objects@, root@, x),
                        forall|x: Seq<u8>| #[trigger] all0.contains(x) ==> all@.contains(x),
                        forall|b: Seq<u8>| #[trigger]
                            waiting(work0, b) ==> waiting(work@, b) || b == oid@,
                        forall|k: int|
                            0 <= k < i ==> all@.contains((#[trigger] es[k]).oid) && (tree_mode(
                                es[k].octal,
                            ) ==> waiting(work@, es[k].oid)),
                    decreases entries@.len() - i,
                {
                    let e = &entries[i];
                    let ghost work1 = work@;
                    let ghost all1 = all@;
                    let ghost model = es[i as int];
                    all.insert(&e.oid);
                    proof {
                        assert(es.contains(model));
                        assert(entry_of(objects@, oid@, model));
                    }
                    if e.mode.is_tree() {
                        work.push(e.oid);
                        proof {
                            assert(child_tree(objects@, oid@, model.oid));
                            lemma_reached_child(objects@, root@, oid@, model.oid);
                            assert(work@[work1.len() as int]@ == model.oid);
                        }
                    }
                    proof {
                        assert forall|b: Seq<u8>| #[trigger] waiting(work1, b) implies waiting(
                            work@,
                            b,
                        ) by {
                            let k = choose|k: int|
                                0 <= k < work1.len() && (#[trigger] work1[k])@ == b;
                            assert(work@[k]@ == b);
                        }
                        assert forall|k: int| 0 <= k < work@.len() implies tree_reached(
                            objects@,
                            root@,
                            (#[trigger] work@[k])@,
                        ) && all@.contains(work@[k]@) by {
                            if k < work1.len() {
                                assert(work1[k] == work@[k]);
                            }
                        }
                        assert forall|x: Seq<u8>| #[trigger] all@.contains(x) implies object_reached(
                            objects@,
                            root@,
                            x,
                        ) by {
                            if !all1.contains(x) {
                                assert(x == model.oid);
                            }
                        }
                        assert forall|k: int| 0 <= k < i + 1 implies all@.contains(
                            (#[trigger] es[k]).oid,
                        ) && (tree_mode(es[k].octal) ==> waiting(work@, es[k].oid)) by {
                            if k < i {
                                assert(all1.contains(es[k].oid));
                            }
                        }
                    }
                    i += 1;
                }
                proof {
                    assert forall|a: Seq<u8>, b: Seq<u8>|
                        visited@.contains(a) && #[trigger] child_tree(objects@, a, b) implies
                        visited@.contains(b) || waiting(work@, b) by {
                        let e = choose|e: EntryModel| #[trigger]
                            entry_of(objects@, a, e) && tree_mode(e.octal) && e.oid == b;
                        if a == oid@ {
                            let k = choose|k: int| 0 <= k < es.len() && es[k] == e;
                            assert(waiting(work@, es[k].oid));
                        } else {
                            assert(visited0.contains(a));
                            assert(visited0.contains(b) || waiting(work0, b));
                        }
                    }
                    assert forall|a: Seq<u8>, e: EntryModel|
                        visited@.contains(a) && #[trigger] entry_of(objects@, a, e) implies
                        all@.contains(e.oid) by {
                        if a == oid@ {
                            let k = choose|k: int| 0 <= k < es.len() && es[k] == e;
                            assert(all@.contains(es[k].oid));
                        } else {
                            assert(visited0.contains(a));
                            assert(all0.contains(e.oid));
                        }
                    }
                }
            } else {
                proof {
                    lemma_unseen_stays(objects@.dom(), visited0, oid@);
                    assert forall|a: Seq<u8>, b: Seq<u8>|
                        visited@.contains(a) && #[trigger] child_tree(objects@, a, b) implies
                        visited@.contains(b) || waiting(work@, b) by {
                        assert(visited0.contains(a));
                        assert(visited0.contains(b) || waiting(work0, b));
                    }
                }
            }
        } else {
            proof {
                assert(visited@ =~= visited0);
            }
        }
    }
    proof {
        assert(forall|b: Seq<u8>| !waiting(work@, b));
        assert forall|oid: Seq<u8>| #[trigger] visited@.contains(oid) <==> tree_reached(
            objects@,
            root@,
            oid,
        ) by {
            if tree_reached(objects@, root@, oid) {
                let chain = choose|chain: Seq<Seq<u8>>| tree_chain(objects@, root@, oid, chain);
                lemma_closed_holds_reached(objects@, root@, visited@, oid, chain);
            }
        }
        assert forall|oid: Seq<u8>| #[trigger] all@.contains(oid) <==> object_reached(
            objects@,
            root@,
            oid,
        ) by {
            if object_reached(objects@, root@, oid) && !tree_reached(objects@, root@, oid) {
                let (t, e) = choose|t: Seq<u8>, e: EntryModel|
                    tree_reached(objects@, root@, t) && #[trigger] entry_of(objects@, t, e)
                        && e.oid == oid;
                assert(visited@.contains(t));
            } else if tree_reached(objects@, root@, oid) {
                assert(visited@.contains(oid));
            }
        }
    }
    (visited, all)
}

/// One id fewer is unseen once it has been seen.
pub proof fn lemma_unseen_shrinks(all: Set<Seq<u8>>, seen: Set<Seq<u8>>, oid: Seq<u8>)
    requires
        all.finite(),
        all.contains(oid),
        !seen.contains(oid),
    ensures
        all.difference(seen.insert(oid)).len() < all.difference(seen).len(),
{
    assert(all.difference(seen.insert(oid)) =~= all.difference(seen).remove(oid));
    assert(all.difference(seen).finite());
}

proof fn lemma_unseen_stays(all: Set<Seq<u8>>, seen: Set<Seq<u8>>, oid: Seq<u8>)
    requires
        !all.contains(oid),
    ensures
        all.difference(seen.insert(oid)) == all.difference(seen),
{
    assert(all.difference(seen.insert(oid)) =~= all.difference(seen));
}

/// The ids of the tree `tree_oid` and of all directories below it.
pub fn collect_tree_oids(objects: &ObjectMap, tree_oid: &ObjectId) -> (r: OidSet)
    ensures
        forall|oid: Seq<u8>| #[trigger]
            r@.contains(oid) <==> tree_reached(objects@, tree_oid@, oid),
{
    walk_trees(objects, tree_oid).0
}

/// The ids of the tree `tree_oid`, of all directories below it, and of
/// everything in them.
pub fn collect_all_oids(objects: &ObjectMap, tree_oid: &ObjectId) -> (r: OidSet)
    ensures
        forall|oid: Seq<u8>| #[trigger]
            r@.contains(oid) <==> object_reached(objects@, tree_oid@, oid),
{
    walk_trees(objects, tree_oid).1
}

// ---------------------------------------------------------------------------
// Tree walking
// ---------------------------------------------------------------------------

/// What a walk has met: the ids of files under their paths, and the contents
/// of those that are at hand.
#[verifier::ext_equal]
pub struct WalkModel {
    pub index: Slots<Seq<u8>>,
    pub contents: Slots<Seq<u8>>,
}

impl WalkModel {
    /// With the file at `path`, which leads to `oid`.
    pub open spec fn with_file(
        self,
        objects: Map<Seq<u8>, Seq<u8>>,
        path: Seq<u8>,
        oid: Seq<u8>,
    ) -> WalkModel {
        WalkModel {
            index: put(self.index, components_of(path), oid),
            contents: if objects.contains_key(oid) {
                put(self.contents, components_of(path), objects[oid])
            } else {
                self.contents
            },
        }
    }
}

/// What a walk of the tree `oid`, which stands at the path `base` and below
/// the trees `above`, adds to what was met before.
pub open spec fn walked(
    objects: Map<Seq<u8>, Seq<u8>>,
    oid: Seq<u8>,
    base: Seq<u8>,
    above: Set<Seq<u8>>,
    out: WalkModel,
) -> Result<WalkModel, ObjectError>
    decreases objects.dom().difference(above).len(), 0nat,
        when objects.dom().finite()
{
    if !objects.contains_key(oid) {
        Err(ObjectError::MissingTree)
    } else if above.contains(oid) {
        Err(ObjectError::Cycle)
    } else {
        proof {
            lemma_unseen_shrinks(objects.dom(), above, oid);
        }
        walked_items(objects, tree_items(objects[oid]), base, above.insert(oid), out)
    }
}

/// What a walk of the items of a tree adds, one after the other.
pub open spec fn walked_items(
    objects: Map<Seq<u8>, Seq<u8>>,
    items: Seq<Option<EntryModel>>,
    base: Seq<u8>,
    above: Set<Seq<u8>>,
    out: WalkModel,
) -> Result<WalkModel, ObjectError>
    decreases objects.dom().difference(above).len(), items.len(),
        when objects.dom().finite()
{
    if items.len() == 0 {
        Ok(out)
    } else {
        match items[0] {
            None => Err(ObjectError::BadTree),
            Some(e) => if !valid_utf8(e.name) {
                Err(ObjectError::NotUtf8)
            } else if tree_mode(e.octal) {
                match walked(objects, e.oid, joined(base, e.name), above, out) {
                    Ok(next) => walked_items(objects, items.drop_first(), base, above, next),
                    Err(x) => Err(x),
                }
            } else {
                walked_items(
                    objects,
                    items.drop_first(),
                    base,
                    above,
                    out.with_file(objects, joined(base, e.name), e.oid),
                )
            },
        }
    }
}

/// Nothing met yet.
pub open spec fn walk_start() -> WalkModel {
    WalkModel { index: Seq::empty(), contents: Seq::empty() }
}

spec fn id_set(ids: Seq<ObjectId>) -> Set<Seq<u8>> {
    Set::new(|oid: Seq<u8>| waiting(ids, oid))
}

struct Walk {
    index: PathMap<ObjectId>,
    contents: FileMap,
}

impl View for Walk {
    type V = WalkModel;

    closed spec fn view(&self) -> WalkModel {
        WalkModel { index: self.index@, contents: self.contents@ }
    }
}

fn holds_id(ids: &Vec<ObjectId>, oid: &ObjectId) -> (r: bool)
    ensures
        r == id_set(ids@).contains(oid@),
{
    let mut i: usize = 0;
    while i < ids.len()
        invariant
            i <= ids@.len(),
            forall|k: int| 0 <= k < i ==> (#[trigger] ids@[k])@ != oid@,
        decreases ids@.len() - i,
    {
        if ids[i].same(oid) {
            return true;
        }
        i += 1;
    }
    false
}

fn with_id(ids: &Vec<ObjectId>, oid: &ObjectId) -> (r: Vec<ObjectId>)
    ensures
        id_set(r@) == id_set(ids@).insert(oid@),
{
    let mut r: Vec<ObjectId> = Vec::new();
    let mut i: usize = 0;
    while i < ids.len()
        invariant
            i <= ids@.len(),
            r@ == ids@.take(i as int),
        decreases ids@.len() - i,
    {
        r.push(ids[i]);
        i += 1;
        assert(ids@.take(i as int) =~= ids@.take(i - 1).push(ids@[i - 1]));
    }
    r.push(*oid);
    proof {
        assert(r@ =~= ids@.push(*oid));
        assert forall|x: Seq<u8>| waiting(r@, x) <==> waiting(ids@, x) || x == oid@ by {
            if waiting(ids@, x) {
                let k = choose|k: int| 0 <= k < ids@.len() && (#[trigger] ids@[k])@ == x;
                assert(r@[k]@ == x);
            }
            if x == oid@ {
                assert(r@[ids@.len() as int]@ == x);
            }
        }
        assert(id_set(r@) =~= id_set(ids@).insert(oid@));
    }
    r
}

fn walk_rec(
    objects: &ObjectMap,
    tree_oid: &ObjectId,
    base: &RepoPath,
    above: &Vec<ObjectId>,
    out: &mut Walk,
) -> (r: Result<(), ObjectError>)
    requires
        objects@.dom().finite(),
    ensures
        match r {
            Ok(_) => walked(objects@, tree_oid@, base@, id_set(above@), old(out)@) == Ok::<
                WalkModel,
                ObjectError,
            >(final(out)@),
            Err(e) => walked(objects@, tree_oid@, base@, id_set(above@), old(out)@) == Err::<
                WalkModel,
                ObjectError,
            >(e),
        },
    decreases objects@.dom().difference(id_set(above@)).len(),
{
    let items = match objects.get(tree_oid) {
        Some(data) => decode_tree(data.as_slice()),
        None => {
            return Err(ObjectError::MissingTree);
        },
    };
    if holds_id(above, tree_oid) {
        return Err(ObjectError::Cycle);
    }
    let here = with_id(above, tree_oid);
    proof {
        lemma_unseen_shrinks(objects@.dom(), id_set(above@), tree_oid@);
    }
    let ghost all = item_models(items@);
    let ghost result = walked(objects@, tree_oid@, base@, id_set(above@), old(out)@);
    let mut i: usize = 0;
    assert(all.skip(0) =~= all);
    while i < items.len()
        invariant
            i <= items@.len(),
            all == item_models(items@),
            objects@.dom().finite(),
            objects@.dom().difference(id_set(here@)).len() < objects@.dom().difference(
                id_set(above@),
            ).len(),
            result == walked_items(objects@, all.skip(i as int), base@, id_set(here@), out@),
            result == walked(objects@, tree_oid@, base@, id_set(above@), old(out)@),
        decreases items@.len() - i,
    {
        assert(all.skip(i as int)[0] == all[i as int]);
        assert(all.skip(i as int).drop_first() =~= all.skip(i + 1));
        match &items[i] {
            None => {
                return Err(ObjectError::BadTree);
            },
            Some(e) => {
                if !is_utf8(e.filename.as_slice()) {
                    return Err(ObjectError::NotUtf8);
                }
                let path = base.join(e.filename.as_slice());
                if e.mode.is_tree() {
                    match walk_rec(objects, &e.oid, &path, &here, out) {
                        Ok(_) => {},
                        Err(x) => {
                            return Err(x);
                        },
                    }
                } else {
                    let key = path.components();
                    out.index.insert(&key, e.oid);
                    if let Some(data) = objects.get(&e.oid) {
                        out.contents.insert(&key, copy_bytes(data.as_slice()));
                    }
                }
            },
        }
        i += 1;
    }
    Ok(())
}

/// Walks a tree: the ids of its files under their paths, and their contents.
pub fn build_index_and_contents(objects: &ObjectMap, tree_oid: &ObjectId) -> (r: Result<
    (PathMap<ObjectId>, FileMap),
    ObjectError,
>)
    ensures
        match r {
            Ok((index, contents)) => walked(
                objects@,
                tree_oid@,
                Seq::empty(),
                Set::empty(),
                walk_start(),
            ) == Ok::<WalkModel, ObjectError>(
                (WalkModel { index: index@, contents: contents@ }),
            ),
            Err(e) => walked(objects@, tree_oid@, Seq::empty(), Set::empty(), walk_start()) == Err::<
                WalkModel,
                ObjectError,
            >(e),
        },
        objects@.dom().finite(),
{
    objects.finite();
    let none: Vec<ObjectId> = Vec::new();
    let base = RepoPath::from_bytes("".as_bytes());
    let mut out = Walk { index: PathMap::new(), contents: PathMap::new() };
    proof {
        reveal_strlit("");
        vstd::utf8::is_ascii_chars_encode_utf8(""@);
        assert(base@ =~= Seq::empty());
        assert(id_set(none@) =~= Set::empty());
        assert(out@ =~= walk_start());
    }
    match walk_rec(objects, tree_oid, &base, &none, &mut out) {
        Ok(_) => Ok((out.index, out.contents)),
        Err(e) => Err(e),
    }
}

// ---------------------------------------------------------------------------
// Commit building
// ---------------------------------------------------------------------------

proof fn lemma_hex_unique(a: Seq<u8>, b: Seq<u8>)
    requires
        hex_of(a) == hex_of(b),
    ensures
        a == b,
{
    assert(hex_of(a).len() == 2 * a.len());
    assert(hex_of(b).len() == 2 * b.len());
    assert forall|i: int| 0 <= i < a.len() implies a[i] == b[i] by {
        assert(hex_of(a)[2 * i] == hex_digit(a[i] as int / 16));
        assert(hex_of(b)[2 * i] == hex_digit(b[i] as int / 16));
        assert(hex_of(a)[2 * i + 1] == hex_digit(a[i] as int % 16));
        assert(hex_of(b)[2 * i + 1] == hex_digit(b[i] as int % 16));
    }
    assert(a =~= b);
}

proof fn lemma_tree_line(c: CommitModel)
    requires
        c.plain(),
    ensures
        ({
            let n = text("tree ").len() as int;
            &&& n + 40 <= c.bytes().len()
            &&& c.bytes().subrange(n, n + 40) == hex_of(c.tree)
        }),
{
    let n = text("tree ").len() as int;
    let digits = hex_of(c.tree);
    let rest = c.bytes().skip(n + 40);
    assert(digits.len() == 40);
    assert(c.bytes() =~= text("tree ") + digits + rest);
    assert((text("tree ") + digits + rest).subrange(n, n + 40) =~= digits);
}

/// A plain commit names its tree.
pub proof fn lemma_commit_tree(c: CommitModel)
    requires
        c.plain(),
    ensures
        commit_tree(c.bytes()) == Some(c.tree),
{
    let data = c.bytes();
    let got = choose|x: CommitModel| x.plain() && #[trigger] x.bytes() == data;
    lemma_tree_line(c);
    lemma_tree_line(got);
    lemma_hex_unique(c.tree, got.tree);
}

/// The commit of a tree at a given time, in seconds.
pub fn build_commit_at(
    tree_oid: &ObjectId,
    parent_oid: Option<&ObjectId>,
    author_name: &str,
    author_email: &str,
    message: &str,
    seconds: i64,
) -> (r: Vec<u8>)
    requires
        plain_token(text(author_name)),
        plain_token(text(author_email)),
    ensures
        r@ == commit_text(
            tree_oid@,
            oid_model(parent_oid),
            text(author_name),
            text(author_email),
            seconds as int,
            text(message),
        ),
        commit_tree(r@) == Some(tree_oid@),
{
    proof {
        lemma_commit_tree(
            CommitModel {
                tree: tree_oid@,
                parent: oid_model(parent_oid),
                name: text(author_name),
                email: text(author_email),
                seconds: seconds as int,
                message: text(message),
            },
        );
    }
    match write_commit(tree_oid, parent_oid, author_name, author_email, seconds, message) {
        Some(data) => data,
        None => Vec::new(),
    }
}

/// The time now, as a commit has it: in seconds. Nothing is promised of it.
pub fn commit_time() -> (r: i64) {
    commit_seconds(clock().0)
}

/// What a commit has for a time in whole seconds: the same number, or, where
/// that does not fit, the one that has its bits.
pub open spec fn signed_seconds(seconds: u64) -> int {
    if seconds <= i64::MAX {
        seconds as int
    } else {
        seconds - 0x1_0000_0000_0000_0000
    }
}

/// A time in whole seconds, as a commit has it.
pub fn commit_seconds(seconds: u64) -> (r: i64)
    ensures
        r == signed_seconds(seconds),
{
    assert(seconds <= 0x7fff_ffff_ffff_ffff ==> (seconds as i64) == seconds) by (bit_vector);
    assert(seconds > 0x7fff_ffff_ffff_ffff ==> (seconds as i64) == seconds
        - 0x1_0000_0000_0000_0000) by (bit_vector);
    #[verifier::truncate]
    (seconds as i64)
}

/// The commit of a tree, made now.
pub fn build_commit(
    tree_oid: &ObjectId,
    parent_oid: Option<&ObjectId>,
    author_name: &str,
    author_email: &str,
    message: &str,
) -> (r: Vec<u8>)
    requires
        plain_token(text(author_name)),
        plain_token(text(author_email)),
    ensures
        exists|seconds: i64|
            r@ == #[trigger] commit_text(
                tree_oid@,
                oid_model(parent_oid),
                text(author_name),
                text(author_email),
                seconds as int,
                text(message),
            ),
        commit_tree(r@) == Some(tree_oid@),
{
    build_commit_at(tree_oid, parent_oid, author_name, author_email, message, commit_time())
}

} // verus!
