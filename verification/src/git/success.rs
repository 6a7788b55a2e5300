//! When a change at a path succeeds.

use vstd::prelude::*;
use vstd::utf8::valid_utf8;

use crate::bytes::{lemma_position, position};
use crate::git::entry::{
    EntryModel, clash, clash_free, goes_on, in_tree_order, lemma_own_modes, regular_entries,
    regular_entry, tree_mode,
};
use crate::git::lists::{
    ObjectError, TargetModel, distinct_names, first_named, holds_name, last_named,
    lemma_first_named_present, lemma_last_named_pick, lemma_pick, lemma_readable_present,
    lemma_redirected, lemma_sorted, lemma_tree_items, lemma_updated, pick, readable, redirected,
    rewritten, sound_items, updated,
};
use crate::git::objects::{
    apart, carries, change_holds, change_lasts, change_sound, copied_entry, empty_directory, found,
    has_all, held_in, lemma_apart_below, lemma_change_lasts, lemma_found_sound, lemma_found_utf8,
    lemma_has_all_front, lemma_last_named_pushed, lemma_lowest_level, lemma_nothing_below,
    lemma_upper_level, modified, no_collision, path_reads_back, reads_back, sound_path,
    sound_target, stored, utf8_names, with_directory,
};
use crate::git::packfile::{OBJ_TREE, object_id};
use crate::outside::{present, tree_items};
use crate::path::under;

verus! {

/// No name holds a NUL.
pub open spec fn clear_path(names: Seq<Seq<u8>>) -> bool {
    forall|i: int| 0 <= i < names.len() ==> position(#[trigger] names[i], 0) is None
}

/// No entries clash in the trees that the change writes.
pub open spec fn orderly(
    objects: Map<Seq<u8>, Seq<u8>>,
    oid: Seq<u8>,
    names: Seq<Seq<u8>>,
    target: Option<TargetModel>,
) -> bool
    decreases names.len(),
{
    let es = readable(tree_items(objects[oid]));
    if names.len() == 0 {
        true
    } else if names.len() == 1 {
        clash_free(updated(es, names[0], target))
    } else {
        &&& clash_free(with_directory(objects, es, names[0]).1)
        &&& match first_named(tree_items(objects[oid]), names[0]) {
            Ok(Some(e)) => orderly(objects, e.oid, names.drop_first(), target),
            _ => true,
        }
    }
}

/// All written objects are trees.
pub open spec fn only_trees(list: Seq<(u8, Seq<u8>)>) -> bool {
    forall|i: int| 0 <= i < list.len() ==> (#[trigger] list[i]).0 == OBJ_TREE
}

/// Leading elsewhere makes no entries clash.
proof fn lemma_redirected_clash_free(es: Seq<EntryModel>, name: Seq<u8>, oid: Seq<u8>)
    requires
        clash_free(es),
    ensures
        clash_free(redirected(es, name, oid)),
{
    let r = redirected(es, name, oid);
    assert forall|i: int, j: int, k: int|
        0 <= i < r.len() && 0 <= j < r.len() && 0 <= k < r.len() implies !#[trigger] clash(
        r[i],
        r[j],
        r[k],
    ) by {
        assert(!clash(es[i], es[j], es[k]));
    }
}

/// Sound entries that do not clash can be stored, and read back.
proof fn lemma_stores(objects: Map<Seq<u8>, Seq<u8>>, es: Seq<EntryModel>)
    requires
        regular_entries(es),
        distinct_names(es),
        clash_free(es),
    ensures
        stored(objects, es).1 is Ok,
        reads_back(in_tree_order(es)),
{
    lemma_sorted(es);
    let so = in_tree_order(es);
    lemma_tree_items(so);
    assert forall|i: int| 0 <= i < so.len() implies position((#[trigger] so[i]).name, 0) is None by {
        assert(regular_entry(so[i]));
    }
}

/// In an empty tree nothing clashes.
proof fn lemma_orderly_empty(
    objects: Map<Seq<u8>, Seq<u8>>,
    oid: Seq<u8>,
    names: Seq<Seq<u8>>,
    target: Option<TargetModel>,
)
    requires
        tree_items(objects[oid]).len() == 0,
    ensures
        orderly(objects, oid, names, target),
{
    if names.len() > 0 {
        let es = readable(tree_items(objects[oid]));
        let all = if names.len() == 1 {
            updated(es, names[0], target)
        } else {
            with_directory(objects, es, names[0]).1
        };
        assert(es.len() == 0);
        assert(all.len() <= 1);
        assert forall|i: int, j: int, k: int|
            0 <= i < all.len() && 0 <= j < all.len() && 0 <= k < all.len() implies !#[trigger] clash(
            all[i],
            all[j],
            all[k],
        ) by {
            assert(all[i] == all[j]);
        }
    }
}

/// A change at a path through sound trees: it succeeds, but for a removal
/// where nothing is found, which changes nothing.
proof fn lemma_change_result(
    objects: Map<Seq<u8>, Seq<u8>>,
    oid: Seq<u8>,
    names: Seq<Seq<u8>>,
    target: Option<TargetModel>,
)
    requires
        change_sound(objects, oid, names, target),
        orderly(objects, oid, names, target),
        target is Some ==> names.len() > 0 && utf8_names(names) && clear_path(names),
    ensures
        ({
            let (after, r) = modified(objects, oid, names, target);
            &&& r is Ok <==> target is Some || (names.len() > 0 && (found(
                objects,
                oid,
                names,
            ) matches Ok(Some(_))))
            &&& r is Err ==> after == objects
            &&& r is Ok ==> path_reads_back(objects, oid, names, target) && only_trees(r->Ok_0.1)
                && r->Ok_0.0.len() == 20
        }),
    decreases names.len(),
{
    if names.len() > 0 && valid_utf8(names[0]) {
        let items = tree_items(objects[oid]);
        let es = readable(items);
        let name = names[0];
        lemma_readable_present(items);
        lemma_first_named_present(es, name);
        lemma_pick(es, name);
        lemma_last_named_pick(es, name);
        if names.len() == 1 {
            if target is Some || holds_name(es, name) {
                let u = updated(es, name, target);
                lemma_updated(es, name, target);
                lemma_stores(objects, u);
            }
        } else {
            let rest = names.drop_first();
            let (start, all) = with_directory(objects, es, name);
            let last = last_named(all, name)->0;
            if target is Some {
                assert forall|i: int| 0 <= i < rest.len() implies valid_utf8(#[trigger] rest[i])
                    && position(rest[i], 0) is None by {
                    assert(rest[i] == names[i + 1]);
                }
            }
            if holds_name(es, name) {
                lemma_change_result(objects, last, rest, target);
            } else if target is Some {
                lemma_pushed_directory(objects, es, name);
                lemma_orderly_empty(start, last, rest, target);
                lemma_change_result(start, last, rest, target);
            }
            if target is Some || holds_name(es, name) {
                let (below, child) = modified(start, last, rest, target);
                if child is Ok {
                    let child_oid = child->Ok_0.0;
                    lemma_redirected(all, name, child_oid);
                    lemma_redirected_clash_free(all, name, child_oid);
                    lemma_stores(below, redirected(all, name, child_oid));
                }
            }
        }
    }
}

/// What a directory that is made on the way is: empty, and sound among sound
/// entries.
proof fn lemma_pushed_directory(
    objects: Map<Seq<u8>, Seq<u8>>,
    es: Seq<EntryModel>,
    name: Seq<u8>,
)
    requires
        !holds_name(es, name),
        position(name, 0) is None,
        regular_entries(es),
        distinct_names(es),
    ensures
        ({
            let (start, all) = with_directory(objects, es, name);
            let last = last_named(all, name);
            &&& regular_entries(all)
            &&& distinct_names(all)
            &&& last == Some(object_id(OBJ_TREE, Seq::empty()))
            &&& start.contains_key(last->0)
            &&& tree_items(start[last->0]) == Seq::<Option<EntryModel>>::empty()
            &&& tree_items(Seq::empty()) == Seq::<Option<EntryModel>>::empty()
            &&& forall|names: Seq<Seq<u8>>| #[trigger] sound_path(start, last->0, names)
        }),
{
    let x = empty_directory(name);
    let (start, all) = with_directory(objects, es, name);
    lemma_own_modes();
    lemma_last_named_pushed(es, x);
    assert forall|i: int| 0 <= i < all.len() implies regular_entry(#[trigger] all[i]) by {
        if i < es.len() {
            assert(regular_entry(es[i]));
        }
    }
    assert forall|i: int, j: int| 0 <= i < j < all.len() implies (#[trigger] all[i]).name != (
    #[trigger] all[j]).name by {
        assert(es[i].name != name);
        if j < es.len() {
            assert(es[i].name != es[j].name);
        }
    }
    lemma_tree_items(Seq::empty());
    assert(present(Seq::<EntryModel>::empty()) =~= Seq::empty());
}

/// A change that went through: only trees were written, and in every map that
/// has them the change comes to what it should. Where no ids collide that is
/// so among the objects that the change leaves.
pub open spec fn goes_through(
    objects: Map<Seq<u8>, Seq<u8>>,
    oid: Seq<u8>,
    names: Seq<Seq<u8>>,
    target: Option<TargetModel>,
    outcome: (Map<Seq<u8>, Seq<u8>>, Result<(Seq<u8>, Seq<(u8, Seq<u8>)>), ObjectError>),
) -> bool {
    match outcome.1 {
        Ok((root, list)) => {
            &&& only_trees(list)
            &&& change_lasts(objects, oid, root, list, names, target)
            &&& no_collision(objects, list) ==> carries(objects, list, outcome.0) && change_holds(
                objects,
                oid,
                outcome.0,
                root,
                names,
                target,
            )
        },
        Err(_) => false,
    }
}

/// A change that gives a root, and whose trees read back, went through.
proof fn lemma_goes_through(
    objects: Map<Seq<u8>, Seq<u8>>,
    oid: Seq<u8>,
    names: Seq<Seq<u8>>,
    target: Option<TargetModel>,
)
    requires
        change_sound(objects, oid, names, target),
        modified(objects, oid, names, target).1 is Ok,
        path_reads_back(objects, oid, names, target),
        only_trees(modified(objects, oid, names, target).1->Ok_0.1),
    ensures
        goes_through(objects, oid, names, target, modified(objects, oid, names, target)),
{
    lemma_change_lasts(objects, oid, names, target);
    assert(held_in(objects, objects));
}

/// What a path leads through are directories.
pub proof fn lemma_found_above(
    objects: Map<Seq<u8>, Seq<u8>>,
    oid: Seq<u8>,
    names: Seq<Seq<u8>>,
    k: int,
)
    requires
        found(objects, oid, names) matches Ok(Some(_)),
        0 <= k < names.len(),
    ensures
        found(objects, oid, names.take(k)) matches Ok(Some(t)) && tree_mode(t.0),
    decreases k,
{
    lemma_own_modes();
    if k > 0 {
        match first_named(tree_items(objects[oid]), names[0]) {
            Ok(Some(e)) => {
                if k > 1 {
                    lemma_found_above(objects, e.oid, names.drop_first(), k - 1);
                    assert(names.take(k).drop_first() =~= names.drop_first().take(k - 1));
                }
            },
            _ => {},
        }
    }
}

/// Putting an entry at a path through sound trees succeeds, and makes the
/// directories that are missing on the way: the path leads to the target, what
/// it leads through are directories, and all else stays. The names are UTF-8
/// without NUL, and no entries clash in the trees that are written.
pub proof fn lemma_insertion_succeeds(
    objects: Map<Seq<u8>, Seq<u8>>,
    oid: Seq<u8>,
    names: Seq<Seq<u8>>,
    target: TargetModel,
)
    requires
        names.len() > 0,
        utf8_names(names),
        clear_path(names),
        change_sound(objects, oid, names, Some(target)),
        orderly(objects, oid, names, Some(target)),
    ensures
        goes_through(
            objects,
            oid,
            names,
            Some(target),
            modified(objects, oid, names, Some(target)),
        ),
        ({
            let (after, r) = modified(objects, oid, names, Some(target));
            no_collision(objects, r->Ok_0.1) ==> forall|k: int|
                0 <= k < names.len() ==> (#[trigger] found(
                    after,
                    r->Ok_0.0,
                    names.take(k),
                ) matches Ok(Some(t)) && tree_mode(t.0))
        }),
{
    lemma_change_result(objects, oid, names, Some(target));
    lemma_goes_through(objects, oid, names, Some(target));
    let (after, r) = modified(objects, oid, names, Some(target));
    if no_collision(objects, r->Ok_0.1) {
        assert forall|k: int| 0 <= k < names.len() implies (#[trigger] found(
            after,
            r->Ok_0.0,
            names.take(k),
        ) matches Ok(Some(t)) && tree_mode(t.0)) by {
            lemma_found_above(after, r->Ok_0.0, names, k);
        }
    }
}

/// Taking out the entry at a path through sound trees fails only where the
/// path is empty or leads to nothing, and changes nothing where it fails. What
/// is taken out is gone, with all below it, and all else stays. No entries
/// clash in the trees that are written.
pub proof fn lemma_removal_succeeds(
    objects: Map<Seq<u8>, Seq<u8>>,
    oid: Seq<u8>,
    names: Seq<Seq<u8>>,
)
    requires
        sound_path(objects, oid, names),
        orderly(objects, oid, names, None),
    ensures
        ({
            let (after, r) = modified(objects, oid, names, None);
            if names.len() > 0 && (found(objects, oid, names) matches Ok(Some(_))) {
                &&& goes_through(objects, oid, names, None, (after, r))
                &&& no_collision(objects, r->Ok_0.1) ==> forall|below: Seq<Seq<u8>>|
                    under(below, names) ==> #[trigger] found(after, r->Ok_0.0, below) == Ok::<
                        Option<TargetModel>,
                        ObjectError,
                    >(None)
            } else {
                r is Err && after == objects
            }
        }),
{
    lemma_change_result(objects, oid, names, None);
    let (after, r) = modified(objects, oid, names, None);
    if r is Ok {
        lemma_goes_through(objects, oid, names, None);
        if no_collision(objects, r->Ok_0.1) {
            assert forall|below: Seq<Seq<u8>>| under(below, names) implies #[trigger] found(
                after,
                r->Ok_0.0,
                below,
            ) == Ok::<Option<TargetModel>, ObjectError>(None) by {
                lemma_nothing_below(after, r->Ok_0.0, names, below);
            }
        }
    }
}

/// Copying what a path leads to, a file or a whole directory, succeeds through
/// sound trees: the other path leads to it, and so does the first where the
/// two part ways. The names of the other path are UTF-8 without NUL, and no
/// entries clash in the trees that are written.
pub proof fn lemma_copy_succeeds(
    objects: Map<Seq<u8>, Seq<u8>>,
    oid: Seq<u8>,
    src: Seq<Seq<u8>>,
    dest: Seq<Seq<u8>>,
)
    requires
        oid.len() == 20,
        found(objects, oid, src) matches Ok(Some(_)),
        sound_path(objects, oid, src),
        dest.len() > 0,
        utf8_names(dest),
        clear_path(dest),
        sound_path(objects, oid, dest),
        orderly(objects, oid, dest, found(objects, oid, src)->Ok_0),
    ensures
        ({
            let target = found(objects, oid, src)->Ok_0;
            let (after, r) = copied_entry(objects, oid, src, dest);
            &&& goes_through(objects, oid, dest, target, (after, r))
            &&& no_collision(objects, r->Ok_0.1) && apart(dest, src) ==> found(
                after,
                r->Ok_0.0,
                src,
            ) == Ok::<Option<TargetModel>, ObjectError>(target)
        }),
{
    let target = found(objects, oid, src)->Ok_0;
    lemma_own_modes();
    if src.len() > 0 {
        lemma_found_sound(objects, oid, src);
    }
    lemma_found_utf8(objects, oid, src);
    lemma_insertion_succeeds(objects, oid, dest, target->0);
}

// ---------------------------------------------------------------------------
// Plain names
// ---------------------------------------------------------------------------

/// No entry has a name with a `/` in it.
pub open spec fn without_slashes(es: Seq<EntryModel>) -> bool {
    forall|i: int| 0 <= i < es.len() ==> position((#[trigger] es[i]).name, 47) is None
}

/// No name with a `/` in it stands in the trees that a path leads through, nor
/// in the path.
pub open spec fn plain_way(
    objects: Map<Seq<u8>, Seq<u8>>,
    oid: Seq<u8>,
    names: Seq<Seq<u8>>,
) -> bool
    decreases names.len(),
{
    names.len() > 0 ==> {
        &&& position(names[0], 47) is None
        &&& without_slashes(readable(tree_items(objects[oid])))
        &&& match first_named(tree_items(objects[oid]), names[0]) {
            Ok(Some(e)) => plain_way(objects, e.oid, names.drop_first()),
            _ => true,
        }
    }
}

proof fn lemma_clash_free_plain(es: Seq<EntryModel>)
    requires
        without_slashes(es),
    ensures
        clash_free(es),
{
    assert forall|i: int, j: int, k: int|
        0 <= i < es.len() && 0 <= j < es.len() && 0 <= k < es.len() implies !#[trigger] clash(
        es[i],
        es[j],
        es[k],
    ) by {
        let n = es[i].name.len() as int;
        if goes_on(es[i], es[j]) {
            assert(es[i].name.push(47)[n] == 47);
            assert(es[j].name.subrange(0, n + 1)[n] == es[j].name[n]);
            lemma_position(es[j].name, 47);
        }
    }
}

proof fn lemma_rewritten_plain(es: Seq<EntryModel>, name: Seq<u8>, target: Option<TargetModel>)
    requires
        without_slashes(es),
        position(name, 47) is None,
    ensures
        without_slashes(rewritten(es, name, target)),
    decreases es.len(),
{
    if es.len() > 0 {
        let front = es.drop_last();
        assert forall|i: int| 0 <= i < front.len() implies position(
            (#[trigger] front[i]).name,
            47,
        ) is None by {
            assert(front[i] == es[i]);
        }
        lemma_rewritten_plain(front, name, target);
        assert(position(es[es.len() - 1].name, 47) is None);
    }
}

/// Where no name holds a `/`, nothing clashes in the trees that a change
/// writes.
pub proof fn lemma_plain_way_is_orderly(
    objects: Map<Seq<u8>, Seq<u8>>,
    oid: Seq<u8>,
    names: Seq<Seq<u8>>,
    target: Option<TargetModel>,
)
    requires
        plain_way(objects, oid, names),
    ensures
        orderly(objects, oid, names, target),
    decreases names.len(),
{
    if names.len() > 0 {
        let es = readable(tree_items(objects[oid]));
        lemma_rewritten_plain(es, names[0], target);
        lemma_clash_free_plain(updated(es, names[0], target));
        lemma_clash_free_plain(with_directory(objects, es, names[0]).1);
        match first_named(tree_items(objects[oid]), names[0]) {
            Ok(Some(e)) => {
                if names.len() > 1 {
                    lemma_plain_way_is_orderly(objects, e.oid, names.drop_first(), target);
                }
            },
            _ => {},
        }
    }
}

// ---------------------------------------------------------------------------
// One change after the other
// ---------------------------------------------------------------------------

/// No name of a path holds a `/`.
pub open spec fn plain_names(names: Seq<Seq<u8>>) -> bool {
    forall|i: int| 0 <= i < names.len() ==> position(#[trigger] names[i], 47) is None
}

/// Where no name but one comes to lead elsewhere, no name with a `/` is added.
proof fn lemma_names_stay_plain(
    items: Seq<Option<EntryModel>>,
    now: Seq<Option<EntryModel>>,
    name: Seq<u8>,
)
    requires
        sound_items(items),
        sound_items(now),
        without_slashes(readable(items)),
        position(name, 47) is None,
        forall|other: Seq<u8>|
            other != name ==> #[trigger] first_named(now, other) == first_named(items, other),
    ensures
        without_slashes(readable(now)),
{
    let es = readable(items);
    let ns = readable(now);
    lemma_readable_present(items);
    lemma_readable_present(now);
    assert forall|i: int| 0 <= i < ns.len() implies position((#[trigger] ns[i]).name, 47) is None by {
        let n = ns[i].name;
        if n != name {
            lemma_first_named_present(ns, n);
            lemma_first_named_present(es, n);
            lemma_pick(ns, n);
            lemma_pick(es, n);
            assert(holds_name(ns, n));
            assert(first_named(now, n) == first_named(items, n));
            let e = pick(es, n)->0;
            let k = choose|k: int| 0 <= k < es.len() && es[k] == e;
            assert(position(es[k].name, 47) is None);
        }
    }
}

proof fn lemma_plain_below(names: Seq<Seq<u8>>)
    requires
        plain_names(names),
        names.len() > 0,
    ensures
        plain_names(names.drop_first()),
        position(names[0], 47) is None,
{
    let rest = names.drop_first();
    assert forall|i: int| 0 <= i < rest.len() implies position(#[trigger] rest[i], 47) is None by {
        assert(rest[i] == names[i + 1]);
    }
}

/// What a change makes where nothing was holds no name with a `/`.
proof fn lemma_created_plain(
    objects: Map<Seq<u8>, Seq<u8>>,
    oid: Seq<u8>,
    names: Seq<Seq<u8>>,
    target: Option<TargetModel>,
    other: Seq<Seq<u8>>,
    after: Map<Seq<u8>, Seq<u8>>,
)
    requires
        modified(objects, oid, names, target).1 is Ok,
        path_reads_back(objects, oid, names, target),
        sound_path(objects, oid, names),
        sound_target(target),
        has_all(modified(objects, oid, names, target).1->Ok_0.1, after),
        tree_items(objects[oid]).len() == 0,
        apart(names, other) && utf8_names(other) || names == other,
        plain_names(names),
        plain_names(other),
    ensures
        plain_way(after, modified(objects, oid, names, target).1->Ok_0.0, other),
    decreases names.len(),
{
    let items = tree_items(objects[oid]);
    let es = readable(items);
    let (root, list) = modified(objects, oid, names, target).1->Ok_0;
    let now = tree_items(list.last().1);
    lemma_plain_below(names);
    if names.len() == 1 {
        lemma_lowest_level(objects, oid, names, target);
    } else {
        lemma_upper_level(objects, oid, names, target);
    }
    assert(list[list.len() - 1] == list.last());
    lemma_names_stay_plain(items, now, names[0]);
    lemma_plain_below(other);
    if other[0] != names[0] {
        assert(first_named(now, other[0]) == first_named(items, other[0]));
    } else {
        if names != other {
            lemma_apart_below(names, other);
        }
        if names.len() > 1 {
            assert(!holds_name(es, names[0]));
            let (start, all) = with_directory(objects, es, names[0]);
            let last = last_named(all, names[0])->0;
            lemma_last_named_pushed(es, empty_directory(names[0]));
            lemma_has_all_front(list, after);
            lemma_created_plain(start, last, names.drop_first(), target, other.drop_first(), after);
        } else {
            let e = first_named(now, names[0])->Ok_0->0;
            assert(plain_way(after, e.oid, other.drop_first()));
        }
    }
}

/// A path without a `/` on its way has none there after a change, at that path
/// or at one that parts ways with it.
proof fn lemma_modified_plain(
    objects: Map<Seq<u8>, Seq<u8>>,
    oid: Seq<u8>,
    names: Seq<Seq<u8>>,
    target: Option<TargetModel>,
    other: Seq<Seq<u8>>,
    known: Map<Seq<u8>, Seq<u8>>,
    after: Map<Seq<u8>, Seq<u8>>,
)
    requires
        modified(objects, oid, names, target).1 is Ok,
        path_reads_back(objects, oid, names, target),
        sound_path(objects, oid, names),
        sound_target(target),
        has_all(modified(objects, oid, names, target).1->Ok_0.1, after),
        held_in(known, objects),
        held_in(known, after),
        apart(names, other) && utf8_names(other) || names == other,
        plain_names(names),
        plain_names(other),
        sound_path(known, oid, other),
        plain_way(known, oid, other),
    ensures
        plain_way(after, modified(objects, oid, names, target).1->Ok_0.0, other),
    decreases names.len(),
{
    let items = tree_items(objects[oid]);
    let es = readable(items);
    let (root, list) = modified(objects, oid, names, target).1->Ok_0;
    let now = tree_items(list.last().1);
    lemma_plain_below(names);
    if names.len() == 1 {
        lemma_lowest_level(objects, oid, names, target);
    } else {
        lemma_upper_level(objects, oid, names, target);
    }
    assert(list[list.len() - 1] == list.last());
    assert(known.contains_key(oid));
    assert(known[oid] == objects[oid]);
    lemma_names_stay_plain(items, now, names[0]);
    lemma_plain_below(other);
    if other[0] != names[0] {
        assert(first_named(now, other[0]) == first_named(items, other[0]));
        match first_named(items, other[0]) {
            Ok(Some(e)) => {
                if other.len() > 1 {
                    lemma_plain_way_extends(known, after, e.oid, other.drop_first());
                } else {
                    assert(plain_way(after, e.oid, other.drop_first()));
                }
            },
            _ => {},
        }
    } else {
        if names != other {
            lemma_apart_below(names, other);
        }
        if names.len() > 1 {
            let (start, all) = with_directory(objects, es, names[0]);
            let last = last_named(all, names[0])->0;
            let rest = names.drop_first();
            lemma_readable_present(items);
            lemma_first_named_present(es, names[0]);
            lemma_pick(es, names[0]);
            lemma_has_all_front(list, after);
            if !holds_name(es, names[0]) {
                lemma_last_named_pushed(es, empty_directory(names[0]));
                lemma_created_plain(start, last, rest, target, other.drop_first(), after);
            } else {
                lemma_last_named_pick(es, names[0]);
                lemma_modified_plain(start, last, rest, target, other.drop_first(), known, after);
            }
        } else {
            let e = first_named(now, names[0])->Ok_0->0;
            assert(plain_way(after, e.oid, other.drop_first()));
        }
    }
}

/// More objects add no `/` to the way of a path.
pub proof fn lemma_plain_way_extends(
    a: Map<Seq<u8>, Seq<u8>>,
    b: Map<Seq<u8>, Seq<u8>>,
    oid: Seq<u8>,
    names: Seq<Seq<u8>>,
)
    requires
        held_in(a, b),
        sound_path(a, oid, names),
        plain_way(a, oid, names),
    ensures
        plain_way(b, oid, names),
    decreases names.len(),
{
    if names.len() > 0 {
        assert(a.contains_key(oid));
        assert(b[oid] == a[oid]);
        match first_named(tree_items(a[oid]), names[0]) {
            Ok(Some(e)) => {
                if names.len() > 1 {
                    lemma_plain_way_extends(a, b, e.oid, names.drop_first());
                } else {
                    assert(plain_way(b, e.oid, names.drop_first()));
                }
            },
            _ => {},
        }
    }
}

/// After a change through sound trees without a `/`, at `names`, the trees on
/// the way of a path that parts ways with it, and on its own, are so still, as
/// long as no ids collide.
pub proof fn lemma_next_change_is_sound(
    objects: Map<Seq<u8>, Seq<u8>>,
    oid: Seq<u8>,
    names: Seq<Seq<u8>>,
    target: Option<TargetModel>,
    other: Seq<Seq<u8>>,
)
    requires
        change_sound(objects, oid, names, target),
        plain_way(objects, oid, names),
        plain_names(names),
        target is Some ==> names.len() > 0 && utf8_names(names) && clear_path(names),
        modified(objects, oid, names, target).1 is Ok,
        no_collision(objects, modified(objects, oid, names, target).1->Ok_0.1),
        apart(names, other),
        utf8_names(other),
        plain_names(other),
        found(objects, oid, other) is Ok,
        sound_path(objects, oid, other),
        plain_way(objects, oid, other),
    ensures
        ({
            let (after, r) = modified(objects, oid, names, target);
            let root = r->Ok_0.0;
            &&& root.len() == 20
            &&& sound_path(after, root, names) && plain_way(after, root, names)
            &&& sound_path(after, root, other) && plain_way(after, root, other)
            &&& found(after, root, names) == Ok::<Option<TargetModel>, ObjectError>(target)
            &&& found(after, root, other) == found(objects, oid, other)
        }),
{
    lemma_plain_way_is_orderly(objects, oid, names, target);
    lemma_change_result(objects, oid, names, target);
    lemma_goes_through(objects, oid, names, target);
    let (after, r) = modified(objects, oid, names, target);
    let (root, list) = r->Ok_0;
    assert(carries(objects, list, after));
    assert(found(after, root, other) == found(objects, oid, other));
    lemma_modified_plain(objects, oid, names, target, names, objects, after);
    lemma_modified_plain(objects, oid, names, target, other, objects, after);
}

} // verus!
