//! Taking out what was put into a tree gives the tree back.

use vstd::prelude::*;

use crate::bytes::position;
use crate::git::entry::{
    EntryModel, clash, clash_free, entry_before, in_tree_order, ordered, placed, regular_entries,
    regular_entry, tree_bytes, tree_mode,
};
use crate::git::lists::{
    ObjectError, TargetModel, distinct_names, holds_name, last_named, lemma_last_named_pick,
    lemma_pick, lemma_pick_is, lemma_present_readable, lemma_tree_items, named_entry, pick,
    readable, redirected, rewritten, updated,
};
use crate::git::objects::{
    has_all, lemma_has_all_front, lemma_modified_keeps, modified, no_collision, sound_target,
    stored,
};
use crate::git::packfile::{OBJ_TREE, object_id};
use crate::outside::tree_items;

verus! {

/// Entries as Git writes them: regular, in order, and each with a name of its
/// own.
pub open spec fn canonical(es: Seq<EntryModel>) -> bool {
    regular_entries(es) && ordered(es) && clash_free(es) && distinct_names(es)
}

/// The trees on the way to the last name are there, under their ids, and as
/// Git writes them; only the last name is not.
pub open spec fn canonical_way(
    objects: Map<Seq<u8>, Seq<u8>>,
    oid: Seq<u8>,
    names: Seq<Seq<u8>>,
) -> bool
    decreases names.len(),
{
    let es = readable(tree_items(objects[oid]));
    &&& names.len() > 0
    &&& objects.contains_key(oid)
    &&& oid == object_id(OBJ_TREE, objects[oid])
    &&& objects[oid] == tree_bytes(es)
    &&& canonical(es)
    &&& if names.len() == 1 {
        !holds_name(es, names[0])
    } else {
        pick(es, names[0]) matches Some(e) && (tree_mode(e.octal) && canonical_way(
            objects,
            e.oid,
            names.drop_first(),
        ))
    }
}

proof fn lemma_in_order(es: Seq<EntryModel>)
    requires
        ordered(es),
    ensures
        in_tree_order(es) == es,
    decreases es.len(),
{
    if es.len() > 0 {
        let front = es.drop_last();
        assert forall|i: int, j: int| 0 <= i < j < front.len() implies !entry_before(
            #[trigger] front[j],
            #[trigger] front[i],
        ) by {
            assert(front[j] == es[j] && front[i] == es[i]);
        }
        lemma_in_order(front);
        if front.len() > 0 {
            assert(!entry_before(es[es.len() - 1], es[es.len() - 2]));
        }
        assert(front.push(es.last()) =~= es);
    }
}

proof fn lemma_absent_front(es: Seq<EntryModel>, name: Seq<u8>)
    requires
        !holds_name(es, name),
        es.len() > 0,
    ensures
        !holds_name(es.drop_last(), name),
        es.last().name != name,
{
    let front = es.drop_last();
    assert(es[es.len() - 1].name != name);
    if holds_name(front, name) {
        let k = choose|k: int| 0 <= k < front.len() && (#[trigger] front[k]).name == name;
        assert(es[k].name == name);
    }
}

proof fn lemma_rewritten_absent(
    es: Seq<EntryModel>,
    name: Seq<u8>,
    target: Option<TargetModel>,
)
    requires
        !holds_name(es, name),
    ensures
        rewritten(es, name, target) == es,
    decreases es.len(),
{
    if es.len() > 0 {
        lemma_absent_front(es, name);
        lemma_rewritten_absent(es.drop_last(), name, target);
        assert(es.drop_last().push(es.last()) =~= es);
    } else {
        assert(rewritten(es, name, target) =~= es);
    }
}

proof fn lemma_placed_taken_out(es: Seq<EntryModel>, e: EntryModel)
    requires
        !holds_name(es, e.name),
    ensures
        rewritten(placed(es, e), e.name, None) == es,
        holds_name(placed(es, e), e.name),
    decreases es.len(),
{
    let all = placed(es, e);
    if es.len() == 0 || !entry_before(e, es.last()) {
        lemma_rewritten_absent(es, e.name, None);
        assert(all.drop_last() =~= es);
        assert(all[es.len() as int].name == e.name);
    } else {
        let front = es.drop_last();
        lemma_absent_front(es, e.name);
        lemma_placed_taken_out(front, e);
        let put = placed(front, e);
        assert(all.drop_last() =~= put);
        assert(front.push(es.last()) =~= es);
        let k = choose|k: int| 0 <= k < put.len() && (#[trigger] put[k]).name == e.name;
        assert(all[k].name == e.name);
    }
}

proof fn lemma_placed_regular(es: Seq<EntryModel>, e: EntryModel)
    requires
        regular_entries(es),
        regular_entry(e),
    ensures
        regular_entries(placed(es, e)),
    decreases es.len(),
{
    let all = placed(es, e);
    if es.len() == 0 || !entry_before(e, es.last()) {
        assert forall|i: int| 0 <= i < all.len() implies regular_entry(#[trigger] all[i]) by {
            if i < es.len() {
                assert(all[i] == es[i]);
            }
        }
    } else {
        let front = es.drop_last();
        assert forall|i: int| 0 <= i < front.len() implies regular_entry(#[trigger] front[i]) by {
            assert(front[i] == es[i]);
        }
        lemma_placed_regular(front, e);
        let put = placed(front, e);
        assert forall|i: int| 0 <= i < all.len() implies regular_entry(#[trigger] all[i]) by {
            if i < put.len() {
                assert(all[i] == put[i]);
            } else {
                assert(regular_entry(es[es.len() - 1]));
            }
        }
    }
}

proof fn lemma_redirected_canonical(es: Seq<EntryModel>, name: Seq<u8>, oid: Seq<u8>)
    requires
        canonical(es),
        oid.len() == 20,
    ensures
        canonical(redirected(es, name, oid)),
{
    let red = redirected(es, name, oid);
    assert forall|i: int| 0 <= i < red.len() implies regular_entry(#[trigger] red[i]) by {
        assert(regular_entry(es[i]));
    }
    assert forall|i: int, j: int| 0 <= i < j < red.len() implies !entry_before(
        #[trigger] red[j],
        #[trigger] red[i],
    ) by {
        assert(!entry_before(es[j], es[i]));
    }
    assert forall|i: int, j: int, k: int|
        0 <= i < red.len() && 0 <= j < red.len() && 0 <= k < red.len() implies !#[trigger] clash(
        red[i],
        red[j],
        red[k],
    ) by {
        assert(!clash(es[i], es[j], es[k]));
    }
    assert forall|i: int, j: int| 0 <= i < j < red.len() implies (#[trigger] red[i]).name != (
    #[trigger] red[j]).name by {
        assert(es[i].name != es[j].name);
    }
}

proof fn lemma_redirected_back(es: Seq<EntryModel>, name: Seq<u8>, oid: Seq<u8>)
    requires
        distinct_names(es),
        pick(es, name) is Some,
    ensures
        redirected(redirected(es, name, oid), name, pick(es, name)->0.oid) == es,
        last_named(redirected(es, name, oid), name) == Some(oid),
        holds_name(redirected(es, name, oid), name),
{
    let red = redirected(es, name, oid);
    let e = pick(es, name)->0;
    lemma_pick(es, name);
    let k = choose|k: int| 0 <= k < es.len() && es[k] == e;
    assert(red[k].name == name && red[k].oid == oid);
    assert forall|i: int| 0 <= i < es.len() && (#[trigger] es[i]).name == name implies es[i]
        == e by {
        if i < k {
            assert(es[i].name != es[k].name);
        } else if k < i {
            assert(es[k].name != es[i].name);
        }
    }
    assert forall|i: int| 0 <= i < es.len() implies redirected(red, name, e.oid)[i] == es[i] by {
        if es[i].name == name {
            assert(es[i] == e);
        }
    }
    assert(redirected(red, name, e.oid) =~= es);
    assert forall|i: int, j: int| 0 <= i < j < red.len() implies (#[trigger] red[i]).name != (
    #[trigger] red[j]).name by {
        assert(es[i].name != es[j].name);
    }
    assert(red.contains(red[k]));
    lemma_pick_is(red, red[k]);
    lemma_last_named_pick(red, name);
}

/// Storing canonical entries gives the id of their bytes.
proof fn lemma_stored_canonical(objects: Map<Seq<u8>, Seq<u8>>, es: Seq<EntryModel>)
    requires
        canonical(es),
    ensures
        stored(objects, es).1 == Ok::<(Seq<u8>, Seq<u8>), ObjectError>(
            (object_id(OBJ_TREE, tree_bytes(es)), tree_bytes(es)),
        ),
{
    lemma_in_order(es);
}

proof fn lemma_root_len(
    objects: Map<Seq<u8>, Seq<u8>>,
    oid: Seq<u8>,
    names: Seq<Seq<u8>>,
    target: Option<TargetModel>,
)
    requires
        modified(objects, oid, names, target).1 is Ok,
    ensures
        modified(objects, oid, names, target).1->Ok_0.0.len() == 20,
{
}

proof fn lemma_taken_out_again(
    objects: Map<Seq<u8>, Seq<u8>>,
    oid: Seq<u8>,
    names: Seq<Seq<u8>>,
    target: TargetModel,
    known: Map<Seq<u8>, Seq<u8>>,
)
    requires
        canonical_way(objects, oid, names),
        sound_target(Some(target)),
        position(names.last(), 0) is None,
        modified(objects, oid, names, Some(target)).1 is Ok,
        has_all(modified(objects, oid, names, Some(target)).1->Ok_0.1, known),
    ensures
        ({
            let root = modified(objects, oid, names, Some(target)).1->Ok_0.0;
            modified(known, root, names, None).1 matches Ok((back, _)) && back == oid
        }),
    decreases names.len(),
{
    let es = readable(tree_items(objects[oid]));
    let name = names[0];
    let (root, list) = modified(objects, oid, names, Some(target)).1->Ok_0;
    if names.len() == 1 {
        let e = named_entry(name, target);
        lemma_rewritten_absent(es, name, Some(target));
        let more = es.push(e);
        assert(updated(es, name, Some(target)) == more);
        lemma_in_order(es);
        assert(more.drop_last() =~= es);
        let all = placed(es, e);
        assert(in_tree_order(more) == all);
        assert(regular_entry(e));
        lemma_placed_regular(es, e);
        let data = tree_bytes(all);
        assert(list[0] == (OBJ_TREE, data));
        lemma_tree_items(all);
        lemma_present_readable(all);
        lemma_placed_taken_out(es, e);
        lemma_stored_canonical(known, es);
    } else {
        let rest = names.drop_first();
        let e = pick(es, name)->0;
        lemma_pick(es, name);
        lemma_last_named_pick(es, name);
        let (below, child) = modified(objects, e.oid, rest, Some(target));
        let (child_oid, child_list) = child->Ok_0;
        lemma_root_len(objects, e.oid, rest, Some(target));
        let red = redirected(es, name, child_oid);
        lemma_redirected_canonical(es, name, child_oid);
        lemma_stored_canonical(below, red);
        assert(list.drop_last() =~= child_list);
        assert(list[child_list.len() as int] == (OBJ_TREE, tree_bytes(red)));
        lemma_has_all_front(list, known);
        assert(rest.last() == names.last());
        lemma_taken_out_again(objects, e.oid, rest, target, known);
        lemma_tree_items(red);
        lemma_present_readable(red);
        lemma_redirected_back(es, name, child_oid);
        let gone = modified(known, child_oid, rest, None);
        lemma_stored_canonical(gone.0, es);
    }
}

/// Taking out what was just put at a path where nothing was gives the tree
/// back that was there before: the root has its old id.
pub proof fn lemma_removal_undoes_insertion(
    objects: Map<Seq<u8>, Seq<u8>>,
    oid: Seq<u8>,
    names: Seq<Seq<u8>>,
    target: TargetModel,
)
    requires
        canonical_way(objects, oid, names),
        sound_target(Some(target)),
        position(names.last(), 0) is None,
        modified(objects, oid, names, Some(target)).1 is Ok,
        no_collision(objects, modified(objects, oid, names, Some(target)).1->Ok_0.1),
    ensures
        ({
            let (after, r) = modified(objects, oid, names, Some(target));
            modified(after, r->Ok_0.0, names, None).1 matches Ok((back, _)) && back == oid
        }),
{
    lemma_modified_keeps(objects, oid, names, Some(target));
    let after = modified(objects, oid, names, Some(target)).0;
    lemma_taken_out_again(objects, oid, names, target, after);
}

} // verus!
