//! Lists of tree entries: looking an entry up by its name, and changing it.

use vstd::prelude::*;

use crate::git::entry::{
    EntryModel, in_tree_order, lemma_same_entries, lemma_tree_bytes_unique, lemma_tree_order_keeps,
    regular_entries, regular_entry, tree_bytes,
};
use crate::outside::{present, tree_items};

verus! {

/// Why trees cannot be walked or rewritten.
#[derive(Clone, Copy, PartialEq, Eq, Structural, Debug)]
pub enum ObjectError {
    /// A path without components, where an entry is to be changed.
    EmptyPath,
    /// A component or an entry's name that is not UTF-8.
    NotUtf8,
    /// A tree object that is not there.
    MissingTree,
    /// A tree object that cannot be read.
    BadTree,
    /// An entry that is not there.
    NotFound,
    /// Two names that run on with `/` where the name of one directory ends, so
    /// that the entries have no order.
    NameClash,
    /// A name that a tree cannot hold.
    BadName,
    /// A tree that holds itself.
    Cycle,
}

/// The mode digits and the id of an entry.
pub type TargetModel = (Seq<u8>, Seq<u8>);

/// The first entry of this name, unless the tree breaks off before it.
pub open spec fn first_named(items: Seq<Option<EntryModel>>, name: Seq<u8>) -> Result<
    Option<EntryModel>,
    ObjectError,
>
    decreases items.len(),
{
    if items.len() == 0 {
        Ok(None)
    } else {
        match items[0] {
            None => Err(ObjectError::BadTree),
            Some(e) => if e.name == name {
                Ok(Some(e))
            } else {
                first_named(items.drop_first(), name)
            },
        }
    }
}

/// The entries that can be read.
pub open spec fn readable(items: Seq<Option<EntryModel>>) -> Seq<EntryModel>
    decreases items.len(),
{
    if items.len() == 0 {
        Seq::empty()
    } else {
        match items.last() {
            Some(e) => readable(items.drop_last()).push(e),
            None => readable(items.drop_last()),
        }
    }
}

/// Whether an entry has this name.
pub open spec fn holds_name(es: Seq<EntryModel>, name: Seq<u8>) -> bool {
    exists|i: int| 0 <= i < es.len() && (#[trigger] es[i]).name == name
}

/// The id of the last entry of this name.
pub open spec fn last_named(es: Seq<EntryModel>, name: Seq<u8>) -> Option<Seq<u8>>
    decreases es.len(),
{
    if es.len() == 0 {
        None
    } else if es.last().name == name {
        Some(es.last().oid)
    } else {
        last_named(es.drop_last(), name)
    }
}

/// The entry of this name with this target.
pub open spec fn named_entry(name: Seq<u8>, target: TargetModel) -> EntryModel {
    EntryModel { octal: target.0, name, oid: target.1 }
}

/// The entries with those of this name changed to the target, or left out.
pub open spec fn rewritten(
    es: Seq<EntryModel>,
    name: Seq<u8>,
    target: Option<TargetModel>,
) -> Seq<EntryModel>
    decreases es.len(),
{
    if es.len() == 0 {
        Seq::empty()
    } else {
        let front = rewritten(es.drop_last(), name, target);
        if es.last().name != name {
            front.push(es.last())
        } else {
            match target {
                Some(t) => front.push(named_entry(name, t)),
                None => front,
            }
        }
    }
}

/// The entries with the entry of this name set to the target, added where
/// there is none, or taken out.
pub open spec fn updated(
    es: Seq<EntryModel>,
    name: Seq<u8>,
    target: Option<TargetModel>,
) -> Seq<EntryModel> {
    match target {
        Some(t) if !holds_name(es, name) => rewritten(es, name, target).push(named_entry(name, t)),
        _ => rewritten(es, name, target),
    }
}

/// The entries with those of this name leading to `oid`.
pub open spec fn redirected(es: Seq<EntryModel>, name: Seq<u8>, oid: Seq<u8>) -> Seq<EntryModel> {
    es.map_values(
        |e: EntryModel|
            if e.name == name {
                EntryModel { oid, ..e }
            } else {
                e
            },
    )
}

/// The first entry of this name.
pub open spec fn pick(es: Seq<EntryModel>, name: Seq<u8>) -> Option<EntryModel>
    decreases es.len(),
{
    if es.len() == 0 {
        None
    } else if es[0].name == name {
        Some(es[0])
    } else {
        pick(es.drop_first(), name)
    }
}

/// No two entries have one name.
pub open spec fn distinct_names(es: Seq<EntryModel>) -> bool {
    forall|i: int, j: int|
        0 <= i < j < es.len() ==> (#[trigger] es[i]).name != (#[trigger] es[j]).name
}

/// A list of items that are all there, each with a name of its own and in a
/// form that a tree holds unchanged.
pub open spec fn sound_items(items: Seq<Option<EntryModel>>) -> bool {
    &&& forall|i: int| 0 <= i < items.len() ==> #[trigger] items[i] is Some
    &&& regular_entries(readable(items))
    &&& distinct_names(readable(items))
}

// ---------------------------------------------------------------------------
// Picking
// ---------------------------------------------------------------------------

pub proof fn lemma_pick(es: Seq<EntryModel>, name: Seq<u8>)
    ensures
        match pick(es, name) {
            Some(e) => es.contains(e) && e.name == name && holds_name(es, name),
            None => !holds_name(es, name),
        },
    decreases es.len(),
{
    if es.len() > 0 {
        if es[0].name == name {
            assert(es.contains(es[0]));
        } else {
            let rest = es.drop_first();
            lemma_pick(rest, name);
            match pick(rest, name) {
                Some(e) => {
                    let k = choose|k: int| 0 <= k < rest.len() && rest[k] == e;
                    assert(es[k + 1] == e);
                },
                None => {
                    assert forall|i: int| 0 <= i < es.len() implies (#[trigger] es[i]).name
                        != name by {
                        if i > 0 {
                            assert(rest[i - 1] == es[i]);
                        }
                    }
                },
            }
        }
    }
}

/// Where names are distinct, the entry of a name is the one that is picked.
pub proof fn lemma_pick_is(es: Seq<EntryModel>, e: EntryModel)
    requires
        distinct_names(es),
        es.contains(e),
    ensures
        pick(es, e.name) == Some(e),
{
    lemma_pick(es, e.name);
    let k = choose|k: int| 0 <= k < es.len() && es[k] == e;
    match pick(es, e.name) {
        Some(x) => {
            let j = choose|j: int| 0 <= j < es.len() && es[j] == x;
            if j < k {
                assert(es[j].name != es[k].name);
            } else if k < j {
                assert(es[k].name != es[j].name);
            }
        },
        None => {
            assert(es[k].name == e.name);
        },
    }
}

/// Two lists with the same entries, each under a name of its own, give the
/// same entry for a name.
proof fn lemma_pick_same(a: Seq<EntryModel>, b: Seq<EntryModel>, name: Seq<u8>)
    requires
        distinct_names(a),
        distinct_names(b),
        forall|e: EntryModel| e.name == name ==> (#[trigger] a.contains(e) <==> b.contains(e)),
    ensures
        pick(a, name) == pick(b, name),
{
    lemma_pick(a, name);
    lemma_pick(b, name);
    match pick(a, name) {
        Some(e) => {
            assert(a.contains(e));
            lemma_pick_is(b, e);
        },
        None => {
            match pick(b, name) {
                Some(e) => {
                    assert(a.contains(e));
                    lemma_pick_is(a, e);
                },
                None => {},
            }
        },
    }
}

pub proof fn lemma_first_named_present(es: Seq<EntryModel>, name: Seq<u8>)
    ensures
        first_named(present(es), name) == Ok::<Option<EntryModel>, ObjectError>(pick(es, name)),
    decreases es.len(),
{
    if es.len() > 0 {
        lemma_first_named_present(es.drop_first(), name);
        assert(present(es).drop_first() =~= present(es.drop_first()));
        assert(present(es)[0] == Some(es[0]));
    }
}

pub proof fn lemma_readable_present(items: Seq<Option<EntryModel>>)
    requires
        forall|i: int| 0 <= i < items.len() ==> #[trigger] items[i] is Some,
    ensures
        present(readable(items)) == items,
    decreases items.len(),
{
    if items.len() > 0 {
        let front = items.drop_last();
        assert forall|i: int| 0 <= i < front.len() implies #[trigger] front[i] is Some by {
            assert(items[i] is Some);
        }
        lemma_readable_present(front);
        assert(items.last() is Some);
        assert(present(readable(items)) =~= present(readable(front)).push(items.last()));
        assert(items =~= front.push(items.last()));
    } else {
        assert(present(readable(items)) =~= items);
    }
}

pub proof fn lemma_present_readable(es: Seq<EntryModel>)
    ensures
        readable(present(es)) == es,
        forall|i: int| 0 <= i < present(es).len() ==> #[trigger] present(es)[i] is Some,
    decreases es.len(),
{
    if es.len() > 0 {
        lemma_present_readable(es.drop_last());
        assert(present(es).drop_last() =~= present(es.drop_last()));
        assert(present(es).last() == Some(es.last()));
        assert(es.drop_last().push(es.last()) =~= es);
    } else {
        assert(readable(present(es)) =~= es);
    }
}

/// An entry that is found by name can be read.
pub proof fn lemma_first_named_readable(items: Seq<Option<EntryModel>>, name: Seq<u8>)
    ensures
        first_named(items, name) matches Ok(Some(e)) ==> readable(items).contains(e),
    decreases items.len(),
{
    if items.len() > 0 {
        match items[0] {
            Some(x) => {
                lemma_readable_split(items);
                let rest = items.drop_first();
                lemma_first_named_readable(rest, name);
                let all = readable(items);
                assert(all[0] == x);
                match first_named(rest, name) {
                    Ok(Some(e)) => {
                        if x.name != name {
                            let k = choose|k: int|
                                0 <= k < readable(rest).len() && readable(rest)[k] == e;
                            assert(all[k + 1] == e);
                        }
                    },
                    _ => {},
                }
            },
            None => {},
        }
    }
}

pub proof fn lemma_readable_split(items: Seq<Option<EntryModel>>)
    requires
        items.len() > 0,
    ensures
        readable(items) == (match items[0] {
            Some(e) => seq![e],
            None => Seq::<EntryModel>::empty(),
        }) + readable(items.drop_first()),
    decreases items.len(),
{
    let first: Seq<EntryModel> = match items[0] {
        Some(e) => seq![e],
        None => Seq::empty(),
    };
    if items.len() == 1 {
        assert(items.drop_last() =~= Seq::empty());
        assert(items.drop_first() =~= Seq::empty());
        assert(readable(items) =~= first + readable(items.drop_first()));
    } else {
        lemma_readable_split(items.drop_last());
        assert(items.drop_last().drop_first() =~= items.drop_first().drop_last());
        assert(items.drop_first().last() == items.last());
        assert(readable(items) =~= first + readable(items.drop_first()));
    }
}

pub proof fn lemma_last_named_pick(es: Seq<EntryModel>, name: Seq<u8>)
    requires
        distinct_names(es),
    ensures
        match pick(es, name) {
            Some(e) => last_named(es, name) == Some(e.oid),
            None => last_named(es, name) is None,
        },
    decreases es.len(),
{
    lemma_pick(es, name);
    if es.len() > 0 {
        let front = es.drop_last();
        if es.last().name == name {
            assert(es.contains(es.last()));
            lemma_pick_is(es, es.last());
        } else {
            lemma_distinct_front(es);
            lemma_last_named_pick(front, name);
            lemma_pick(front, name);
            assert forall|e: EntryModel| e.name == name implies (#[trigger] es.contains(e)
                <==> front.contains(e)) by {
                if es.contains(e) {
                    let k = choose|k: int| 0 <= k < es.len() && es[k] == e;
                    assert(front[k] == e);
                }
                if front.contains(e) {
                    let k = choose|k: int| 0 <= k < front.len() && front[k] == e;
                    assert(es[k] == e);
                }
            }
            lemma_pick_same(es, front, name);
        }
    }
}

proof fn lemma_distinct_front(es: Seq<EntryModel>)
    requires
        es.len() > 0,
        distinct_names(es),
    ensures
        distinct_names(es.drop_last()),
{
    let front = es.drop_last();
    assert forall|i: int, j: int| 0 <= i < j < front.len() implies (#[trigger] front[i]).name
        != (#[trigger] front[j]).name by {
        assert(es[i].name != es[j].name);
    }
}

// ---------------------------------------------------------------------------
// Sorting
// ---------------------------------------------------------------------------

/// Sorting leaves names distinct and entries regular, and every name leads to
/// the same entry.
pub proof fn lemma_sorted(es: Seq<EntryModel>)
    requires
        distinct_names(es),
    ensures
        distinct_names(in_tree_order(es)),
        regular_entries(es) ==> regular_entries(in_tree_order(es)),
        forall|name: Seq<u8>| #[trigger] pick(in_tree_order(es), name) == pick(es, name),
{
    let so = in_tree_order(es);
    lemma_tree_order_keeps(es);
    lemma_same_entries(es, so);
    assert(es.no_duplicates()) by {
        assert forall|i: int, j: int| 0 <= i < es.len() && 0 <= j < es.len() && i != j implies es[i]
            != es[j] by {
            if i < j {
                assert(es[i].name != es[j].name);
            } else {
                assert(es[j].name != es[i].name);
            }
        }
    }
    es.lemma_multiset_has_no_duplicates();
    so.lemma_multiset_has_no_duplicates_conv();
    assert(distinct_names(so)) by {
        assert forall|i: int, j: int| 0 <= i < j < so.len() implies (#[trigger] so[i]).name
            != (#[trigger] so[j]).name by {
            assert(so.contains(so[i]) && so.contains(so[j]));
            assert(es.contains(so[i]) && es.contains(so[j]));
            if so[i].name == so[j].name {
                lemma_pick_is(es, so[i]);
                lemma_pick_is(es, so[j]);
            }
        }
    }
    if regular_entries(es) {
        assert forall|i: int| 0 <= i < so.len() implies regular_entry(#[trigger] so[i]) by {
            assert(so.contains(so[i]));
            assert(es.contains(so[i]));
            let k = choose|k: int| 0 <= k < es.len() && es[k] == so[i];
            assert(regular_entry(es[k]));
        }
    }
    assert forall|name: Seq<u8>| #[trigger] pick(so, name) == pick(es, name) by {
        lemma_pick_same(so, es, name);
    }
}

// ---------------------------------------------------------------------------
// Changing
// ---------------------------------------------------------------------------

proof fn lemma_rewritten(es: Seq<EntryModel>, name: Seq<u8>, target: Option<TargetModel>)
    requires
        distinct_names(es),
    ensures
        distinct_names(rewritten(es, name, target)),
        forall|e: EntryModel| #[trigger]
            rewritten(es, name, target).contains(e) <==> (es.contains(e) && e.name != name) || (
            target matches Some(t) && holds_name(es, name) && e == named_entry(name, t)),
    decreases es.len(),
{
    let r = rewritten(es, name, target);
    if es.len() > 0 {
        let front = es.drop_last();
        let last = es.last();
        lemma_distinct_front(es);
        lemma_rewritten(front, name, target);
        let rf = rewritten(front, name, target);
        let replaced = target matches Some(t) && last.name == name;
        let kept = last.name != name;
        let new_last = if kept {
            last
        } else {
            named_entry(name, target->0)
        };
        assert forall|e: EntryModel| #[trigger] es.contains(e) <==> front.contains(e) || e
            == last by {
            if es.contains(e) {
                let k = choose|k: int| 0 <= k < es.len() && es[k] == e;
                if k < front.len() {
                    assert(front[k] == e);
                }
            }
            if front.contains(e) {
                let k = choose|k: int| 0 <= k < front.len() && front[k] == e;
                assert(es[k] == e);
            }
            if e == last {
                assert(es[es.len() - 1] == e);
            }
        }
        assert(holds_name(es, name) <==> holds_name(front, name) || last.name == name) by {
            if holds_name(front, name) {
                let k = choose|k: int| 0 <= k < front.len() && (#[trigger] front[k]).name == name;
                assert(es[k].name == name);
            }
            if last.name == name {
                assert(es[es.len() - 1].name == name);
            }
            if holds_name(es, name) {
                let k = choose|k: int| 0 <= k < es.len() && (#[trigger] es[k]).name == name;
                if k < front.len() {
                    assert(front[k].name == name);
                }
            }
        }
        if last.name == name && holds_name(front, name) {
            let k = choose|k: int| 0 <= k < front.len() && (#[trigger] front[k]).name == name;
            assert(es[k].name != es[es.len() - 1].name);
        }
        if kept || replaced {
            assert(r == rf.push(new_last));
            assert forall|e: EntryModel| #[trigger] r.contains(e) <==> rf.contains(e) || e
                == new_last by {
                if r.contains(e) {
                    let k = choose|k: int| 0 <= k < r.len() && r[k] == e;
                    if k < rf.len() {
                        assert(rf[k] == e);
                    }
                }
                if rf.contains(e) {
                    let k = choose|k: int| 0 <= k < rf.len() && rf[k] == e;
                    assert(r[k] == e);
                }
                if e == new_last {
                    assert(r[rf.len() as int] == e);
                }
            }
            assert forall|i: int, j: int| 0 <= i < j < r.len() implies (#[trigger] r[i]).name != (
            #[trigger] r[j]).name by {
                if j == rf.len() {
                    assert(rf[i] == r[i]);
                    assert(rf.contains(rf[i]));
                    if r[i].name == new_last.name {
                        if kept {
                            if front.contains(r[i]) {
                                let k = choose|k: int| 0 <= k < front.len() && front[k] == r[i];
                                assert(es[k].name != es[es.len() - 1].name);
                            } else {
                                assert(r[i].name == name);
                            }
                        } else {
                            assert(!holds_name(front, name));
                        }
                    }
                } else {
                    assert(rf[i].name != rf[j].name);
                }
            }
        } else {
            assert(r == rf);
        }
    } else {
        assert(r =~= Seq::empty());
    }
}

/// What `updated` does, where names are distinct: the name leads to the target,
/// every other name to where it led.
pub proof fn lemma_updated(es: Seq<EntryModel>, name: Seq<u8>, target: Option<TargetModel>)
    requires
        distinct_names(es),
    ensures
        distinct_names(updated(es, name, target)),
        pick(updated(es, name, target), name) == match target {
            Some(t) => Some(named_entry(name, t)),
            None => None,
        },
        forall|other: Seq<u8>|
            other != name ==> #[trigger] pick(updated(es, name, target), other) == pick(es, other),
        regular_entries(es) && (target matches Some(t) ==> regular_entry(named_entry(name, t)))
            ==> regular_entries(updated(es, name, target)),
{
    let rw = rewritten(es, name, target);
    let u = updated(es, name, target);
    lemma_rewritten(es, name, target);
    assert(forall|e: EntryModel| #[trigger]
        u.contains(e) <==> (es.contains(e) && e.name != name) || (target matches Some(t) && e
            == named_entry(name, t))) by {
        assert forall|e: EntryModel| #[trigger] u.contains(e) <==> (es.contains(e) && e.name
            != name) || (target matches Some(t) && e == named_entry(name, t)) by {
            if target is Some && !holds_name(es, name) {
                let x = named_entry(name, target->0);
                if u.contains(e) {
                    let k = choose|k: int| 0 <= k < u.len() && u[k] == e;
                    if k < rw.len() {
                        assert(rw[k] == e);
                        assert(rw.contains(e));
                    }
                }
                if es.contains(e) && e.name != name {
                    assert(rw.contains(e));
                    let k = choose|k: int| 0 <= k < rw.len() && rw[k] == e;
                    assert(u[k] == e);
                }
                if e == x {
                    assert(u[rw.len() as int] == e);
                }
            } else {
                assert(u == rw);
                assert(rw.contains(e) <==> (es.contains(e) && e.name != name) || (
                target matches Some(t) && holds_name(es, name) && e == named_entry(name, t)));
            }
        }
    }
    if target is Some && !holds_name(es, name) {
        assert forall|i: int, j: int| 0 <= i < j < u.len() implies (#[trigger] u[i]).name != (
        #[trigger] u[j]).name by {
            assert(rw[i] == u[i]);
            assert(rw.contains(rw[i]));
            if j < rw.len() {
                assert(rw[i].name != rw[j].name);
            }
        }
    }
    assert(distinct_names(u));
    match target {
        Some(t) => {
            assert(u.contains(named_entry(name, t)));
            lemma_pick_is(u, named_entry(name, t));
        },
        None => {
            lemma_pick(u, name);
            match pick(u, name) {
                Some(e) => {
                    assert(u.contains(e));
                },
                None => {},
            }
        },
    }
    assert forall|other: Seq<u8>| other != name implies #[trigger] pick(u, other) == pick(
        es,
        other,
    ) by {
        lemma_pick_same(u, es, other);
    }
    if regular_entries(es) && (target matches Some(t) ==> regular_entry(named_entry(name, t))) {
        assert forall|i: int| 0 <= i < u.len() implies regular_entry(#[trigger] u[i]) by {
            assert(u.contains(u[i]));
            if es.contains(u[i]) {
                let k = choose|k: int| 0 <= k < es.len() && es[k] == u[i];
                assert(regular_entry(es[k]));
            }
        }
    }
}

/// What `redirected` does, where names are distinct: the entry of the name
/// keeps its mode and leads to `oid`, every other name to where it led.
pub proof fn lemma_redirected(es: Seq<EntryModel>, name: Seq<u8>, oid: Seq<u8>)
    requires
        distinct_names(es),
    ensures
        distinct_names(redirected(es, name, oid)),
        pick(redirected(es, name, oid), name) == match pick(es, name) {
            Some(e) => Some(EntryModel { oid, ..e }),
            None => None,
        },
        forall|other: Seq<u8>|
            other != name ==> #[trigger] pick(redirected(es, name, oid), other) == pick(es, other),
        regular_entries(es) && oid.len() == 20 ==> regular_entries(redirected(es, name, oid)),
{
    let r = redirected(es, name, oid);
    assert forall|i: int, j: int| 0 <= i < j < r.len() implies (#[trigger] r[i]).name != (
    #[trigger] r[j]).name by {
        assert(es[i].name != es[j].name);
    }
    lemma_pick(es, name);
    match pick(es, name) {
        Some(e) => {
            let k = choose|k: int| 0 <= k < es.len() && es[k] == e;
            let x = EntryModel { oid, ..e };
            assert(r[k] == x);
            assert(r.contains(x));
            lemma_pick_is(r, x);
        },
        None => {
            lemma_pick(r, name);
            match pick(r, name) {
                Some(x) => {
                    let k = choose|k: int| 0 <= k < r.len() && r[k] == x;
                    assert(es[k].name == name);
                },
                None => {},
            }
        },
    }
    assert forall|other: Seq<u8>| other != name implies #[trigger] pick(r, other) == pick(
        es,
        other,
    ) by {
        assert forall|e: EntryModel| e.name == other implies (#[trigger] r.contains(e)
            <==> es.contains(e)) by {
            if r.contains(e) {
                let k = choose|k: int| 0 <= k < r.len() && r[k] == e;
                assert(es[k] == e);
            }
            if es.contains(e) {
                let k = choose|k: int| 0 <= k < es.len() && es[k] == e;
                assert(r[k] == e);
            }
        }
        lemma_pick_same(r, es, other);
    }
    if regular_entries(es) && oid.len() == 20 {
        assert forall|i: int| 0 <= i < r.len() implies regular_entry(#[trigger] r[i]) by {
            assert(regular_entry(es[i]));
        }
    }
}

/// A tree object that is made of regular entries has these items.
pub proof fn lemma_tree_items(es: Seq<EntryModel>)
    requires
        regular_entries(es),
    ensures
        tree_items(tree_bytes(es)) == present(es),
{
    let data = tree_bytes(es);
    let got = choose|x: Seq<EntryModel>| regular_entries(x) && #[trigger] tree_bytes(x) == data;
    lemma_tree_bytes_unique(es, got);
}

} // verus!
