//! What a walk of a tree meets at a path is what a lookup finds there.

use vstd::prelude::*;
use vstd::utf8::valid_utf8;

use crate::bytes::position;
use crate::git::entry::{EntryModel, lemma_own_modes, tree_mode};
use crate::git::lists::{ObjectError, first_named, lemma_readable_split, readable};
use crate::git::objects::{
    WalkModel, child_tree, entry_of, found, lemma_reached_child, lemma_unseen_shrinks, tree_chain,
    tree_reached, walk_start, walked, walked_items,
};
use crate::outside::tree_items;
use crate::path::{components_of, joined, lemma_joined_components, naming, under};
use crate::path_map::{Slots, distinct_keys, kept_at, lemma_kept_put, slot_of};

verus! {

/// The file that a path leads to from the tree `oid` on.
pub open spec fn file_at(
    objects: Map<Seq<u8>, Seq<u8>>,
    oid: Seq<u8>,
    names: Seq<Seq<u8>>,
) -> Option<Seq<u8>> {
    match found(objects, oid, names) {
        Ok(Some((octal, target))) => if tree_mode(octal) {
            None
        } else {
            Some(target)
        },
        _ => None,
    }
}

/// Each entry has a name of its own, and one that is a component of a path.
pub open spec fn plain_items(items: Seq<Option<EntryModel>>) -> bool {
    &&& forall|i: int|
        0 <= i < items.len() ==> (#[trigger] items[i] matches Some(e) ==> naming(e.name)
            && position(e.name, 47) is None)
    &&& forall|i: int, j: int|
        0 <= i < j < items.len() && items[i] is Some && items[j] is Some ==> (
        #[trigger] items[i])->0.name != (#[trigger] items[j])->0.name
}

/// The entries of the tree `root`, and of every directory below it, have
/// names of their own.
pub open spec fn plain_below(objects: Map<Seq<u8>, Seq<u8>>, root: Seq<u8>) -> bool {
    forall|t: Seq<u8>| #[trigger]
        tree_reached(objects, root, t) && objects.contains_key(t) ==> plain_items(
            tree_items(objects[t]),
        )
}

spec fn file_in(
    objects: Map<Seq<u8>, Seq<u8>>,
    items: Seq<Option<EntryModel>>,
    rest: Seq<Seq<u8>>,
) -> Option<Seq<u8>> {
    if rest.len() == 0 {
        None
    } else {
        match first_named(items, rest[0]) {
            Ok(Some(e)) => if rest.len() == 1 {
                if tree_mode(e.octal) {
                    None
                } else {
                    Some(e.oid)
                }
            } else if tree_mode(e.octal) {
                file_at(objects, e.oid, rest.drop_first())
            } else {
                None
            },
            _ => None,
        }
    }
}

spec fn rest_of(names: Seq<Seq<u8>>, base: Seq<u8>) -> Seq<Seq<u8>> {
    names.skip(components_of(base).len() as int)
}

spec fn index_with(
    index: Slots<Seq<u8>>,
    names: Seq<Seq<u8>>,
    base: Seq<u8>,
    file: Option<Seq<u8>>,
) -> Option<Seq<u8>> {
    if under(names, components_of(base)) && file is Some {
        file
    } else {
        kept_at(index, names)
    }
}

spec fn content_with(
    objects: Map<Seq<u8>, Seq<u8>>,
    contents: Slots<Seq<u8>>,
    names: Seq<Seq<u8>>,
    base: Seq<u8>,
    file: Option<Seq<u8>>,
) -> Option<Seq<u8>> {
    if under(names, components_of(base)) && file is Some && objects.contains_key(file->0) {
        Some(objects[file->0])
    } else {
        kept_at(contents, names)
    }
}

spec fn distinct_walk(out: WalkModel) -> bool {
    distinct_keys(out.index) && distinct_keys(out.contents)
}

spec fn trees_reached(
    objects: Map<Seq<u8>, Seq<u8>>,
    root: Seq<u8>,
    items: Seq<Option<EntryModel>>,
) -> bool {
    forall|i: int|
        0 <= i < items.len() ==> (#[trigger] items[i] matches Some(e) ==> (tree_mode(e.octal)
            ==> tree_reached(objects, root, e.oid)))
}

proof fn lemma_item_readable(items: Seq<Option<EntryModel>>, i: int)
    requires
        0 <= i < items.len(),
        items[i] is Some,
    ensures
        readable(items).contains(items[i]->0),
    decreases items.len(),
{
    lemma_readable_split(items);
    let all = readable(items);
    if i == 0 {
        assert(all[0] == items[0]->0);
    } else {
        let rest = items.drop_first();
        assert(rest[i - 1] == items[i]);
        lemma_item_readable(rest, i - 1);
        let k = choose|k: int| 0 <= k < readable(rest).len() && readable(rest)[k] == items[i]->0;
        let lead: int = all.len() - readable(rest).len();
        assert(all[k + lead] == items[i]->0);
    }
}

proof fn lemma_trees_reached(objects: Map<Seq<u8>, Seq<u8>>, root: Seq<u8>, oid: Seq<u8>)
    requires
        tree_reached(objects, root, oid),
        objects.contains_key(oid),
    ensures
        trees_reached(objects, root, tree_items(objects[oid])),
{
    let items = tree_items(objects[oid]);
    assert forall|i: int| 0 <= i < items.len() implies (#[trigger] items[i] matches Some(e) ==> (
    tree_mode(e.octal) ==> tree_reached(objects, root, e.oid))) by {
        if items[i] is Some && tree_mode(items[i]->0.octal) {
            let e = items[i]->0;
            lemma_item_readable(items, i);
            assert(entry_of(objects, oid, e));
            assert(child_tree(objects, oid, e.oid));
            lemma_reached_child(objects, root, oid, e.oid);
        }
    }
}

proof fn lemma_not_named(items: Seq<Option<EntryModel>>, name: Seq<u8>)
    requires
        forall|i: int|
            0 <= i < items.len() ==> #[trigger] items[i] is Some && items[i]->0.name != name,
    ensures
        first_named(items, name) == Ok::<Option<EntryModel>, ObjectError>(None),
    decreases items.len(),
{
    if items.len() > 0 {
        let rest = items.drop_first();
        assert(items[0] is Some && items[0]->0.name != name);
        assert forall|i: int| 0 <= i < rest.len() implies #[trigger] rest[i] is Some
            && rest[i]->0.name != name by {
            assert(items[i + 1] is Some && items[i + 1]->0.name != name);
        }
        lemma_not_named(rest, name);
    }
}

proof fn lemma_walk_readable(
    objects: Map<Seq<u8>, Seq<u8>>,
    items: Seq<Option<EntryModel>>,
    base: Seq<u8>,
    above: Set<Seq<u8>>,
    out: WalkModel,
    i: int,
)
    requires
        objects.dom().finite(),
        walked_items(objects, items, base, above, out) is Ok,
        0 <= i < items.len(),
    ensures
        items[i] is Some,
        valid_utf8(items[i]->0.name),
    decreases items.len(),
{
    if i > 0 {
        let rest = items.drop_first();
        let e = items[0]->0;
        assert(rest[i - 1] == items[i]);
        if tree_mode(e.octal) {
            let next = walked(objects, e.oid, joined(base, e.name), above, out)->Ok_0;
            lemma_walk_readable(objects, rest, base, above, next, i - 1);
        } else {
            let next = out.with_file(objects, joined(base, e.name), e.oid);
            lemma_walk_readable(objects, rest, base, above, next, i - 1);
        }
    }
}

proof fn lemma_walked(
    objects: Map<Seq<u8>, Seq<u8>>,
    root: Seq<u8>,
    oid: Seq<u8>,
    base: Seq<u8>,
    above: Set<Seq<u8>>,
    out: WalkModel,
    names: Seq<Seq<u8>>,
)
    requires
        objects.dom().finite(),
        plain_below(objects, root),
        tree_reached(objects, root, oid),
        distinct_walk(out),
        walked(objects, oid, base, above, out) is Ok,
    ensures
        ({
            let end = walked(objects, oid, base, above, out)->Ok_0;
            let file = file_at(objects, oid, rest_of(names, base));
            &&& distinct_walk(end)
            &&& kept_at(end.index, names) == index_with(out.index, names, base, file)
            &&& kept_at(end.contents, names) == content_with(
                objects,
                out.contents,
                names,
                base,
                file,
            )
        }),
    decreases objects.dom().difference(above).len(), 0nat,
{
    lemma_unseen_shrinks(objects.dom(), above, oid);
    let items = tree_items(objects[oid]);
    let rest = rest_of(names, base);
    lemma_trees_reached(objects, root, oid);
    assert(plain_items(items));
    lemma_walked_items(objects, root, items, base, above.insert(oid), out, names);
    lemma_own_modes();
    if rest.len() > 0 && !valid_utf8(rest[0]) {
        assert forall|i: int| 0 <= i < items.len() implies #[trigger] items[i] is Some
            && items[i]->0.name != rest[0] by {
            lemma_walk_readable(objects, items, base, above.insert(oid), out, i);
        }
        lemma_not_named(items, rest[0]);
    }
    assert(file_at(objects, oid, rest) == file_in(objects, items, rest));
}

proof fn lemma_walked_items(
    objects: Map<Seq<u8>, Seq<u8>>,
    root: Seq<u8>,
    items: Seq<Option<EntryModel>>,
    base: Seq<u8>,
    above: Set<Seq<u8>>,
    out: WalkModel,
    names: Seq<Seq<u8>>,
)
    requires
        objects.dom().finite(),
        plain_below(objects, root),
        plain_items(items),
        trees_reached(objects, root, items),
        distinct_walk(out),
        walked_items(objects, items, base, above, out) is Ok,
    ensures
        ({
            let end = walked_items(objects, items, base, above, out)->Ok_0;
            let file = file_in(objects, items, rest_of(names, base));
            &&& distinct_walk(end)
            &&& kept_at(end.index, names) == index_with(out.index, names, base, file)
            &&& kept_at(end.contents, names) == content_with(
                objects,
                out.contents,
                names,
                base,
                file,
            )
        }),
    decreases objects.dom().difference(above).len(), items.len(),
{
    if items.len() > 0 {
        let e = items[0]->0;
        let rest = items.drop_first();
        let parts = components_of(base);
        let tail = rest_of(names, base);
        let here = joined(base, e.name);
        assert(naming(e.name) && position(e.name, 47) is None);
        lemma_joined_components(base, e.name);
        assert(plain_items(rest)) by {
            assert forall|i: int| 0 <= i < rest.len() implies (#[trigger] rest[i] matches Some(x)
                ==> naming(x.name) && position(x.name, 47) is None) by {
                assert(rest[i] == items[i + 1]);
            }
            assert forall|i: int, j: int|
                0 <= i < j < rest.len() && rest[i] is Some && rest[j] is Some implies (
            #[trigger] rest[i])->0.name != (#[trigger] rest[j])->0.name by {
                assert(rest[i] == items[i + 1]);
                assert(rest[j] == items[j + 1]);
            }
        }
        assert(trees_reached(objects, root, rest)) by {
            assert forall|i: int| 0 <= i < rest.len() implies (#[trigger] rest[i] matches Some(x)
                ==> (tree_mode(x.octal) ==> tree_reached(objects, root, x.oid))) by {
                assert(rest[i] == items[i + 1]);
            }
        }
        let next = if tree_mode(e.octal) {
            walked(objects, e.oid, here, above, out)->Ok_0
        } else {
            out.with_file(objects, here, e.oid)
        };
        assert forall|i: int| 0 <= i < rest.len() implies #[trigger] rest[i] is Some
            && rest[i]->0.name != e.name by {
            lemma_walk_readable(objects, items, base, above, out, i + 1);
            assert(rest[i] == items[i + 1]);
            assert(items[0]->0.name != items[i + 1]->0.name);
        }
        lemma_not_named(rest, e.name);
        let below = parts.push(e.name);
        assert(under(names, below) == (under(names, parts) && tail.len() > 0 && tail[0] == e.name))
            by {
            lemma_under_pushed(names, parts, e.name);
        }
        if tree_mode(e.octal) {
            lemma_walked(objects, root, e.oid, here, above, out, names);
            assert(under(names, below) ==> rest_of(names, here) =~= tail.drop_first());
            assert(tail.len() == 1 && under(names, below) ==> file_at(
                objects,
                e.oid,
                rest_of(names, here),
            ) is None) by {
                lemma_own_modes();
            }
        } else {
            lemma_kept_put(out.index, below, e.oid, names);
            if objects.contains_key(e.oid) {
                lemma_kept_put(out.contents, below, objects[e.oid], names);
            }
            assert((names == below) == (under(names, below) && tail.len() == 1)) by {
                if under(names, below) && tail.len() == 1 {
                    assert(names.take(below.len() as int) =~= names);
                }
                assert(below.take(below.len() as int) =~= below);
            }
        }
        lemma_walked_items(objects, root, rest, base, above, next, names);
    }
}

proof fn lemma_under_pushed(names: Seq<Seq<u8>>, parts: Seq<Seq<u8>>, name: Seq<u8>)
    ensures
        under(names, parts.push(name)) == (under(names, parts) && names.skip(
            parts.len() as int,
        ).len() > 0 && names.skip(parts.len() as int)[0] == name),
{
    let below = parts.push(name);
    let n = parts.len() as int;
    if under(names, below) {
        assert(names.take(n + 1)[n] == name);
        assert(names.take(n) =~= names.take(n + 1).take(n));
        assert(below.take(n) =~= parts);
    }
    if under(names, parts) && names.len() > n && names[n] == name {
        assert(names.take(n + 1) =~= names.take(n).push(name));
    }
}

/// A walk meets a file at exactly the paths at which a lookup finds one, with
/// the same id, and has the content of each that is at hand.
pub proof fn lemma_walk_finds(
    objects: Map<Seq<u8>, Seq<u8>>,
    oid: Seq<u8>,
    names: Seq<Seq<u8>>,
)
    requires
        objects.dom().finite(),
        plain_below(objects, oid),
        walked(objects, oid, Seq::empty(), Set::empty(), walk_start()) is Ok,
    ensures
        ({
            let end = walked(objects, oid, Seq::empty(), Set::empty(), walk_start())->Ok_0;
            &&& kept_at(end.index, names) == file_at(objects, oid, names)
            &&& kept_at(end.contents, names) == match file_at(objects, oid, names) {
                Some(target) if objects.contains_key(target) => Some(objects[target]),
                _ => None,
            }
        }),
{
    let base = Seq::<u8>::empty();
    assert(tree_chain(objects, oid, oid, seq![oid]));
    crate::path::lemma_no_components(base);
    lemma_walked(objects, oid, oid, base, Set::empty(), walk_start(), names);
    assert(rest_of(names, base) =~= names);
    assert(names.take(0) =~= components_of(base));
    assert(slot_of(Seq::<(Seq<Seq<u8>>, Seq<u8>)>::empty(), names) is None);
}

} // verus!
