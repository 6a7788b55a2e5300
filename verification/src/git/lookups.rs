//! What a path leads to, told by the entries of the trees on its way.

use vstd::prelude::*;
use vstd::utf8::valid_utf8;

use crate::git::entry::{EntryModel, directory_mode, tree_mode};
use crate::git::lists::{ObjectError, TargetModel, first_named};
use crate::git::objects::found;
use crate::outside::tree_items;

verus! {

/// The first `n` items can be read, and none of them has this name.
pub open spec fn not_among(items: Seq<Option<EntryModel>>, n: int, name: Seq<u8>) -> bool {
    forall|i: int| 0 <= i < n ==> (#[trigger] items[i] matches Some(e) && e.name != name)
}

proof fn lemma_first(items: Seq<Option<EntryModel>>, name: Seq<u8>, k: int)
    requires
        0 <= k <= items.len(),
        not_among(items, k, name),
    ensures
        k == items.len() ==> first_named(items, name) == Ok::<Option<EntryModel>, ObjectError>(None),
        k < items.len() && items[k] is None ==> first_named(items, name) == Err::<
            Option<EntryModel>,
            ObjectError,
        >(ObjectError::BadTree),
        k < items.len() && (items[k] matches Some(e) && e.name == name) ==> first_named(items, name)
            == Ok::<Option<EntryModel>, ObjectError>(items[k]),
    decreases k,
{
    if k > 0 {
        let rest = items.drop_first();
        assert(items[0] is Some);
        assert forall|i: int| 0 <= i < k - 1 implies (#[trigger] rest[i] matches Some(e) && e.name
            != name) by {
            assert(rest[i] == items[i + 1]);
        }
        lemma_first(rest, name, k - 1);
        if k < items.len() {
            assert(rest[k - 1] == items[k]);
        }
    }
}

/// A name leads to the first entry that has it: to its mode and its id.
pub proof fn lemma_name_is_found(
    objects: Map<Seq<u8>, Seq<u8>>,
    oid: Seq<u8>,
    name: Seq<u8>,
    k: int,
)
    requires
        objects.contains_key(oid),
        valid_utf8(name),
        0 <= k <= tree_items(objects[oid]).len(),
        not_among(tree_items(objects[oid]), k, name),
    ensures
        ({
            let items = tree_items(objects[oid]);
            if k == items.len() {
                found(objects, oid, seq![name]) == Ok::<Option<TargetModel>, ObjectError>(None)
            } else {
                match items[k] {
                    None => found(objects, oid, seq![name]) == Err::<
                        Option<TargetModel>,
                        ObjectError,
                    >(ObjectError::BadTree),
                    Some(e) => e.name == name ==> found(objects, oid, seq![name]) == Ok::<
                        Option<TargetModel>,
                        ObjectError,
                    >(Some((e.octal, e.oid))),
                }
            }
        }),
{
    lemma_first(tree_items(objects[oid]), name, k);
}

/// A path leads on from where its first name leads: through a directory, and
/// behind anything else to nothing. The path without names leads to the tree.
pub proof fn lemma_path_leads_on(
    objects: Map<Seq<u8>, Seq<u8>>,
    oid: Seq<u8>,
    name: Seq<u8>,
    rest: Seq<Seq<u8>>,
)
    requires
        rest.len() > 0,
    ensures
        found(objects, oid, Seq::empty()) == Ok::<Option<TargetModel>, ObjectError>(
            Some((directory_mode(), oid)),
        ),
        found(objects, oid, seq![name] + rest) == match found(objects, oid, seq![name]) {
            Err(e) => Err::<Option<TargetModel>, ObjectError>(e),
            Ok(None) => Ok(None),
            Ok(Some(t)) => if tree_mode(t.0) {
                found(objects, t.1, rest)
            } else {
                Ok(None)
            },
        },
{
    let all = seq![name] + rest;
    assert(all[0] == name);
    assert(all.drop_first() =~= rest);
    assert(seq![name][0] == name);
}

/// A name that is not UTF-8, and a tree that is not there, cannot be looked
/// up.
pub proof fn lemma_what_cannot_be_looked_up(
    objects: Map<Seq<u8>, Seq<u8>>,
    oid: Seq<u8>,
    names: Seq<Seq<u8>>,
)
    requires
        names.len() > 0,
    ensures
        !valid_utf8(names[0]) ==> found(objects, oid, names) == Err::<
            Option<TargetModel>,
            ObjectError,
        >(ObjectError::NotUtf8),
        valid_utf8(names[0]) && !objects.contains_key(oid) ==> found(objects, oid, names) == Err::<
            Option<TargetModel>,
            ObjectError,
        >(ObjectError::MissingTree),
{
}

} // verus!
