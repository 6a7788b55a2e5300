//! What a directory lists: every entry whose name is text, once.

use vstd::prelude::*;
use vstd::utf8::{decode_utf8, valid_utf8};

use crate::git::entry::{EntryModel, tree_mode};
use crate::git::lists::{lemma_first_named_readable, readable};
use crate::git::objects::lemma_found_below;
use crate::git::repo::{RepoModel, listed};
use crate::outside::tree_items;

verus! {

/// How many of the first `n` entries have names that are text.
pub open spec fn texts_before(es: Seq<EntryModel>, n: int) -> int
    decreases n,
{
    if n <= 0 {
        0
    } else {
        texts_before(es, n - 1) + if valid_utf8(es[n - 1].name) {
            1int
        } else {
            0
        }
    }
}

/// The size of what an entry leads to: that of a file that is at hand.
pub open spec fn size_of(objects: Map<Seq<u8>, Seq<u8>>, e: EntryModel) -> nat {
    if !tree_mode(e.octal) && objects.contains_key(e.oid) {
        objects[e.oid].len()
    } else {
        0
    }
}

proof fn lemma_texts_grow(es: Seq<EntryModel>, i: int, n: int)
    requires
        0 <= i <= n,
    ensures
        0 <= texts_before(es, i) <= texts_before(es, n),
        i < n && valid_utf8(es[i].name) ==> texts_before(es, i) < texts_before(es, n),
    decreases n,
{
    if n > 0 {
        if i < n {
            lemma_texts_grow(es, i, n - 1);
        } else {
            lemma_texts_grow(es, n - 1, n - 1);
        }
    }
}

proof fn lemma_texts_front(es: Seq<EntryModel>, n: int)
    requires
        es.len() > 0,
        0 <= n < es.len(),
    ensures
        texts_before(es.drop_last(), n) == texts_before(es, n),
    decreases n,
{
    if n > 0 {
        lemma_texts_front(es, n - 1);
    }
}

/// Each entry whose name is text is listed, once and in order, with its name,
/// its kind and its size; and nothing else is.
pub proof fn lemma_all_is_listed(objects: Map<Seq<u8>, Seq<u8>>, es: Seq<EntryModel>)
    ensures
        listed(objects, es).len() == texts_before(es, es.len() as int),
        forall|i: int|
            0 <= i < es.len() && valid_utf8((#[trigger] es[i]).name) ==> 0 <= texts_before(es, i)
                < listed(objects, es).len() && listed(objects, es)[texts_before(es, i)] == (
                decode_utf8(es[i].name),
                tree_mode(es[i].octal),
                size_of(objects, es[i]),
            ),
    decreases es.len(),
{
    if es.len() > 0 {
        let front = es.drop_last();
        let n = front.len() as int;
        lemma_all_is_listed(objects, front);
        lemma_texts_front(es, n);
        assert(es[n] == es.last());
        assert forall|i: int| 0 <= i < es.len() && valid_utf8((#[trigger] es[i]).name) implies 0
            <= texts_before(es, i) < listed(objects, es).len() && listed(objects, es)[texts_before(
            es,
            i,
        )] == (decode_utf8(es[i].name), tree_mode(es[i].octal), size_of(objects, es[i])) by {
            lemma_texts_grow(es, i, n + 1);
            if i < n {
                assert(front[i] == es[i]);
                lemma_texts_front(es, i);
                lemma_texts_grow(front, i, n);
            }
        }
    }
}

/// The listing of a directory tells of each entry of its tree whose name is
/// text, in the order of the tree.
pub proof fn lemma_directory_is_listed(m: RepoModel, names: Seq<Seq<u8>>, mode: Seq<u8>, oid: Seq<u8>)
    requires
        m.entry_at(names) matches Ok(Some(t)) && t == (mode, oid),
        tree_mode(mode),
        m.objects.contains_key(oid),
    ensures
        m.listing_at(names) matches Ok(listing) && {
            let es = readable(tree_items(m.objects[oid]));
            &&& listing.len() == texts_before(es, es.len() as int)
            &&& forall|i: int|
                0 <= i < es.len() && valid_utf8((#[trigger] es[i]).name) ==> 0 <= texts_before(es, i)
                    < listing.len() && listing[texts_before(es, i)] == (
                    decode_utf8(es[i].name),
                    tree_mode(es[i].octal),
                    size_of(m.objects, es[i]),
                )
        },
{
    lemma_all_is_listed(m.objects, readable(tree_items(m.objects[oid])));
}

/// What can be looked up in a directory is in its listing, with its kind and
/// its size.
pub proof fn lemma_found_is_listed(m: RepoModel, names: Seq<Seq<u8>>, name: Seq<u8>)
    requires
        m.directory_at(names),
        m.entry_at(names) matches Ok(Some(_)),
        m.entry_at(names.push(name)) matches Ok(Some(_)),
    ensures
        m.listing_at(names) matches Ok(listing) && exists|i: int|
            0 <= i < listing.len() && (#[trigger] listing[i]).0 == decode_utf8(name) && match m.entry_at(
                names.push(name),
            ) {
                Ok(Some(x)) => listing[i].1 == tree_mode(x.0) && (!tree_mode(x.0)
                    && m.objects.contains_key(x.1) ==> listing[i].2 == m.objects[x.1].len()),
                _ => false,
            },
{
    let tree = m.head_tree()->Ok_0.1;
    let t = m.entry_at(names)->Ok_0->0;
    let x = m.entry_at(names.push(name))->Ok_0->0;
    let rest = seq![name];
    crate::git::entry::lemma_own_modes();
    assert(names + rest =~= names.push(name));
    lemma_found_below(m.objects, tree, names, rest);
    let items = tree_items(m.objects[t.1]);
    let es = readable(items);
    lemma_first_named_readable(items, name);
    lemma_first_named_has_name(items, name);
    let e = crate::git::lists::first_named(items, name)->Ok_0->0;
    let k = choose|k: int| 0 <= k < es.len() && es[k] == e;
    lemma_directory_is_listed(m, names, t.0, t.1);
    let listing = m.listing_at(names)->Ok_0;
    assert(valid_utf8(es[k].name));
    assert(listing[texts_before(es, k)].0 == decode_utf8(name));
}

proof fn lemma_first_named_has_name(items: Seq<Option<EntryModel>>, name: Seq<u8>)
    ensures
        crate::git::lists::first_named(items, name) matches Ok(Some(e)) ==> e.name == name,
    decreases items.len(),
{
    if items.len() > 0 {
        lemma_first_named_has_name(items.drop_first(), name);
    }
}

/// A directory of which nothing was fetched yet, or whose tree is not at hand,
/// lists nothing, and so does a path that leads to no directory.
pub proof fn lemma_nothing_is_listed(m: RepoModel, names: Seq<Seq<u8>>)
    requires
        m.head is None || (m.entry_at(names) matches Ok(t) && match t {
            Some(x) => !tree_mode(x.0) || !m.objects.contains_key(x.1),
            None => true,
        }),
    ensures
        m.listing_at(names) matches Ok(listing) && listing.len() == 0,
{
}

} // verus!
