//! Files that are laid out as trees are found in them, and read back.

use vstd::prelude::*;
use vstd::utf8::valid_utf8;

use crate::bytes::position;
use crate::fs::Files;
use crate::git::entry::{
    EntryModel, directory_mode, file_mode, lemma_own_modes, lemma_tree_bytes_unique,
    regular_entries, regular_entry, tree_bytes, tree_mode,
};
use crate::git::lists::{
    ObjectError, distinct_names, first_named, lemma_first_named_present, lemma_pick_is,
    lemma_present_readable, lemma_tree_items, pick,
};
use crate::git::objects::{
    WalkModel, child_tree, entry_of, found, has_all, lemma_commit_tree, lemma_unseen_shrinks,
    tree_chain, tree_reached, walk_start, walked, walked_items,
};
use crate::git::packfile::{OBJ_BLOB, OBJ_TREE, PackError, object_id, objects_of, unpacked};
use crate::git::walk::{file_at, lemma_walk_finds, plain_below, plain_items};
use crate::git_bridge::{
    BridgeError, blobs_of, built_trees, by_depth, bytes_before, change_commit, depth_placed,
    entries_at, entry_put, files_of, grouped, top_dir, with_dirs_above, trees_of, with_subdirs,
};
use crate::outside::{CommitModel, lossy, plain_token, present, tree_items};
use crate::path::{joined, naming, parent_of, plain_name, under};
use crate::path_map::{
    Slots, as_map, distinct_keys, kept_at, lemma_kept_last, lemma_kept_put, lemma_slot_of, put,
    slot_of,
};

verus! {

// ---------------------------------------------------------------------------
// Files that can be laid out
// ---------------------------------------------------------------------------

/// A name that a tree entry and a component of a path can have.
pub open spec fn fit_name(name: Seq<u8>) -> bool {
    &&& naming(name)
    &&& plain_name(name)
    &&& position(name, 47) is None
    &&& position(name, 0) is None
    &&& valid_utf8(name)
}

/// A path of such names, at least one.
pub open spec fn fit_path(path: Seq<Seq<u8>>) -> bool {
    path.len() > 0 && forall|k: int| 0 <= k < path.len() ==> fit_name(#[trigger] path[k])
}

/// All paths are made of such names.
pub open spec fn fit_paths(files: Files) -> bool {
    forall|i: int| 0 <= i < files.len() ==> fit_path((#[trigger] files[i]).0)
}

/// A file is somewhere in the directory `dir`.
pub open spec fn has_file_below(files: Files, dir: Seq<Seq<u8>>) -> bool {
    exists|j: int|
        0 <= j < files.len() && (#[trigger] files[j]).0.len() > dir.len()
            && files[j].0.take(dir.len() as int) == dir
}

/// Files that trees can hold: their paths are distinct and made of names, and
/// no file is a directory too.
pub open spec fn layable(files: Files) -> bool {
    &&& distinct_keys(files)
    &&& fit_paths(files)
    &&& forall|i: int, j: int|
        0 <= i < files.len() && 0 <= j < files.len() && i != j ==> !under(
            (#[trigger] files[j]).0,
            (#[trigger] files[i]).0,
        )
}

// ---------------------------------------------------------------------------
// Entries in the order of their names
// ---------------------------------------------------------------------------

proof fn lemma_before_self(a: Seq<u8>)
    ensures
        !bytes_before(a, a),
    decreases a.len(),
{
    if a.len() > 0 {
        lemma_before_self(a.drop_first());
    }
}

proof fn lemma_before_chain(a: Seq<u8>, b: Seq<u8>, c: Seq<u8>)
    requires
        bytes_before(a, b),
        bytes_before(b, c),
    ensures
        bytes_before(a, c),
    decreases a.len(),
{
    if a.len() > 0 && a[0] == b[0] && b[0] == c[0] {
        lemma_before_chain(a.drop_first(), b.drop_first(), c.drop_first());
    }
}

proof fn lemma_before_total(a: Seq<u8>, b: Seq<u8>)
    requires
        a != b,
    ensures
        bytes_before(a, b) || bytes_before(b, a),
    decreases a.len(),
{
    if a.len() > 0 && b.len() > 0 && a[0] == b[0] {
        if a.drop_first() == b.drop_first() {
            assert(a =~= seq![a[0]] + a.drop_first());
            assert(b =~= seq![b[0]] + b.drop_first());
        }
        lemma_before_total(a.drop_first(), b.drop_first());
    } else if a.len() == 0 && b.len() == 0 {
        assert(a =~= b);
    }
}

spec fn all_after(es: Seq<EntryModel>, name: Seq<u8>) -> bool {
    forall|i: int| 0 <= i < es.len() ==> bytes_before(name, (#[trigger] es[i]).name)
}

spec fn in_name_order(es: Seq<EntryModel>) -> bool
    decreases es.len(),
{
    es.len() > 0 ==> all_after(es.drop_first(), es[0].name) && in_name_order(es.drop_first())
}

proof fn lemma_order_distinct(es: Seq<EntryModel>)
    requires
        in_name_order(es),
    ensures
        distinct_names(es),
    decreases es.len(),
{
    if es.len() > 0 {
        let rest = es.drop_first();
        lemma_order_distinct(rest);
        assert forall|i: int, j: int| 0 <= i < j < es.len() implies (#[trigger] es[i]).name != (
        #[trigger] es[j]).name by {
            assert(rest[j - 1] == es[j]);
            if i == 0 {
                assert(bytes_before(es[0].name, rest[j - 1].name));
                lemma_before_self(es[0].name);
            } else {
                assert(rest[i - 1] == es[i]);
            }
        }
    }
}

proof fn lemma_put_after(es: Seq<EntryModel>, e: EntryModel, name: Seq<u8>)
    requires
        all_after(es, name),
        bytes_before(name, e.name),
    ensures
        all_after(entry_put(es, e), name),
    decreases es.len(),
{
    if es.len() > 0 && e.name != es[0].name && !bytes_before(e.name, es[0].name) {
        let rest = es.drop_first();
        assert forall|i: int| 0 <= i < rest.len() implies bytes_before(
            name,
            (#[trigger] rest[i]).name,
        ) by {
            assert(rest[i] == es[i + 1]);
        }
        lemma_put_after(rest, e, name);
        let put = entry_put(rest, e);
        let all = entry_put(es, e);
        assert forall|i: int| 0 <= i < all.len() implies bytes_before(
            name,
            (#[trigger] all[i]).name,
        ) by {
            if i > 0 {
                assert(all[i] == put[i - 1]);
            } else {
                assert(all[0] == es[0]);
            }
        }
    } else {
        let all = entry_put(es, e);
        assert forall|i: int| 0 <= i < all.len() implies bytes_before(
            name,
            (#[trigger] all[i]).name,
        ) by {
            if es.len() > 0 && e.name != es[0].name && i > 0 {
                assert(all[i] == es[i - 1]);
            } else if i > 0 {
                assert(all[i] == es[i]);
            }
        }
    }
}

proof fn lemma_entry_put(es: Seq<EntryModel>, e: EntryModel, name: Seq<u8>)
    requires
        in_name_order(es),
        regular_entries(es),
        regular_entry(e),
    ensures
        in_name_order(entry_put(es, e)),
        regular_entries(entry_put(es, e)),
        pick(entry_put(es, e), name) == if name == e.name {
            Some(e)
        } else {
            pick(es, name)
        },
    decreases es.len(),
{
    let all = entry_put(es, e);
    if es.len() == 0 {
        assert(all.drop_first() =~= Seq::empty());
        assert(in_name_order(all.drop_first()));
        assert(pick(all.drop_first(), name) is None);
    } else {
        let rest = es.drop_first();
        assert(regular_entry(es[0]));
        if e.name == es[0].name {
            assert(all.drop_first() =~= rest);
            assert forall|i: int| 0 <= i < all.len() implies regular_entry(#[trigger] all[i]) by {
                if i > 0 {
                    assert(all[i] == es[i]);
                }
            }
        } else if bytes_before(e.name, es[0].name) {
            assert(all.drop_first() =~= es);
            assert forall|i: int| 0 <= i < es.len() implies bytes_before(
                e.name,
                (#[trigger] es[i]).name,
            ) by {
                if i > 0 {
                    assert(rest[i - 1] == es[i]);
                    lemma_before_chain(e.name, es[0].name, es[i].name);
                }
            }
            assert forall|i: int| 0 <= i < all.len() implies regular_entry(#[trigger] all[i]) by {
                if i > 0 {
                    assert(all[i] == es[i - 1]);
                }
            }
        } else {
            assert forall|i: int| 0 <= i < rest.len() implies regular_entry(#[trigger] rest[i]) by {
                assert(rest[i] == es[i + 1]);
            }
            lemma_entry_put(rest, e, name);
            lemma_before_total(e.name, es[0].name);
            lemma_put_after(rest, e, es[0].name);
            let put = entry_put(rest, e);
            assert(all.drop_first() =~= put);
            assert forall|i: int| 0 <= i < all.len() implies regular_entry(#[trigger] all[i]) by {
                if i > 0 {
                    assert(all[i] == put[i - 1]);
                }
            }
        }
    }
}

// ---------------------------------------------------------------------------
// Slots
// ---------------------------------------------------------------------------

proof fn lemma_kept_is<W>(s: Slots<W>, key: Seq<Seq<u8>>) -> (i: int)
    requires
        kept_at(s, key) is Some,
    ensures
        0 <= i < s.len(),
        s[i].0 == key,
        kept_at(s, key) == Some(s[i].1),
{
    lemma_slot_of(s, key);
    slot_of(s, key)->0
}

// ---------------------------------------------------------------------------
// Grouping
// ---------------------------------------------------------------------------

spec fn file_entry(name: Seq<u8>, data: Seq<u8>) -> EntryModel {
    EntryModel { octal: file_mode(), name, oid: object_id(OBJ_BLOB, data) }
}

spec fn dir_entry(name: Seq<u8>, oid: Seq<u8>) -> EntryModel {
    EntryModel { octal: directory_mode(), name, oid }
}

spec fn file_entry_at(files: Files, dir: Seq<Seq<u8>>, name: Seq<u8>) -> Option<EntryModel> {
    match kept_at(files, dir.push(name)) {
        Some(data) => Some(file_entry(name, data)),
        None => None,
    }
}

proof fn lemma_file_in_last(files: Files, dir: Seq<Seq<u8>>)
    requires
        files.len() > 0,
        fit_paths(files),
    ensures
        has_file_below(files, dir) == (under(files.last().0.drop_last(), dir) || has_file_below(
            files.drop_last(),
            dir,
        )),
{
    let front = files.drop_last();
    if has_file_below(front, dir) {
        let j = choose|j: int|
            0 <= j < front.len() && (#[trigger] front[j]).0.len() > dir.len()
                && front[j].0.take(dir.len() as int) == dir;
        assert(files[j] == front[j]);
    }
    if has_file_below(files, dir) {
        let j = choose|j: int|
            0 <= j < files.len() && (#[trigger] files[j]).0.len() > dir.len()
                && files[j].0.take(dir.len() as int) == dir;
        if j < files.len() - 1 {
            assert(front[j] == files[j]);
        }
    }
    let path = files[files.len() - 1].0;
    assert(fit_path(path));
    if dir.len() < path.len() {
        assert(path.drop_last().take(dir.len() as int) =~= path.take(dir.len() as int));
    }
}

proof fn lemma_dirs_above(
    groups: Slots<Seq<EntryModel>>,
    from: Seq<Seq<u8>>,
    dir: Seq<Seq<u8>>,
)
    requires
        distinct_keys(groups),
        forall|k: int| 0 <= k < from.len() ==> fit_name(#[trigger] from[k]),
    ensures
        distinct_keys(with_dirs_above(groups, from)),
        entries_at(with_dirs_above(groups, from), dir) == entries_at(groups, dir),
        kept_at(with_dirs_above(groups, from), dir) is Some <==> kept_at(groups, dir) is Some || (
        from.len() > dir.len() && under(from, dir)),
    decreases from.len(),
{
    if from.len() > 0 {
        assert(fit_name(from[0]));
        assert(!top_dir(from));
        let up = parent_of(from);
        assert forall|k: int| 0 <= k < up.len() implies fit_name(#[trigger] up[k]) by {
            assert(up[k] == from[k]);
        }
        let next = put(groups, up, entries_at(groups, up));
        lemma_kept_put(groups, up, entries_at(groups, up), dir);
        lemma_dirs_above(next, up, dir);
        if dir.len() <= up.len() {
            assert(up.take(dir.len() as int) =~= from.take(dir.len() as int));
        }
        if dir.len() == up.len() {
            assert(up.take(dir.len() as int) =~= up);
        }
    }
}

proof fn lemma_grouped(files: Files, dir: Seq<Seq<u8>>, name: Seq<u8>)
    requires
        distinct_keys(files),
        fit_paths(files),
    ensures
        grouped(files) is Ok,
        ({
            let groups = grouped(files)->Ok_0;
            let es = entries_at(groups, dir);
            &&& distinct_keys(groups)
            &&& (kept_at(groups, dir) is Some) == has_file_below(files, dir)
            &&& in_name_order(es)
            &&& regular_entries(es)
            &&& pick(es, name) == file_entry_at(files, dir, name)
        }),
    decreases files.len(),
{
    if files.len() == 0 {
        assert(grouped(files)->Ok_0 =~= Seq::empty());
        assert(kept_at(files, dir.push(name)) is None);
    } else {
        let front = files.drop_last();
        let (path, data) = files.last();
        assert(fit_path(files[files.len() - 1].0));
        let last = path.last();
        assert(fit_name(path[path.len() - 1]));
        lemma_kept_last(files, dir.push(name));
        assert(fit_paths(front)) by {
            assert forall|i: int| 0 <= i < front.len() implies fit_path((#[trigger] front[i]).0) by {
                assert(front[i] == files[i]);
            }
        }
        lemma_grouped(front, dir, name);
        lemma_file_in_last(files, dir);
        let before = grouped(front)->Ok_0;
        let at = parent_of(path);
        lemma_grouped(front, at, name);
        let e = file_entry(last, data);
        lemma_own_modes();
        assert(regular_entry(e));
        assert(lossy(last) == last);
        let es = entry_put(entries_at(before, at), e);
        lemma_entry_put(entries_at(before, at), e, name);
        lemma_kept_put(before, at, es, dir);
        assert forall|k: int| 0 <= k < at.len() implies fit_name(#[trigger] at[k]) by {
            assert(at[k] == path[k]);
        }
        let filled = put(before, at, es);
        lemma_dirs_above(filled, at, dir);
        assert(grouped(files)->Ok_0 == with_dirs_above(filled, at));
        assert(at.take(at.len() as int) =~= at);
        if dir.len() == at.len() && under(at, dir) {
            assert(dir =~= at);
        }
        assert((path == dir.push(name)) == (at == dir && last == name)) by {
            if at == dir && last == name {
                assert(path =~= at.push(last));
            }
            if path == dir.push(name) {
                assert(at =~= dir);
            }
        }
    }
}

// ---------------------------------------------------------------------------
// The directories by depth
// ---------------------------------------------------------------------------

spec fn descending(dirs: Seq<Seq<Seq<u8>>>) -> bool {
    forall|i: int, j: int|
        0 <= i < j < dirs.len() ==> (#[trigger] dirs[i]).len() >= (#[trigger] dirs[j]).len()
}

proof fn lemma_depth_placed(dirs: Seq<Seq<Seq<u8>>>, dir: Seq<Seq<u8>>)
    requires
        descending(dirs),
        dirs.no_duplicates(),
        !dirs.contains(dir),
    ensures
        descending(depth_placed(dirs, dir)),
        depth_placed(dirs, dir).no_duplicates(),
        forall|x: Seq<Seq<u8>>| #[trigger]
            depth_placed(dirs, dir).contains(x) <==> (dirs.contains(x) || x == dir),
    decreases dirs.len(),
{
    let all = depth_placed(dirs, dir);
    if dirs.len() == 0 || dirs.last().len() >= dir.len() {
        assert forall|i: int, j: int| 0 <= i < j < all.len() implies (#[trigger] all[i]).len() >= (
        #[trigger] all[j]).len() by {
            assert(all[i] == dirs[i]);
            if j < dirs.len() {
                assert(all[j] == dirs[j]);
            } else if i < dirs.len() - 1 {
                assert(dirs[i].len() >= dirs[dirs.len() - 1].len());
            }
        }
        assert forall|x: Seq<Seq<u8>>| #[trigger] all.contains(x) <==> (dirs.contains(x) || x
            == dir) by {
            if dirs.contains(x) {
                let k = choose|k: int| 0 <= k < dirs.len() && dirs[k] == x;
                assert(all[k] == x);
            }
            if x == dir {
                assert(all[dirs.len() as int] == x);
            }
            if all.contains(x) {
                let k = choose|k: int| 0 <= k < all.len() && all[k] == x;
                if k < dirs.len() {
                    assert(dirs[k] == x);
                }
            }
        }
        assert(all.no_duplicates()) by {
            assert forall|i: int, j: int| 0 <= i < j < all.len() implies all[i] != all[j] by {
                assert(all[i] == dirs[i]);
                assert(dirs.contains(dirs[i]));
                if j < dirs.len() {
                    assert(all[j] == dirs[j]);
                }
            }
        }
    } else {
        let front = dirs.drop_last();
        let last = dirs.last();
        assert forall|i: int, j: int| 0 <= i < j < front.len() implies (#[trigger] front[i]).len()
            >= (#[trigger] front[j]).len() by {
            assert(front[i] == dirs[i] && front[j] == dirs[j]);
        }
        assert(!front.contains(dir)) by {
            if front.contains(dir) {
                let k = choose|k: int| 0 <= k < front.len() && front[k] == dir;
                assert(dirs[k] == dir);
            }
        }
        lemma_depth_placed(front, dir);
        let put = depth_placed(front, dir);
        assert(all == put.push(last));
        assert forall|x: Seq<Seq<u8>>| put.contains(x) implies x.len() >= last.len() && x
            != last by {
            assert(front.contains(x) || x == dir);
            if front.contains(x) {
                let k = choose|k: int| 0 <= k < front.len() && front[k] == x;
                assert(dirs[k] == x);
                assert(dirs[k].len() >= dirs[dirs.len() - 1].len());
            }
        }
        assert forall|i: int, j: int| 0 <= i < j < all.len() implies (#[trigger] all[i]).len() >= (
        #[trigger] all[j]).len() by {
            assert(all[i] == put[i]);
            assert(put.contains(put[i]));
            if j < put.len() {
                assert(all[j] == put[j]);
            }
        }
        assert(all.no_duplicates()) by {
            assert forall|i: int, j: int| 0 <= i < j < all.len() implies all[i] != all[j] by {
                assert(all[i] == put[i]);
                assert(put.contains(put[i]));
                if j < put.len() {
                    assert(all[j] == put[j]);
                }
            }
        }
        assert forall|x: Seq<Seq<u8>>| #[trigger] all.contains(x) <==> (dirs.contains(x) || x
            == dir) by {
            if all.contains(x) {
                let k = choose|k: int| 0 <= k < all.len() && all[k] == x;
                if k < put.len() {
                    assert(put[k] == x);
                    assert(put.contains(x));
                    if front.contains(x) {
                        let m = choose|m: int| 0 <= m < front.len() && front[m] == x;
                        assert(dirs[m] == x);
                    }
                } else {
                    assert(dirs[dirs.len() - 1] == x);
                }
            }
            if dirs.contains(x) || x == dir {
                if dirs.contains(x) {
                    let m = choose|m: int| 0 <= m < dirs.len() && dirs[m] == x;
                    if m < front.len() {
                        assert(front[m] == x);
                        assert(front.contains(x));
                    }
                }
                if x == last {
                    assert(all[put.len() as int] == x);
                } else {
                    assert(put.contains(x));
                    let k = choose|k: int| 0 <= k < put.len() && put[k] == x;
                    assert(all[k] == x);
                }
            }
        }
    }
}

proof fn lemma_by_depth(groups: Slots<Seq<EntryModel>>)
    requires
        distinct_keys(groups),
    ensures
        descending(by_depth(groups)),
        by_depth(groups).no_duplicates(),
        forall|x: Seq<Seq<u8>>| #[trigger]
            by_depth(groups).contains(x) <==> kept_at(groups, x) is Some,
    decreases groups.len(),
{
    if groups.len() == 0 {
        assert(by_depth(groups) =~= Seq::empty());
        assert forall|x: Seq<Seq<u8>>| #[trigger] by_depth(groups).contains(x) <==> kept_at(
            groups,
            x,
        ) is Some by {
            assert(slot_of(groups, x) is None);
        }
    } else {
        let front = groups.drop_last();
        let last = groups.last().0;
        lemma_kept_last(groups, last);
        lemma_by_depth(front);
        assert(kept_at(front, last) is None) by {
            lemma_slot_of(front, last);
            match slot_of(front, last) {
                Some(i) => {
                    assert(front[i] == groups[i]);
                    assert(groups[i].0 != groups[groups.len() - 1].0);
                },
                None => {},
            }
        }
        lemma_depth_placed(by_depth(front), last);
        assert forall|x: Seq<Seq<u8>>| #[trigger] by_depth(groups).contains(x) <==> kept_at(
            groups,
            x,
        ) is Some by {
            lemma_kept_last(groups, x);
            assert(by_depth(front).contains(x) <==> kept_at(front, x) is Some);
        }
    }
}

// ---------------------------------------------------------------------------
// The trees
// ---------------------------------------------------------------------------

spec fn fit_slots(trees: Slots<Seq<u8>>) -> bool {
    forall|i: int|
        0 <= i < trees.len() ==> (#[trigger] trees[i]).1.len() == 20 && (trees[i].0.len() > 0
            ==> fit_name(trees[i].0.last()))
}

proof fn lemma_with_subdirs(
    es: Seq<EntryModel>,
    trees: Slots<Seq<u8>>,
    dir: Seq<Seq<u8>>,
    name: Seq<u8>,
)
    requires
        in_name_order(es),
        regular_entries(es),
        distinct_keys(trees),
        fit_slots(trees),
    ensures
        with_subdirs(es, trees, dir) is Ok,
        ({
            let all = with_subdirs(es, trees, dir)->Ok_0;
            &&& in_name_order(all)
            &&& regular_entries(all)
            &&& pick(all, name) == match kept_at(trees, dir.push(name)) {
                Some(oid) => Some(dir_entry(name, oid)),
                None => pick(es, name),
            }
        }),
    decreases trees.len(),
{
    if trees.len() == 0 {
        assert(kept_at(trees, dir.push(name)) is None);
    } else {
        let front = trees.drop_last();
        let (sub, oid) = trees.last();
        lemma_kept_last(trees, dir.push(name));
        assert forall|i: int| 0 <= i < front.len() implies (#[trigger] front[i]).1.len() == 20 && (
        front[i].0.len() > 0 ==> fit_name(front[i].0.last())) by {
            assert(front[i] == trees[i]);
        }
        lemma_with_subdirs(es, front, dir, name);
        assert(trees[trees.len() - 1].1.len() == 20);
        if under(sub, dir) && sub.len() == dir.len() + 1 {
            let last = sub.last();
            assert(fit_name(trees[trees.len() - 1].0.last()));
            assert(seq![last].last() == last);
            assert(lossy(last) == last);
            let e = dir_entry(last, oid);
            lemma_own_modes();
            assert(regular_entry(e));
            lemma_entry_put(with_subdirs(es, front, dir)->Ok_0, e, name);
            assert(sub =~= dir.push(last));
            assert((sub == dir.push(name)) == (last == name)) by {
                assert(dir.push(name).last() == name);
            }
        } else {
            assert(sub != dir.push(name)) by {
                assert(dir.push(name).take(dir.len() as int) =~= dir);
            }
        }
    }
}

spec fn level(
    dirs: Seq<Seq<Seq<u8>>>,
    groups: Slots<Seq<EntryModel>>,
    dir: Seq<Seq<u8>>,
) -> Seq<EntryModel>
    decreases dirs.len(),
{
    if dirs.len() == 0 {
        Seq::empty()
    } else if dirs.last() == dir {
        with_subdirs(entries_at(groups, dir), trees_of(dirs.drop_last(), groups)->Ok_0.0, dir)->Ok_0
    } else {
        level(dirs.drop_last(), groups, dir)
    }
}

spec fn fit_groups(groups: Slots<Seq<EntryModel>>) -> bool {
    forall|dir: Seq<Seq<u8>>|
        #![trigger entries_at(groups, dir)]
        in_name_order(entries_at(groups, dir)) && regular_entries(entries_at(groups, dir))
}

spec fn fit_dirs(dirs: Seq<Seq<Seq<u8>>>) -> bool {
    &&& descending(dirs)
    &&& dirs.no_duplicates()
    &&& forall|i: int|
        0 <= i < dirs.len() && (#[trigger] dirs[i]).len() > 0 ==> fit_name(dirs[i].last())
}

proof fn lemma_fit_dirs_front(dirs: Seq<Seq<Seq<u8>>>)
    requires
        fit_dirs(dirs),
        dirs.len() > 0,
    ensures
        fit_dirs(dirs.drop_last()),
        !dirs.drop_last().contains(dirs.last()),
        forall|x: Seq<Seq<u8>>| #[trigger]
            dirs.contains(x) <==> (dirs.drop_last().contains(x) || x == dirs.last()),
{
    let front = dirs.drop_last();
    assert forall|i: int, j: int| 0 <= i < j < front.len() implies (#[trigger] front[i]).len() >= (
    #[trigger] front[j]).len() by {
        assert(front[i] == dirs[i] && front[j] == dirs[j]);
    }
    assert forall|i: int| 0 <= i < front.len() && (#[trigger] front[i]).len() > 0 implies fit_name(
        front[i].last(),
    ) by {
        assert(front[i] == dirs[i]);
    }
    if front.contains(dirs.last()) {
        let k = choose|k: int| 0 <= k < front.len() && front[k] == dirs.last();
        assert(dirs[k] == dirs[dirs.len() - 1]);
    }
    assert forall|x: Seq<Seq<u8>>| #[trigger] dirs.contains(x) <==> (front.contains(x) || x
        == dirs.last()) by {
        if dirs.contains(x) {
            let k = choose|k: int| 0 <= k < dirs.len() && dirs[k] == x;
            if k < front.len() {
                assert(front[k] == x);
            }
        }
        if front.contains(x) {
            let k = choose|k: int| 0 <= k < front.len() && front[k] == x;
            assert(dirs[k] == x);
        }
        if x == dirs.last() {
            assert(dirs[dirs.len() - 1] == x);
        }
    }
}

proof fn lemma_trees_of(dirs: Seq<Seq<Seq<u8>>>, groups: Slots<Seq<EntryModel>>)
    requires
        fit_dirs(dirs),
        fit_groups(groups),
    ensures
        trees_of(dirs, groups) is Ok,
        distinct_keys(trees_of(dirs, groups)->Ok_0.0),
        fit_slots(trees_of(dirs, groups)->Ok_0.0),
        forall|x: Seq<Seq<u8>>| #[trigger]
            dirs.contains(x) <==> kept_at(trees_of(dirs, groups)->Ok_0.0, x) is Some,
    decreases dirs.len(),
{
    if dirs.len() == 0 {
        let trees = trees_of(dirs, groups)->Ok_0.0;
        assert(trees =~= Seq::empty());
        assert forall|x: Seq<Seq<u8>>| #[trigger] dirs.contains(x) <==> kept_at(trees, x) is Some by {
            assert(slot_of(trees, x) is None);
        }
    } else {
        let front = dirs.drop_last();
        let dir = dirs.last();
        lemma_fit_dirs_front(dirs);
        lemma_trees_of(front, groups);
        let (before, list) = trees_of(front, groups)->Ok_0;
        let es = entries_at(groups, dir);
        lemma_with_subdirs(es, before, dir, Seq::empty());
        let oid = object_id(OBJ_TREE, tree_bytes(with_subdirs(es, before, dir)->Ok_0));
        let trees = put(before, dir, oid);
        assert(trees_of(dirs, groups)->Ok_0.0 == trees);
        assert(distinct_keys(trees)) by {
            lemma_kept_put(before, dir, oid, dir);
        }
        assert forall|x: Seq<Seq<u8>>| #[trigger] dirs.contains(x) <==> kept_at(trees, x) is Some by {
            lemma_kept_put(before, dir, oid, x);
            assert(front.contains(x) <==> kept_at(before, x) is Some);
        }
        assert(kept_at(before, dir) is None) by {
            assert(front.contains(dir) <==> kept_at(before, dir) is Some);
        }
        assert(trees == before.push((dir, oid)));
        assert(dirs[dirs.len() - 1].len() > 0 ==> fit_name(dirs[dirs.len() - 1].last()));
        assert forall|i: int| 0 <= i < trees.len() implies (#[trigger] trees[i]).1.len() == 20 && (
        trees[i].0.len() > 0 ==> fit_name(trees[i].0.last())) by {
            if i < before.len() {
                assert(trees[i] == before[i]);
            }
        }
    }
}

proof fn lemma_level(
    dirs: Seq<Seq<Seq<u8>>>,
    groups: Slots<Seq<EntryModel>>,
    dir: Seq<Seq<u8>>,
    name: Seq<u8>,
)
    requires
        fit_dirs(dirs),
        fit_groups(groups),
        dirs.contains(dir),
    ensures
        ({
            let (trees, list) = trees_of(dirs, groups)->Ok_0;
            let es = level(dirs, groups, dir);
            &&& in_name_order(es)
            &&& regular_entries(es)
            &&& list.contains((OBJ_TREE, tree_bytes(es)))
            &&& kept_at(trees, dir) == Some(object_id(OBJ_TREE, tree_bytes(es)))
            &&& pick(es, name) == match kept_at(trees, dir.push(name)) {
                Some(oid) => Some(dir_entry(name, oid)),
                None => pick(entries_at(groups, dir), name),
            }
        }),
    decreases dirs.len(),
{
    let front = dirs.drop_last();
    let last = dirs.last();
    lemma_fit_dirs_front(dirs);
    lemma_trees_of(front, groups);
    let (before, made) = trees_of(front, groups)->Ok_0;
    lemma_with_subdirs(entries_at(groups, last), before, last, name);
    let all = with_subdirs(entries_at(groups, last), before, last)->Ok_0;
    let oid = object_id(OBJ_TREE, tree_bytes(all));
    lemma_kept_put(before, last, oid, dir);
    lemma_kept_put(before, last, oid, dir.push(name));
    let list = made.push((OBJ_TREE, tree_bytes(all)));
    assert(trees_of(dirs, groups)->Ok_0 == (put(before, last, oid), list));
    if last == dir {
        assert(dir.push(name).len() != dir.len());
        assert(list[made.len() as int] == (OBJ_TREE, tree_bytes(all)));
    } else {
        lemma_level(front, groups, dir, name);
        let k = choose|k: int| 0 <= k < front.len() && front[k] == dir;
        assert(dirs[k].len() >= dirs[dirs.len() - 1].len());
        assert(last != dir.push(name));
        let es = level(front, groups, dir);
        let m = choose|m: int| 0 <= m < made.len() && made[m] == (OBJ_TREE, tree_bytes(es));
        assert(list[m] == (OBJ_TREE, tree_bytes(es)));
    }
}

// ---------------------------------------------------------------------------
// Files laid out
// ---------------------------------------------------------------------------

#[verifier::opaque]
spec fn tree_at(files: Files, dir: Seq<Seq<u8>>) -> Seq<EntryModel> {
    let groups = grouped(files)->Ok_0;
    level(by_depth(groups), groups, dir)
}

spec fn id_at(files: Files, dir: Seq<Seq<u8>>) -> Seq<u8> {
    object_id(OBJ_TREE, tree_bytes(tree_at(files, dir)))
}

proof fn lemma_dir_fits(files: Files, dir: Seq<Seq<u8>>)
    requires
        fit_paths(files),
        has_file_below(files, dir),
    ensures
        forall|k: int| 0 <= k < dir.len() ==> fit_name(#[trigger] dir[k]),
{
    let j = choose|j: int|
        0 <= j < files.len() && (#[trigger] files[j]).0.len() > dir.len()
            && files[j].0.take(dir.len() as int) == dir;
    assert(fit_path(files[j].0));
    assert forall|k: int| 0 <= k < dir.len() implies fit_name(#[trigger] dir[k]) by {
        assert(files[j].0[k] == dir[k]);
    }
}

proof fn lemma_groups_fit(files: Files)
    requires
        distinct_keys(files),
        fit_paths(files),
    ensures
        grouped(files) is Ok,
        distinct_keys(grouped(files)->Ok_0),
        fit_groups(grouped(files)->Ok_0),
        fit_dirs(by_depth(grouped(files)->Ok_0)),
        forall|dir: Seq<Seq<u8>>| #[trigger]
            by_depth(grouped(files)->Ok_0).contains(dir) <==> has_file_below(files, dir),
{
    let groups = grouped(files)->Ok_0;
    let dirs = by_depth(groups);
    lemma_grouped(files, Seq::empty(), Seq::empty());
    assert forall|dir: Seq<Seq<u8>>|
        #![trigger entries_at(groups, dir)]
        in_name_order(entries_at(groups, dir)) && regular_entries(entries_at(groups, dir)) by {
        lemma_grouped(files, dir, Seq::empty());
    }
    lemma_by_depth(groups);
    assert forall|dir: Seq<Seq<u8>>| #[trigger] dirs.contains(dir) <==> has_file_below(files, dir) by {
        lemma_grouped(files, dir, Seq::empty());
    }
    assert forall|i: int| 0 <= i < dirs.len() && (#[trigger] dirs[i]).len() > 0 implies fit_name(
        dirs[i].last(),
    ) by {
        assert(dirs.contains(dirs[i]));
        lemma_dir_fits(files, dirs[i]);
        assert(fit_name(dirs[i][dirs[i].len() - 1]));
    }
}

proof fn lemma_laid(files: Files, dir: Seq<Seq<u8>>, name: Seq<u8>)
    requires
        distinct_keys(files),
        fit_paths(files),
        has_file_below(files, dir),
    ensures
        ({
            let groups = grouped(files)->Ok_0;
            let es = tree_at(files, dir);
            &&& in_name_order(es)
            &&& regular_entries(es)
            &&& trees_of(by_depth(groups), groups) is Ok
            &&& trees_of(by_depth(groups), groups)->Ok_0.1.contains((OBJ_TREE, tree_bytes(es)))
            &&& kept_at(trees_of(by_depth(groups), groups)->Ok_0.0, dir) == Some(id_at(files, dir))
            &&& pick(es, name) == if has_file_below(files, dir.push(name)) {
                Some(dir_entry(name, id_at(files, dir.push(name))))
            } else {
                file_entry_at(files, dir, name)
            }
        }),
{
    reveal(tree_at);
    let groups = grouped(files)->Ok_0;
    let dirs = by_depth(groups);
    lemma_groups_fit(files);
    lemma_trees_of(dirs, groups);
    assert(dirs.contains(dir));
    lemma_level(dirs, groups, dir, name);
    lemma_grouped(files, dir, name);
    let below = dir.push(name);
    assert(dirs.contains(below) <==> has_file_below(files, below));
    assert(dirs.contains(below) <==> kept_at(trees_of(dirs, groups)->Ok_0.0, below) is Some);
    if has_file_below(files, below) {
        lemma_level(dirs, groups, below, name);
    }
}

proof fn lemma_root(files: Files)
    requires
        distinct_keys(files),
        fit_paths(files),
        has_file_below(files, Seq::empty()),
    ensures
        built_trees(files) == Ok::<(Seq<u8>, Seq<(u8, Seq<u8>)>), BridgeError>(
            (
                id_at(files, Seq::empty()),
                blobs_of(files) + trees_of(
                    by_depth(grouped(files)->Ok_0),
                    grouped(files)->Ok_0,
                )->Ok_0.1,
            ),
        ),
{
    lemma_groups_fit(files);
    lemma_laid(files, Seq::empty(), Seq::empty());
}

spec fn laid_in(files: Files, objects: Map<Seq<u8>, Seq<u8>>) -> bool {
    &&& layable(files)
    &&& has_file_below(files, Seq::empty())
    &&& has_all(built_trees(files)->Ok_0.1, objects)
}

proof fn lemma_tree_kept(files: Files, objects: Map<Seq<u8>, Seq<u8>>, dir: Seq<Seq<u8>>)
    requires
        laid_in(files, objects),
        has_file_below(files, dir),
    ensures
        objects.contains_key(id_at(files, dir)),
        objects[id_at(files, dir)] == tree_bytes(tree_at(files, dir)),
        tree_items(objects[id_at(files, dir)]) == present(tree_at(files, dir)),
        regular_entries(tree_at(files, dir)),
        distinct_names(tree_at(files, dir)),
{
    lemma_root(files);
    lemma_laid(files, dir, Seq::empty());
    let made = trees_of(by_depth(grouped(files)->Ok_0), grouped(files)->Ok_0)->Ok_0.1;
    let es = tree_at(files, dir);
    let k = choose|k: int| 0 <= k < made.len() && made[k] == (OBJ_TREE, tree_bytes(es));
    let list = blobs_of(files) + made;
    assert(list[blobs_of(files).len() + k] == (OBJ_TREE, tree_bytes(es)));
    lemma_tree_items(es);
    lemma_order_distinct(es);
}

proof fn lemma_file_kept(files: Files, objects: Map<Seq<u8>, Seq<u8>>, path: Seq<Seq<u8>>)
    requires
        laid_in(files, objects),
        kept_at(files, path) is Some,
    ensures
        ({
            let data = kept_at(files, path)->0;
            &&& objects.contains_key(object_id(OBJ_BLOB, data))
            &&& objects[object_id(OBJ_BLOB, data)] == data
        }),
{
    lemma_root(files);
    let i = lemma_kept_is(files, path);
    let made = trees_of(by_depth(grouped(files)->Ok_0), grouped(files)->Ok_0)->Ok_0.1;
    let list = blobs_of(files) + made;
    assert(blobs_of(files)[i] == (OBJ_BLOB, files[i].1));
    assert(list[i] == (OBJ_BLOB, files[i].1));
}

/// A file on the way to a file is that file.
proof fn lemma_no_file_above(files: Files, path: Seq<Seq<u8>>, longer: Seq<Seq<u8>>)
    requires
        layable(files),
        kept_at(files, path) is Some,
        under(longer, path),
        kept_at(files, longer) is Some || has_file_below(files, longer),
    ensures
        longer == path,
        !has_file_below(files, longer),
{
    let i = lemma_kept_is(files, path);
    if has_file_below(files, longer) {
        let j = choose|j: int|
            0 <= j < files.len() && (#[trigger] files[j]).0.len() > longer.len()
                && files[j].0.take(longer.len() as int) == longer;
        assert(files[j].0.take(path.len() as int) =~= longer.take(path.len() as int));
        assert(under(files[j].0, files[i].0));
        assert(i != j);
    }
    if kept_at(files, longer) is Some {
        let j = lemma_kept_is(files, longer);
        assert(under(files[j].0, files[i].0));
    }
}

/// What is in a path that leads to a file has files directly in it.
proof fn lemma_dir_above(files: Files, path: Seq<Seq<u8>>, n: int)
    requires
        layable(files),
        kept_at(files, path) is Some,
        0 <= n < path.len(),
    ensures
        has_file_below(files, path.take(n)),
        forall|k: int| 0 <= k < path.len() ==> fit_name(#[trigger] path[k]),
{
    let i = lemma_kept_is(files, path);
    assert(fit_path(files[i].0));
    assert(files[i].0.take(n).len() == n);
}

proof fn lemma_dir_above_dir(files: Files, dir: Seq<Seq<u8>>, n: int)
    requires
        layable(files),
        has_file_below(files, dir),
        0 <= n <= dir.len(),
    ensures
        has_file_below(files, dir.take(n)),
{
    let j = choose|j: int|
        0 <= j < files.len() && (#[trigger] files[j]).0.len() > dir.len()
            && files[j].0.take(dir.len() as int) == dir;
    assert(files[j].0.take(n) =~= dir.take(n));
}

spec fn blob_at(files: Files, path: Seq<Seq<u8>>) -> Option<Seq<u8>> {
    match kept_at(files, path) {
        Some(data) => Some(object_id(OBJ_BLOB, data)),
        None => None,
    }
}

spec fn laid_entry(files: Files, dir: Seq<Seq<u8>>, name: Seq<u8>) -> Option<EntryModel> {
    if has_file_below(files, dir.push(name)) {
        Some(dir_entry(name, id_at(files, dir.push(name))))
    } else {
        file_entry_at(files, dir, name)
    }
}

proof fn lemma_laid_named(
    files: Files,
    objects: Map<Seq<u8>, Seq<u8>>,
    dir: Seq<Seq<u8>>,
    name: Seq<u8>,
)
    requires
        laid_in(files, objects),
        has_file_below(files, dir),
    ensures
        objects.contains_key(id_at(files, dir)),
        first_named(tree_items(objects[id_at(files, dir)]), name) == Ok::<
            Option<EntryModel>,
            ObjectError,
        >(laid_entry(files, dir, name)),
{
    lemma_tree_kept(files, objects, dir);
    lemma_laid(files, dir, name);
    lemma_first_named_present(tree_at(files, dir), name);
}

proof fn lemma_laid_last(files: Files, dir: Seq<Seq<u8>>, name: Seq<u8>)
    requires
        layable(files),
    ensures
        blob_at(files, dir.push(name)) == match laid_entry(files, dir, name) {
            Some(e) => if tree_mode(e.octal) {
                None
            } else {
                Some(e.oid)
            },
            None => None,
        },
{
    let below = dir.push(name);
    lemma_own_modes();
    if has_file_below(files, below) && kept_at(files, below) is Some {
        assert(below.take(below.len() as int) =~= below);
        lemma_no_file_above(files, below, below);
    }
}

proof fn lemma_laid_deeper(
    files: Files,
    dir: Seq<Seq<u8>>,
    names: Seq<Seq<u8>>,
)
    requires
        layable(files),
        names.len() > 1,
        kept_at(files, dir + names) is Some,
    ensures
        has_file_below(files, dir.push(names[0])),
{
    let whole = dir + names;
    let below = dir.push(names[0]);
    assert(whole.take(below.len() as int) =~= below);
    lemma_dir_above(files, whole, below.len() as int);
}

proof fn lemma_laid_found(
    files: Files,
    objects: Map<Seq<u8>, Seq<u8>>,
    dir: Seq<Seq<u8>>,
    names: Seq<Seq<u8>>,
)
    requires
        laid_in(files, objects),
        has_file_below(files, dir),
    ensures
        file_at(objects, id_at(files, dir), names) == blob_at(files, dir + names),
    decreases names.len(),
{
    let whole = dir + names;
    if names.len() == 0 {
        lemma_own_modes();
        assert(whole =~= dir);
        if kept_at(files, dir) is Some {
            assert(dir.take(dir.len() as int) =~= dir);
            lemma_no_file_above(files, dir, dir);
        }
    } else {
        let name = names[0];
        let below = dir.push(name);
        let rest = names.drop_first();
        if !valid_utf8(name) {
            if kept_at(files, whole) is Some {
                lemma_dir_above(files, whole, 0);
                assert(whole[dir.len() as int] == name);
            }
        } else {
            lemma_laid_named(files, objects, dir, name);
            if names.len() == 1 {
                assert(whole =~= below);
                lemma_laid_last(files, dir, name);
            } else {
                lemma_own_modes();
                if has_file_below(files, below) {
                    assert(whole =~= below + rest);
                    lemma_laid_found(files, objects, below, rest);
                } else if kept_at(files, whole) is Some {
                    lemma_laid_deeper(files, dir, names);
                }
            }
        }
    }
}

// ---------------------------------------------------------------------------
// Walking what was laid out
// ---------------------------------------------------------------------------

spec fn longest(files: Files) -> nat
    decreases files.len(),
{
    if files.len() == 0 {
        0
    } else if files.last().0.len() > longest(files.drop_last()) {
        files.last().0.len()
    } else {
        longest(files.drop_last())
    }
}

proof fn lemma_longest(files: Files, i: int)
    requires
        0 <= i < files.len(),
    ensures
        files[i].0.len() <= longest(files),
    decreases files.len(),
{
    if i < files.len() - 1 {
        assert(files.drop_last()[i] == files[i]);
        lemma_longest(files.drop_last(), i);
    }
}

/// No directory has the tree of one that it is in: it would go on for ever.
proof fn lemma_no_repeat(
    files: Files,
    objects: Map<Seq<u8>, Seq<u8>>,
    outer: Seq<Seq<u8>>,
    inner: Seq<Seq<u8>>,
)
    requires
        laid_in(files, objects),
        has_file_below(files, outer),
        has_file_below(files, inner),
        outer.len() < inner.len(),
        under(inner, outer),
    ensures
        id_at(files, outer) != id_at(files, inner),
    decreases longest(files) - inner.len(),
{
    if id_at(files, outer) == id_at(files, inner) {
        let n = outer.len() as int;
        let name = inner[n];
        let a = outer.push(name);
        let d = inner.push(name);
        lemma_tree_kept(files, objects, outer);
        lemma_tree_kept(files, objects, inner);
        lemma_tree_bytes_unique(tree_at(files, outer), tree_at(files, inner));
        assert(inner.take(n + 1) =~= inner.take(n).push(name));
        lemma_dir_above_dir(files, inner, n + 1);
        lemma_laid(files, outer, name);
        lemma_laid(files, inner, name);
        lemma_own_modes();
        assert(has_file_below(files, a));
        assert(has_file_below(files, d));
        assert(id_at(files, a) == id_at(files, d));
        assert(d.take(n + 1) =~= a);
        let j = choose|j: int|
            0 <= j < files.len() && (#[trigger] files[j]).0.len() > d.len()
                && files[j].0.take(d.len() as int) == d;
        lemma_longest(files, j);
        lemma_no_repeat(files, objects, a, d);
    }
}

spec fn trees_above(files: Files, dir: Seq<Seq<u8>>, above: Set<Seq<u8>>) -> bool {
    forall|x: Seq<u8>| #[trigger]
        above.contains(x) ==> exists|m: int|
            0 <= m < dir.len() && x == id_at(files, #[trigger] dir.take(m))
}

/// What an entry of a tree that was laid out is.
proof fn lemma_laid_entry(
    files: Files,
    objects: Map<Seq<u8>, Seq<u8>>,
    dir: Seq<Seq<u8>>,
    e: EntryModel,
)
    requires
        laid_in(files, objects),
        has_file_below(files, dir),
        tree_at(files, dir).contains(e),
    ensures
        fit_name(e.name),
        tree_mode(e.octal) ==> has_file_below(files, dir.push(e.name)) && e.oid == id_at(
            files,
            dir.push(e.name),
        ),
{
    let es = tree_at(files, dir);
    let below = dir.push(e.name);
    lemma_tree_kept(files, objects, dir);
    lemma_pick_is(es, e);
    lemma_laid(files, dir, e.name);
    lemma_own_modes();
    assert(below[dir.len() as int] == e.name);
    if has_file_below(files, below) {
        lemma_dir_fits(files, below);
    } else {
        let i = lemma_kept_is(files, below);
        assert(fit_path(files[i].0));
    }
}

proof fn lemma_walk_ok(
    files: Files,
    objects: Map<Seq<u8>, Seq<u8>>,
    dir: Seq<Seq<u8>>,
    base: Seq<u8>,
    above: Set<Seq<u8>>,
    out: WalkModel,
)
    requires
        objects.dom().finite(),
        laid_in(files, objects),
        has_file_below(files, dir),
        trees_above(files, dir, above),
    ensures
        walked(objects, id_at(files, dir), base, above, out) is Ok,
    decreases objects.dom().difference(above).len(), 0nat,
{
    let oid = id_at(files, dir);
    lemma_tree_kept(files, objects, dir);
    if above.contains(oid) {
        let m = choose|m: int| 0 <= m < dir.len() && oid == id_at(files, #[trigger] dir.take(m));
        lemma_dir_above_dir(files, dir, m);
        assert(under(dir, dir.take(m)));
        lemma_no_repeat(files, objects, dir.take(m), dir);
    }
    lemma_unseen_shrinks(objects.dom(), above, oid);
    let es = tree_at(files, dir);
    assert(present(es).skip(0) =~= present(es));
    lemma_walk_items_ok(files, objects, dir, 0, base, above.insert(oid), out);
}

proof fn lemma_walk_items_ok(
    files: Files,
    objects: Map<Seq<u8>, Seq<u8>>,
    dir: Seq<Seq<u8>>,
    k: int,
    base: Seq<u8>,
    above: Set<Seq<u8>>,
    out: WalkModel,
)
    requires
        objects.dom().finite(),
        laid_in(files, objects),
        has_file_below(files, dir),
        forall|x: Seq<u8>| #[trigger]
            above.contains(x) ==> x == id_at(files, dir) || exists|m: int|
                0 <= m < dir.len() && x == id_at(files, #[trigger] dir.take(m)),
        0 <= k <= tree_at(files, dir).len(),
    ensures
        walked_items(objects, present(tree_at(files, dir)).skip(k), base, above, out) is Ok,
    decreases objects.dom().difference(above).len(), tree_at(files, dir).len() - k,
{
    let es = tree_at(files, dir);
    let items = present(es).skip(k);
    if k < es.len() {
        let e = es[k];
        assert(items[0] == Some(e));
        assert(items.drop_first() =~= present(es).skip(k + 1));
        assert(es.contains(e));
        lemma_laid_entry(files, objects, dir, e);
        if tree_mode(e.octal) {
            let below = dir.push(e.name);
            assert(trees_above(files, below, above)) by {
                assert forall|x: Seq<u8>| #[trigger] above.contains(x) implies exists|m: int|
                    0 <= m < below.len() && x == id_at(files, #[trigger] below.take(m)) by {
                    if x == id_at(files, dir) {
                        assert(below.take(dir.len() as int) =~= dir);
                    } else {
                        let m = choose|m: int|
                            0 <= m < dir.len() && x == id_at(files, #[trigger] dir.take(m));
                        assert(below.take(m) =~= dir.take(m));
                    }
                }
            }
            lemma_walk_ok(files, objects, below, joined(base, e.name), above, out);
            let next = walked(objects, e.oid, joined(base, e.name), above, out)->Ok_0;
            lemma_walk_items_ok(files, objects, dir, k + 1, base, above, next);
        } else {
            let next = out.with_file(objects, joined(base, e.name), e.oid);
            lemma_walk_items_ok(files, objects, dir, k + 1, base, above, next);
        }
    }
}

spec fn tree_of_dir(files: Files, oid: Seq<u8>, dir: Seq<Seq<u8>>) -> bool {
    has_file_below(files, dir) && oid == id_at(files, dir)
}

proof fn lemma_chain_laid(
    files: Files,
    objects: Map<Seq<u8>, Seq<u8>>,
    oid: Seq<u8>,
    chain: Seq<Seq<u8>>,
)
    requires
        laid_in(files, objects),
        tree_chain(objects, id_at(files, Seq::empty()), oid, chain),
    ensures
        exists|dir: Seq<Seq<u8>>| tree_of_dir(files, oid, dir),
    decreases chain.len(),
{
    if chain.len() == 1 {
        assert(tree_of_dir(files, oid, Seq::empty()));
    } else {
        let front = chain.drop_last();
        let a = front.last();
        assert forall|i: int| 0 <= i < front.len() - 1 implies child_tree(
            objects,
            #[trigger] front[i],
            front[i + 1],
        ) by {
            assert(front[i] == chain[i] && front[i + 1] == chain[i + 1]);
        }
        lemma_chain_laid(files, objects, a, front);
        let dir = choose|dir: Seq<Seq<u8>>| tree_of_dir(files, a, dir);
        assert(child_tree(objects, chain[chain.len() - 2], chain[chain.len() - 2 + 1]));
        let e = choose|e: EntryModel| #[trigger]
            entry_of(objects, a, e) && tree_mode(e.octal) && e.oid == oid;
        lemma_tree_kept(files, objects, dir);
        lemma_present_readable(tree_at(files, dir));
        lemma_laid_entry(files, objects, dir, e);
        assert(tree_of_dir(files, oid, dir.push(e.name)));
    }
}

proof fn lemma_laid_plain(files: Files, objects: Map<Seq<u8>, Seq<u8>>)
    requires
        laid_in(files, objects),
    ensures
        plain_below(objects, id_at(files, Seq::empty())),
{
    let root = id_at(files, Seq::empty());
    assert forall|t: Seq<u8>| #[trigger]
        tree_reached(objects, root, t) && objects.contains_key(t) implies plain_items(
        tree_items(objects[t]),
    ) by {
        let chain = choose|chain: Seq<Seq<u8>>| tree_chain(objects, root, t, chain);
        lemma_chain_laid(files, objects, t, chain);
        let dir = choose|dir: Seq<Seq<u8>>| tree_of_dir(files, t, dir);
        lemma_tree_kept(files, objects, dir);
        let es = tree_at(files, dir);
        let items = present(es);
        assert forall|i: int| 0 <= i < items.len() implies (#[trigger] items[i] matches Some(e)
            ==> naming(e.name) && position(e.name, 47) is None) by {
            assert(es.contains(es[i]));
            lemma_laid_entry(files, objects, dir, es[i]);
        }
        assert forall|i: int, j: int|
            0 <= i < j < items.len() && items[i] is Some && items[j] is Some implies (
        #[trigger] items[i])->0.name != (#[trigger] items[j])->0.name by {
            assert(es[i].name != es[j].name);
        }
    }
}

// ---------------------------------------------------------------------------
// Reading back
// ---------------------------------------------------------------------------

/// Files that were laid out as trees are found in them: the file at a path,
/// where there is one, and nothing at any other.
pub proof fn lemma_built_files_found(
    files: Files,
    objects: Map<Seq<u8>, Seq<u8>>,
    names: Seq<Seq<u8>>,
)
    requires
        layable(files),
        files.len() > 0,
        has_all(built_trees(files)->Ok_0.1, objects),
    ensures
        built_trees(files) is Ok,
        match kept_at(files, names) {
            Some(data) => file_at(objects, built_trees(files)->Ok_0.0, names) == Some(
                object_id(OBJ_BLOB, data),
            ) && objects.contains_key(object_id(OBJ_BLOB, data)) && objects[object_id(
                OBJ_BLOB,
                data,
            )] == data,
            None => file_at(objects, built_trees(files)->Ok_0.0, names) is None,
        },
{
    lemma_root_holds_files(files);
    lemma_root(files);
    lemma_laid_found(files, objects, Seq::empty(), names);
    assert(Seq::<Seq<u8>>::empty() + names =~= names);
    if kept_at(files, names) is Some {
        lemma_file_kept(files, objects, names);
    }
}

proof fn lemma_root_holds_files(files: Files)
    requires
        layable(files),
        files.len() > 0,
    ensures
        has_file_below(files, Seq::empty()),
{
    assert(fit_path(files[0].0));
    assert(files[0].0.take(0) =~= Seq::empty());
}

/// Files that were laid out as trees are walked again: a walk from the root,
/// through any objects that hold what was laid out, succeeds and gives every
/// file under its full path, and nothing else.
pub proof fn lemma_built_trees_walked(files: Files, objects: Map<Seq<u8>, Seq<u8>>)
    requires
        layable(files),
        files.len() > 0,
        objects.dom().finite(),
        has_all(built_trees(files)->Ok_0.1, objects),
    ensures
        built_trees(files) is Ok,
        walked(
            objects,
            built_trees(files)->Ok_0.0,
            Seq::empty(),
            Set::empty(),
            walk_start(),
        ) matches Ok(out) && as_map(out.contents) == as_map(files),
{
    lemma_root_holds_files(files);
    lemma_root(files);
    let root = built_trees(files)->Ok_0.0;
    lemma_walk_ok(files, objects, Seq::empty(), Seq::empty(), Set::empty(), walk_start());
    lemma_laid_plain(files, objects);
    let got = walked(objects, root, Seq::empty(), Set::empty(), walk_start())->Ok_0.contents;
    assert forall|key: Seq<Seq<u8>>| #[trigger] kept_at(got, key) == kept_at(files, key) by {
        lemma_walk_finds(objects, root, key);
        lemma_built_files_found(files, objects, key);
    }
    assert forall|key: Seq<Seq<u8>>| #[trigger] as_map(got).contains_key(key) <==> as_map(
        files,
    ).contains_key(key) by {
        assert(kept_at(got, key) == kept_at(files, key));
    }
    assert forall|key: Seq<Seq<u8>>| as_map(got).contains_key(key) implies #[trigger] as_map(
        got,
    )[key] == as_map(files)[key] by {
        assert(kept_at(got, key) == kept_at(files, key));
    }
    assert(as_map(got) =~= as_map(files));
}

/// Files that were laid out as trees are walked again in the objects that were
/// made for them, where no two of these have one id.
pub proof fn lemma_built_objects_walked(files: Files)
    requires
        layable(files),
        files.len() > 0,
        ids_apart(built_trees(files)->Ok_0.1),
    ensures
        built_trees(files) matches Ok((root, list)) && (walked(
            objects_of(list),
            root,
            Seq::empty(),
            Set::empty(),
            walk_start(),
        ) matches Ok(out) && as_map(out.contents) == as_map(files)),
{
    let list = built_trees(files)->Ok_0.1;
    lemma_objects_of(list);
    lemma_built_trees_walked(files, objects_of(list));
}

/// The files of a commit are read back from it: reading a commit that was
/// built of them gives the same files under the same paths.
pub proof fn lemma_commit_reads_back(
    files: Files,
    parent: Option<Seq<u8>>,
    name: Seq<u8>,
    email: Seq<u8>,
    message: Seq<u8>,
    seconds: int,
    objects: Map<Seq<u8>, Seq<u8>>,
)
    requires
        layable(files),
        files.len() > 0,
        parent matches Some(p) ==> p.len() == 20,
        plain_token(name),
        plain_token(email),
        objects.dom().finite(),
        has_all(change_commit(files, parent, name, email, message, seconds)->Ok_0.1, objects),
    ensures
        change_commit(files, parent, name, email, message, seconds) is Ok,
        ({
            let head = change_commit(files, parent, name, email, message, seconds)->Ok_0.0;
            &&& files_of(head, objects) is Ok
            &&& as_map(files_of(head, objects)->Ok_0) == as_map(files)
        }),
{
    lemma_root_holds_files(files);
    lemma_root(files);
    let (root, list) = built_trees(files)->Ok_0;
    let (head, all) = change_commit(files, parent, name, email, message, seconds)->Ok_0;
    let commit = CommitModel {
        tree: root,
        parent,
        name,
        email,
        seconds,
        message: message + crate::bytes::text("\n"),
    };
    lemma_commit_tree(commit);
    assert(all[list.len() as int].1 == commit.bytes());
    assert(has_all(list, objects)) by {
        assert forall|i: int| 0 <= i < list.len() implies objects.contains_key(
            object_id((#[trigger] list[i]).0, list[i].1),
        ) && objects[object_id(list[i].0, list[i].1)] == list[i].1 by {
            assert(all[i] == list[i]);
        }
    }
    lemma_built_trees_walked(files, objects);
}

/// No two objects with different contents have one id.
pub open spec fn ids_apart(list: Seq<(u8, Seq<u8>)>) -> bool {
    forall|i: int, j: int|
        0 <= i < j < list.len() && object_id((#[trigger] list[i]).0, list[i].1) == object_id(
            (#[trigger] list[j]).0,
            list[j].1,
        ) ==> list[i].1 == list[j].1
}

proof fn lemma_objects_of(list: Seq<(u8, Seq<u8>)>)
    requires
        ids_apart(list),
    ensures
        has_all(list, objects_of(list)),
        objects_of(list).dom().finite(),
    decreases list.len(),
{
    if list.len() > 0 {
        let front = list.drop_last();
        assert forall|i: int, j: int|
            0 <= i < j < front.len() && object_id((#[trigger] front[i]).0, front[i].1) == object_id(
                (#[trigger] front[j]).0,
                front[j].1,
            ) implies front[i].1 == front[j].1 by {
            assert(front[i] == list[i] && front[j] == list[j]);
        }
        lemma_objects_of(front);
        let all = objects_of(list);
        assert forall|i: int| 0 <= i < list.len() implies all.contains_key(
            object_id((#[trigger] list[i]).0, list[i].1),
        ) && all[object_id(list[i].0, list[i].1)] == list[i].1 by {
            if i < front.len() {
                assert(front[i] == list[i]);
                let last = list[list.len() - 1];
                if object_id(list[i].0, list[i].1) == object_id(last.0, last.1) {
                    assert(list[i].1 == last.1);
                }
            }
        }
    }
}

/// What a pack that was made of a commit and all its objects gives when it is
/// read: the files that the commit was built of.
pub open spec fn pack_reads_back(
    files: Files,
    head: Seq<u8>,
    list: Seq<(u8, Seq<u8>)>,
    packfile: Seq<u8>,
) -> bool {
    layable(files) && files.len() > 0 && ids_apart(list) && list.len() < 0x1_0000_0000
        ==> match unpacked(packfile) {
        Ok(objects) => files_of(head, objects) is Ok && as_map(files_of(head, objects)->Ok_0)
            == as_map(files),
        Err(_) => false,
    }
}

/// A pack that holds what a commit was built with reads back.
pub proof fn lemma_pack_reads_back(
    files: Files,
    parent: Option<Seq<u8>>,
    name: Seq<u8>,
    email: Seq<u8>,
    message: Seq<u8>,
    seconds: int,
    packfile: Seq<u8>,
)
    requires
        parent matches Some(p) ==> p.len() == 20,
        plain_token(name),
        plain_token(email),
        change_commit(files, parent, name, email, message, seconds) is Ok,
        ({
            let list = change_commit(files, parent, name, email, message, seconds)->Ok_0.1;
            list.len() < 0x1_0000_0000 ==> unpacked(packfile) == Ok::<
                Map<Seq<u8>, Seq<u8>>,
                PackError,
            >(objects_of(list))
        }),
    ensures
        ({
            let (head, list) = change_commit(files, parent, name, email, message, seconds)->Ok_0;
            pack_reads_back(files, head, list, packfile)
        }),
{
    let (head, list) = change_commit(files, parent, name, email, message, seconds)->Ok_0;
    if layable(files) && files.len() > 0 && ids_apart(list) && list.len() < 0x1_0000_0000 {
        lemma_objects_of(list);
        lemma_commit_reads_back(files, parent, name, email, message, seconds, objects_of(list));
    }
}

} // verus!
