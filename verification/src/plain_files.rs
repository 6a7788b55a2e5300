//! What holds of a repository as a plain map of files.

use vstd::prelude::*;
use vstd::utf8::{encode_utf8, valid_utf8};

use crate::bytes::text;
use crate::fs::{
    BatchModel, DirEntryModel, Files, any_under, copied, copy_batch, dir_created, dir_listing,
    dir_marker, dir_of, dir_removed, directory_in, files_under, handed_over, has_dir_name, keys_of,
    left_trimmed, lemma_dir_removed, lemma_moved_files, lemma_put_all, lemma_renamed_dir,
    lemma_take_all, lemma_under_kept, metadata_of, moved, opened, plain_below, put_all, read_piece,
    remove_dir_batch, rename_batch, renamed, right_trimmed, tree_path, without_markers, written,
};
use crate::git::entry::tree_mode;
use crate::git::history::{commit_reads, lemma_commit_reads, made_by};
use crate::git::objects::found;
use crate::git::packfile::{OBJ_COMMIT, object_id, pack_bytes};
use crate::git::readiness::lemma_body_packs;
use crate::git::transport::{PktError, RefError, RefModel, lemma_hex4, pkt_bytes};
use crate::git::walk::lemma_walk_finds;
use crate::git_bridge::{
    BridgeError, BridgeModel, BridgePushModel, built_trees, change_commit, changed, files_of,
    one_delete, one_write, strict_line, strict_refs, throttled,
};
use crate::outside::{commit_tree, hex_of, zlib_deflated};
use crate::path::{components_of, file_name_of, under};
use crate::path_map::{
    distinct_keys, kept_at, lemma_kept_put, lemma_slot_is, lemma_slot_of, slot_of,
};

verus! {

// ---------------------------------------------------------------------------
// Looking
// ---------------------------------------------------------------------------

/// A file is a file with its length; what is strictly above a file is a
/// directory, where no file is there; and so is the root. Of anything else
/// nothing is told.
pub proof fn lemma_what_is_told(s: Files, path: Seq<Seq<u8>>)
    requires
        distinct_keys(s),
    ensures
        path.len() > 0 ==> match kept_at(s, path) {
            Some(data) => metadata_of(s, path) matches Some(m) && !m.is_dir && m.len
                == data.len() as u64,
            None => if any_under(s, path) {
                metadata_of(s, path) matches Some(m) && m.is_dir && m.len == 0
            } else {
                metadata_of(s, path) is None
            },
        },
        path.len() == 0 ==> (metadata_of(s, path) matches Some(m) && m.is_dir),
{
    lemma_slot_of(s, path);
}

/// Each file below a directory shows in its listing: by the component that
/// follows the directory's path, unless that is the marker's.
pub proof fn lemma_files_are_listed(s: Files, whole: Files, path: Seq<Seq<u8>>, i: int)
    requires
        0 <= i < s.len(),
        under(s[i].0, path),
        s[i].0.len() > path.len(),
        crate::outside::lossy(s[i].0[path.len() as int]) != dir_marker(),
    ensures
        has_dir_name(
            dir_listing(s, whole, path),
            crate::outside::lossy(s[i].0[path.len() as int]),
        ),
    decreases s.len(),
{
    let front = s.drop_last();
    let before = dir_listing(front, whole, path);
    let after = dir_listing(s, whole, path);
    let name = crate::outside::lossy(s[i].0[path.len() as int]);
    if i < front.len() {
        assert(front[i] == s[i]);
        lemma_files_are_listed(front, whole, path, i);
        let k = choose|k: int| 0 <= k < before.len() && (#[trigger] before[k]).name == name;
        assert(after[k] == before[k]);
    } else if !has_dir_name(before, name) {
        assert(after[before.len() as int].name == name);
    } else {
        let k = choose|k: int| 0 <= k < before.len() && (#[trigger] before[k]).name == name;
        assert(after[k] == before[k]);
    }
}

/// The entry shows this file.
pub open spec fn shows(e: DirEntryModel, whole: Files, path: Seq<Seq<u8>>, key: Seq<Seq<u8>>) -> bool {
    &&& under(key, path)
    &&& key.len() > path.len()
    &&& e.name == crate::outside::lossy(key[path.len() as int])
    &&& e.name != dir_marker()
    &&& e.is_dir == (key.len() > path.len() + 1)
    &&& e.is_dir ==> e.len == 0
    &&& !e.is_dir && valid_utf8(key.last()) && key.last() != seq![47u8] && key.last() != seq![46u8]
        ==> match kept_at(whole, key) {
        Some(data) => e.len == data.len() as u64,
        None => true,
    }
}

/// Each entry of a listing is there because of a file below the directory: a
/// directory where the file is deeper, else the file itself with its length.
/// No name is listed twice.
pub proof fn lemma_entries_are_of_files(s: Files, whole: Files, path: Seq<Seq<u8>>)
    ensures
        forall|k: int|
            0 <= k < dir_listing(s, whole, path).len() ==> exists|i: int|
                0 <= i < s.len() && shows(
                    #[trigger] dir_listing(s, whole, path)[k],
                    whole,
                    path,
                    (#[trigger] s[i]).0,
                ),
        forall|j: int, k: int|
            0 <= j < k < dir_listing(s, whole, path).len() ==> (#[trigger] dir_listing(
                s,
                whole,
                path,
            )[j]).name != (#[trigger] dir_listing(s, whole, path)[k]).name,
    decreases s.len(),
{
    if s.len() > 0 {
        let front = s.drop_last();
        let before = dir_listing(front, whole, path);
        let after = dir_listing(s, whole, path);
        lemma_entries_are_of_files(front, whole, path);
        let key = s.last().0;
        assert forall|k: int| 0 <= k < after.len() implies exists|i: int|
            0 <= i < s.len() && shows(#[trigger] after[k], whole, path, (#[trigger] s[i]).0) by {
            if k < before.len() {
                assert(after[k] == before[k]);
                let i = choose|i: int|
                    0 <= i < front.len() && shows(before[k], whole, path, (#[trigger] front[i]).0);
                assert(s[i] == front[i]);
                assert(shows(after[k], whole, path, s[i].0));
            } else {
                let n = s.len() - 1;
                assert(s[n] == s.last());
                if valid_utf8(key.last()) && key.last() != seq![47u8] && key.last() != seq![46u8]
                    && key.len() == path.len() + 1 {
                    assert(key =~= path + seq![key.last()]) by {
                        assert(key.take(path.len() as int) == path);
                        assert forall|x: int| 0 <= x < path.len() implies key[x] == path[x] by {
                            assert(key.take(path.len() as int)[x] == key[x]);
                        }
                    }
                    assert(crate::path::parts_joined(path, seq![key.last()]) == key);
                }
                assert(shows(after[k], whole, path, s[n].0));
            }
        }
        assert forall|j: int, k: int| 0 <= j < k < after.len() implies (#[trigger] after[j]).name
            != (#[trigger] after[k]).name by {
            if k < before.len() {
                assert(after[j] == before[j] && after[k] == before[k]);
            } else {
                assert(after[j] == before[j]);
                assert(!has_dir_name(before, after[k].name));
            }
        }
    }
}

/// A path is listed where it is a directory or has entries, and with all of
/// them.
pub proof fn lemma_directories_are_listed(s: Files, path: Seq<Seq<u8>>)
    ensures
        directory_in(s, path) ==> dir_of(s, path) == Some(dir_listing(s, s, path)),
        dir_of(s, path) is None ==> !directory_in(s, path) && dir_listing(s, s, path).len() == 0,
{
}

// ---------------------------------------------------------------------------
// Open files
// ---------------------------------------------------------------------------

/// A file that is opened to be read has its content, and can only be where it
/// is there. One that is opened to be written has it too, unless it is written
/// anew or was not there.
pub proof fn lemma_opened(s: Files, path: Seq<Seq<u8>>, create: bool)
    ensures
        opened(s, path, false, false, create) == kept_at(s, path),
        opened(s, path, true, true, create) == Some(Seq::<u8>::empty()),
        opened(s, path, true, false, true) == Some(Seq::<u8>::empty()),
        kept_at(s, path) matches Some(data) ==> opened(s, path, true, false, false) == Some(data),
        kept_at(s, path) is None ==> opened(s, path, true, false, false) == Some(Seq::<u8>::empty()),
{
}

/// What is read of a file are its bytes from there on, as many as were asked
/// for or as there are; and two reads in a row give what one of both sizes
/// does.
pub proof fn lemma_reading_in_pieces(data: Seq<u8>, start: int, a: int, b: int)
    requires
        0 <= start,
        0 <= a,
        0 <= b,
    ensures
        ({
            let x = read_piece(data, start, a);
            &&& start + a <= data.len() ==> x.len() == a
            &&& start <= data.len() < start + a ==> x.len() == data.len() - start
            &&& start >= data.len() ==> x.len() == 0
            &&& forall|i: int| 0 <= i < x.len() ==> #[trigger] x[i] == data[start + i]
            &&& x + read_piece(data, start + x.len(), b) == read_piece(data, start, a + b)
        }),
{
    let x = read_piece(data, start, a);
    assert(x + read_piece(data, start + x.len(), b) =~= read_piece(data, start, a + b));
}

/// A step leads where it says, as long as that can be counted; not before the
/// start, and not beyond the largest number.
pub proof fn lemma_steps(start: usize, offset: i64)
    requires
        -(usize::MAX as int) <= offset <= usize::MAX as int,
    ensures
        0 <= start + offset <= usize::MAX ==> moved(start as int, offset as int) == start + offset,
        start + offset < 0 ==> moved(start as int, offset as int) == 0,
        start + offset > usize::MAX ==> moved(start as int, offset as int) == usize::MAX,
{
    if offset >= 0 {
        vstd::arithmetic::div_mod::lemma_small_mod(offset as nat, (usize::MAX + 1) as nat);
    } else {
        vstd::arithmetic::div_mod::lemma_small_mod((-offset) as nat, (usize::MAX + 1) as nat);
    }
}

// ---------------------------------------------------------------------------
// What is committed
// ---------------------------------------------------------------------------

/// A commit of changes has what is written, unless it is deleted too; what is
/// deleted is gone; and all else is as it was.
pub proof fn lemma_changes_are_made(files: Files, batch: BatchModel, key: Seq<Seq<u8>>)
    requires
        distinct_keys(files),
        distinct_keys(batch.writes),
    ensures
        kept_at(changed(files, batch), key) == if batch.deletes.contains(key) {
            None
        } else {
            match kept_at(batch.writes, key) {
                Some(data) => Some(data),
                None => kept_at(files, key),
            }
        },
        distinct_keys(changed(files, batch)),
{
    lemma_put_all(files, batch.writes, key);
    lemma_take_all(put_all(files, batch.writes), batch.deletes, key);
}

/// Writing one file changes that file, and no other; deleting one takes out
/// that file, and no other.
pub proof fn lemma_one_change(
    files: Files,
    path: Seq<Seq<u8>>,
    data: Seq<u8>,
    key: Seq<Seq<u8>>,
)
    requires
        distinct_keys(files),
    ensures
        kept_at(changed(files, one_write(path, data)), key) == if key == path {
            Some(data)
        } else {
            kept_at(files, key)
        },
        kept_at(changed(files, one_delete(path)), key) == if key == path {
            None
        } else {
            kept_at(files, key)
        },
{
    let write = one_write(path, data);
    let delete = one_delete(path);
    lemma_changes_are_made(files, write, key);
    lemma_changes_are_made(files, delete, key);
    assert(slot_of(write.writes, key) == if key == path {
        Some(0int)
    } else {
        None
    }) by {
        lemma_slot_of(write.writes, key);
        if key == path {
            lemma_slot_is(write.writes, 0);
        }
    }
    assert(slot_of(delete.writes, key) is None);
    assert(delete.deletes.contains(key) <==> key == path) by {
        if key == path {
            assert(delete.deletes[0] == key);
        }
    }
}

/// What is committed of a copy is what the tree shows of it.
pub proof fn lemma_copy_is_committed(s: Files, src: Seq<Seq<u8>>, dst: Seq<Seq<u8>>)
    ensures
        changed(s, copy_batch(s, src, dst)) == copied(s, src, dst),
{
}

/// What is committed of a move is what the tree shows of it, for a file and
/// for a directory that is moved neither into itself nor above itself.
pub proof fn lemma_move_is_committed(
    s: Files,
    src: Seq<Seq<u8>>,
    dst: Seq<Seq<u8>>,
    key: Seq<Seq<u8>>,
)
    requires
        distinct_keys(s),
        plain_below(s, src),
        kept_at(s, src) is Some ==> src != dst,
        kept_at(s, src) is None ==> !under(dst, src) && !under(src, dst),
    ensures
        kept_at(changed(s, rename_batch(s, src, dst)), key) == kept_at(renamed(s, src, dst), key),
{
    let batch = rename_batch(s, src, dst);
    match kept_at(s, src) {
        Some(data) => {
            crate::fs::lemma_renamed_file(s, src, dst, data);
            let m = crate::path_map::as_map(renamed(s, src, dst));
            assert(m.contains_key(key) <==> kept_at(renamed(s, src, dst), key) is Some);
            assert(m.contains_key(key) ==> m[key] == kept_at(renamed(s, src, dst), key)->0);
            let n = crate::path_map::as_map(s);
            assert(n.contains_key(key) <==> kept_at(s, key) is Some);
            assert(n.contains_key(key) ==> n[key] == kept_at(s, key)->0);
            assert(batch.writes =~= seq![(dst, data)]);
            assert(batch.deletes =~= seq![src]);
            lemma_changes_are_made(s, batch, key);
            lemma_slot_of(batch.writes, key);
            if key == dst {
                lemma_slot_is(batch.writes, 0);
            }
            if key == src {
                assert(batch.deletes[0] == key);
            }
        },
        None => {
            lemma_renamed_dir(s, src, dst, key);
            lemma_moved_files(s, src, dst, key);
            lemma_under_kept(s, src, key);
            lemma_changes_are_made(s, batch, key);
            if under(key, src) && under(key, dst) {
                crate::fs::lemma_two_prefixes(key, src, dst);
            }
        },
    }
}

/// What is committed of the removal of a directory is what the tree shows of
/// it, but for marker files, which are not in commits.
pub proof fn lemma_removal_is_committed(s: Files, path: Seq<Seq<u8>>, key: Seq<Seq<u8>>)
    requires
        distinct_keys(s),
        file_name_of(key) != Some(dir_marker()),
    ensures
        kept_at(changed(s, remove_dir_batch(s, path)), key) == kept_at(dir_removed(s, path), key),
{
    let batch = remove_dir_batch(s, path);
    let keys = keys_of(files_under(s, path));
    lemma_dir_removed(s, path, key);
    lemma_under_kept(s, path, key);
    lemma_changes_are_made(s, batch, key);
    lemma_without_markers(keys, key);
    assert(slot_of(batch.writes, key) is None);
}

proof fn lemma_without_markers(keys: Seq<Seq<Seq<u8>>>, key: Seq<Seq<u8>>)
    requires
        file_name_of(key) != Some(dir_marker()),
    ensures
        without_markers(keys).contains(key) <==> keys.contains(key),
    decreases keys.len(),
{
    let w = without_markers(keys);
    if keys.len() > 0 {
        let front = keys.drop_last();
        let v = without_markers(front);
        lemma_without_markers(front, key);
        if keys.contains(key) {
            let k = choose|k: int| 0 <= k < keys.len() && keys[k] == key;
            if k < front.len() {
                assert(front[k] == key);
                let j = choose|j: int| 0 <= j < v.len() && v[j] == key;
                assert(w[j] == key);
            } else {
                assert(w[v.len() as int] == key);
            }
        }
        if w.contains(key) {
            let j = choose|j: int| 0 <= j < w.len() && w[j] == key;
            if j < v.len() {
                assert(v[j] == key);
                let k = choose|k: int| 0 <= k < front.len() && front[k] == key;
                assert(keys[k] == key);
            } else {
                assert(keys[keys.len() - 1] == key);
            }
        }
    }
}

/// The commit of changes is on top of what was fetched: its only parent is the
/// commit that the branch led to, and its tree is that of the files with the
/// changes made.
pub proof fn lemma_files_are_committed_on_the_head(
    m: BridgeModel,
    head: Seq<u8>,
    objects: Map<Seq<u8>, Seq<u8>>,
    batch: BatchModel,
    message: Seq<u8>,
    seconds: int,
    p: BridgePushModel,
)
    requires
        m.pending(head, objects, batch, message, seconds) == Ok::<BridgePushModel, BridgeError>(p),
        head.len() == 20,
    ensures
        files_of(head, objects) matches Ok(before) && p.files == changed(before, batch),
        match built_trees(p.files) {
            Ok((root, list)) => {
                let commit = crate::outside::commit_text(
                    root,
                    Some(head),
                    encode_utf8(m.author_name),
                    encode_utf8(m.author_email),
                    seconds,
                    message + text("\n"),
                );
                &&& p.commit == object_id(OBJ_COMMIT, commit)
                &&& pack_bytes(list.push((OBJ_COMMIT, commit))) == Some(p.packfile)
                &&& root.len() == 20 ==> commit_reads(
                    commit,
                    root,
                    head,
                    made_by(encode_utf8(m.author_name), encode_utf8(m.author_email), seconds),
                    message + text("\n"),
                )
            },
            Err(_) => false,
        },
{
    let root = built_trees(p.files)->Ok_0.0;
    if root.len() == 20 {
        lemma_commit_reads(
            root,
            head,
            encode_utf8(m.author_name),
            encode_utf8(m.author_email),
            seconds,
            message + text("\n"),
        );
    }
}

/// A refresh takes in the files of the commit that was fetched where the branch
/// has moved on; where it has not, nothing changes. A first fetch that failed
/// leaves no files.
pub proof fn lemma_refreshed(m: BridgeModel, head: Seq<u8>, objects: Map<Seq<u8>, Seq<u8>>)
    ensures
        match files_of(head, objects) {
            Ok(files) => m.refreshed(head, objects) matches Ok(after) && after.head == Some(head)
                && (m.head != Some(head) ==> after.files == files) && (m.head == Some(head)
                ==> after == m) && after.author_name == m.author_name && after.author_email
                == m.author_email && after.remote == m.remote,
            Err(e) => m.refreshed(head, objects) == Err::<BridgeModel, BridgeError>(e),
        },
        m.started(None) == m,
        m.started(Some((head, objects))).head == Some(head),
        files_of(head, objects) matches Ok(files) ==> m.started(Some((head, objects))).files
            == files,
{
}

// ---------------------------------------------------------------------------
// Paths and lines
// ---------------------------------------------------------------------------

/// The path of a request is that in the tree, without the slash ahead and
/// those at its end.
pub proof fn lemma_tree_path(p: Seq<u8>, slashes: Seq<u8>)
    requires
        p.len() > 0,
        p[0] != 47 && p[0] != 46,
        p.last() != 47 && p.last() != 46,
        forall|i: int| 0 <= i < slashes.len() ==> slashes[i] == 47,
    ensures
        tree_path(seq![47u8] + p + slashes) == p,
        tree_path(p) == p,
{
    let raw = seq![47u8] + p + slashes;
    assert(raw.drop_first() =~= p + slashes);
    assert(left_trimmed(p + slashes) == p + slashes);
    assert(left_trimmed(raw) == p + slashes);
    lemma_right_trimmed(p, slashes);
}

proof fn lemma_right_trimmed(p: Seq<u8>, slashes: Seq<u8>)
    requires
        p.len() > 0,
        p.last() != 47 && p.last() != 46,
        forall|i: int| 0 <= i < slashes.len() ==> slashes[i] == 47,
    ensures
        right_trimmed(p + slashes) == p,
    decreases slashes.len(),
{
    let s = p + slashes;
    if slashes.len() > 0 {
        assert(s[s.len() - 1] == slashes[slashes.len() - 1]);
        assert(s.drop_last() =~= p + slashes.drop_last());
        lemma_right_trimmed(p, slashes.drop_last());
    } else {
        assert(s =~= p);
        assert(s[s.len() - 1] == p.last());
    }
}

/// A line is read where it stands, whatever is before and behind it; and data
/// that ends before a line is refused.
pub proof fn lemma_strict_lines(before: Seq<u8>, line: Seq<u8>, behind: Seq<u8>)
    requires
        line.len() <= 0xfffb,
    ensures
        strict_line(before + pkt_bytes(line) + behind, before.len() as int) == Ok::<
            (Option<Seq<u8>>, int),
            PktError,
        >((Some(line), (before + pkt_bytes(line)).len() as int)),
        strict_line(before, before.len() as int) == Err::<(Option<Seq<u8>>, int), PktError>(
            PktError::Truncated,
        ),
        behind.len() == 0 && line.len() > 0 ==> strict_line(
            before + pkt_bytes(line).drop_last(),
            before.len() as int,
        ) == Err::<(Option<Seq<u8>>, int), PktError>(PktError::Truncated),
{
    let data = before + pkt_bytes(line) + behind;
    let pos = before.len() as int;
    lemma_hex4(line.len() as int + 4);
    assert(data.subrange(pos, pos + 4) =~= crate::git::transport::hex4(line.len() as int + 4));
    assert(data.subrange(pos + 4, pos + 4 + line.len()) =~= line);
    let cut = before + pkt_bytes(line).drop_last();
    if line.len() > 0 {
        assert(cut.subrange(pos, pos + 4) =~= crate::git::transport::hex4(line.len() as int + 4));
    }
}

/// Making a directory adds no file but an empty marker in it.
pub proof fn lemma_only_a_marker_is_added(s: Files, path: Seq<Seq<u8>>, key: Seq<Seq<u8>>)
    requires
        distinct_keys(s),
        kept_at(dir_created(s, path), key) is Some,
        kept_at(s, key) is None,
    ensures
        key == path + seq![dir_marker()],
        kept_at(dir_created(s, path), key) == Some(Seq::<u8>::empty()),
{
    reveal_strlit(".davgit_dir");
    vstd::utf8::is_ascii_chars_encode_utf8(".davgit_dir"@);
    assert(dir_marker().len() == 11);
    let marker = crate::path::parts_joined(path, seq![dir_marker()]);
    assert(marker == path + seq![dir_marker()]);
    lemma_kept_put(s, marker, Seq::empty(), key);
}

/// The files of a commit are those that its tree leads to, with the contents
/// that are at hand.
pub proof fn lemma_files_are_those_of_the_commit(
    head: Seq<u8>,
    objects: Map<Seq<u8>, Seq<u8>>,
    names: Seq<Seq<u8>>,
)
    requires
        objects.dom().finite(),
        files_of(head, objects) is Ok,
        commit_tree(objects[head]) matches Some(tree) && crate::git::walk::plain_below(
            objects,
            tree,
        ),
    ensures
        objects.contains_key(head),
        ({
            let tree = commit_tree(objects[head])->0;
            kept_at(files_of(head, objects)->Ok_0, names) == match found(objects, tree, names) {
                Ok(Some(t)) => if !tree_mode(t.0) && objects.contains_key(t.1) {
                    Some(objects[t.1])
                } else {
                    None
                },
                _ => None,
            }
        }),
{
    lemma_walk_finds(objects, commit_tree(objects[head])->0, names);
}

/// The commit of files that has no parent names none: its author follows its
/// tree.
pub proof fn lemma_first_commit(
    files: Files,
    name: Seq<u8>,
    email: Seq<u8>,
    message: Seq<u8>,
    seconds: int,
)
    requires
        change_commit(files, None, name, email, message, seconds) is Ok,
    ensures
        ({
            let (oid, list) = change_commit(files, None, name, email, message, seconds)->Ok_0;
            let who = made_by(name, email, seconds);
            &&& built_trees(files) matches Ok((root, objects)) && list.drop_last() == objects
                && list.last().1 == text("tree ") + hex_of(root) + text("\n") + text("author ")
                + who + text("committer ") + who + text("\n") + (message + text("\n"))
            &&& list.last().0 == OBJ_COMMIT
            &&& oid == object_id(OBJ_COMMIT, list.last().1)
        }),
{
    let (oid, list) = change_commit(files, None, name, email, message, seconds)->Ok_0;
    let (root, objects) = built_trees(files)->Ok_0;
    let who = made_by(name, email, seconds);
    assert(list.drop_last() =~= objects);
    assert(list.last().1 =~= text("tree ") + hex_of(root) + text("\n") + text("author ") + who
        + text("committer ") + who + text("\n") + (message + text("\n")));
}

/// Where no data may be missing, too, lines are understood one after the other
/// up to the flush; and without one the refs are refused.
pub proof fn lemma_strict_refs_in_turn(m: RefModel, before: Seq<u8>, line: Seq<u8>, behind: Seq<u8>)
    requires
        line.len() <= 0xfffb,
    ensures
        ({
            let data = before + pkt_bytes(line) + behind;
            let end = (before + pkt_bytes(line)).len() as int;
            strict_refs(m, data, before.len() as int) == match m.with_line(line) {
                Ok(next) => strict_refs(next, data, end),
                Err(e) => Err(e),
            }
        }),
        strict_refs(m, before + text("0000") + behind, before.len() as int) == Ok::<
            (RefModel, int),
            RefError,
        >((m, before.len() as int + 4)),
        strict_refs(m, before, before.len() as int) is Err,
{
    lemma_strict_lines(before, line, behind);
    let data = before + text("0000") + behind;
    let pos = before.len() as int;
    reveal_strlit("0000");
    vstd::utf8::is_ascii_chars_encode_utf8("0000"@);
    assert(data.subrange(pos, pos + 4) =~= text("0000"));
    crate::git::transport::lemma_flush_read_back(before, behind);
}

/// What is written to a file adds to what is in it, and in whatever pieces it
/// comes, all of it is handed over to be committed, once. Of a file that is
/// only read nothing is, and nothing is lost.
pub proof fn lemma_writing_in_pieces(data: Seq<u8>, a: Seq<u8>, b: Seq<u8>)
    ensures
        written(written(data, a), b) == written(data, a + b),
        written(data, a).take(data.len() as int) == data,
        written(data, a).skip(data.len() as int) == a,
        handed_over(true, written(data, a)).0 == Some(data + a),
        handed_over(true, handed_over(true, data).1).0 == Some(Seq::<u8>::empty()),
        handed_over(false, data) == (None::<Seq<u8>>, data),
{
    assert(written(written(data, a), b) =~= written(data, a + b));
    assert(written(data, a).take(data.len() as int) =~= data);
    assert(written(data, a).skip(data.len() as int) =~= a);
}

/// A place counted from the start is the one that is sought, as far as a
/// machine word can hold it.
pub proof fn lemma_place_is_sought(offset: u64)
    requires
        offset <= usize::MAX,
    ensures
        moved(0, offset as int) == offset,
{
    vstd::arithmetic::div_mod::lemma_small_mod(offset as nat, (usize::MAX + 1) as nat);
}

/// A refresh is left out less than three seconds after the last, and never
/// later.
pub proof fn lemma_throttled(elapsed_secs: u64)
    ensures
        throttled(0) && throttled(1) && throttled(2),
        elapsed_secs > 2 ==> !throttled(elapsed_secs),
{
}

/// Once a push was taken, every path reads as in the files that were pushed,
/// the commit is the head that the next one builds on, and author and remote
/// are as before.
pub proof fn lemma_pushed_is_there(m: BridgeModel, p: BridgePushModel, key: Seq<Seq<u8>>)
    ensures
        ({
            let after = m.after_push(p);
            &&& kept_at(after.files, key) == kept_at(p.files, key)
            &&& after.head == Some(p.commit)
            &&& after.remote == m.remote
            &&& after.author_name == m.author_name
            &&& after.author_email == m.author_email
        }),
{
}

/// What is pushed to write a file has it with its content, and else what was
/// fetched; what is pushed to delete one has all but it. The path must be
/// text, and the commit says which it is.
pub proof fn lemma_one_file_is_pushed(
    m: BridgeModel,
    head: Seq<u8>,
    objects: Map<Seq<u8>, Seq<u8>>,
    path: Seq<u8>,
    data: Seq<u8>,
    seconds: int,
    key: Seq<Seq<u8>>,
)
    requires
        files_of(head, objects) is Ok,
        distinct_keys(files_of(head, objects)->Ok_0),
    ensures
        ({
            let before = kept_at(files_of(head, objects)->Ok_0, key);
            let names = components_of(path);
            let write = m.write_pending(head, objects, path, data, seconds);
            let delete = m.delete_pending(head, objects, path, seconds);
            &&& !valid_utf8(path) ==> write == Err::<BridgePushModel, BridgeError>(
                BridgeError::NotUtf8,
            ) && delete == Err::<BridgePushModel, BridgeError>(BridgeError::NotUtf8)
            &&& write matches Ok(p) ==> {
                &&& key == names ==> kept_at(p.files, key) == Some(data)
                &&& key != names ==> kept_at(p.files, key) == before
                &&& head.len() == 20 ==> exists|root: Seq<u8>, list: Seq<(u8, Seq<u8>)>|
                    p.commit == object_id(
                        OBJ_COMMIT,
                        #[trigger] pushed_commit(m, root, head, "update "@, path, seconds),
                    ) && #[trigger] built_as(p.files, root, list)
            }
            &&& delete matches Ok(p) ==> {
                &&& key == names ==> kept_at(p.files, key) is None
                &&& key != names ==> kept_at(p.files, key) == before
                &&& head.len() == 20 ==> exists|root: Seq<u8>, list: Seq<(u8, Seq<u8>)>|
                    p.commit == object_id(
                        OBJ_COMMIT,
                        #[trigger] pushed_commit(m, root, head, "delete "@, path, seconds),
                    ) && #[trigger] built_as(p.files, root, list)
            }
        }),
{
    let names = components_of(path);
    let before = files_of(head, objects)->Ok_0;
    let write = m.write_pending(head, objects, path, data, seconds);
    let delete = m.delete_pending(head, objects, path, seconds);
    lemma_one_change(before, names, data, key);
    match write {
        Ok(p) => {
            let (root, list) = built_trees(p.files)->Ok_0;
            assert(built_as(p.files, root, list));
            assert(p.commit == object_id(
                OBJ_COMMIT,
                pushed_commit(m, root, head, "update "@, path, seconds),
            ));
        },
        Err(_) => {},
    }
    match delete {
        Ok(p) => {
            let (root, list) = built_trees(p.files)->Ok_0;
            assert(built_as(p.files, root, list));
            assert(p.commit == object_id(
                OBJ_COMMIT,
                pushed_commit(m, root, head, "delete "@, path, seconds),
            ));
        },
        Err(_) => {},
    }
}

/// The commit on top of `head` that says what was done, and to which path.
pub open spec fn pushed_commit(
    m: BridgeModel,
    root: Seq<u8>,
    head: Seq<u8>,
    word: Seq<char>,
    path: Seq<u8>,
    seconds: int,
) -> Seq<u8> {
    crate::outside::commit_text(
        root,
        Some(head),
        encode_utf8(m.author_name),
        encode_utf8(m.author_email),
        seconds,
        encode_utf8(word + vstd::utf8::decode_utf8(path)) + text("\n"),
    )
}

/// These files give this root tree, and these objects.
pub open spec fn built_as(files: Files, root: Seq<u8>, list: Seq<(u8, Seq<u8>)>) -> bool {
    built_trees(files) == Ok::<(Seq<u8>, Seq<(u8, Seq<u8>)>), BridgeError>((root, list))
}

/// Changes can be made ready to be pushed wherever the files of the head are
/// known, trees can be built of the new ones, and contents can be compressed.
pub proof fn lemma_files_can_be_pushed(
    m: BridgeModel,
    head: Seq<u8>,
    objects: Map<Seq<u8>, Seq<u8>>,
    batch: BatchModel,
    message: Seq<u8>,
    seconds: int,
)
    requires
        forall|content: Seq<u8>| #[trigger] zlib_deflated(content) is Some,
    ensures
        m.pending(head, objects, batch, message, seconds) is Ok <==> (files_of(
            head,
            objects,
        ) matches Ok(before) && built_trees(changed(before, batch)) is Ok),
{
    if files_of(head, objects) is Ok && built_trees(changed(files_of(head, objects)->Ok_0, batch)) is Ok {
        let list = change_commit(
            changed(files_of(head, objects)->Ok_0, batch),
            Some(head),
            encode_utf8(m.author_name),
            encode_utf8(m.author_email),
            message,
            seconds,
        )->Ok_0.1;
        lemma_body_packs(list);
    }
}

/// The id that says that there are files is there as soon as one is, and is
/// always the same: twenty bytes, each a one.
pub proof fn lemma_files_are_signed(m: BridgeModel, key: Seq<Seq<u8>>)
    ensures
        kept_at(m.files, key) is Some ==> (m.head_sign() matches Some(id) && id.len() == 20
            && forall|i: int| 0 <= i < 20 ==> #[trigger] id[i] == 1),
        m.head_sign() is None ==> kept_at(m.files, key) is None,
        m.head_sign() is Some ==> exists|k: int|
            0 <= k < m.files.len() && kept_at(m.files, #[trigger] m.files[k].0) is Some,
{
    lemma_slot_of(m.files, key);
    if m.head_sign() is Some {
        lemma_slot_of(m.files, m.files[0].0);
        assert(kept_at(m.files, m.files[0].0) is Some);
    }
}

} // verus!
