//! The tree of files behind the WebDAV file system: what is a directory, what
//! is in it, and what moving, copying and removing do.

use vstd::prelude::*;

use crate::bytes::{copy_bytes, push_bytes, same_bytes, text};
use crate::outside::{lossy_text, lossy};
use crate::path::{Components, RepoPath, components_of, file_name_of, parts_joined, under};
use crate::path_map::{
    FileMap, Slots, as_map, distinct_keys, kept_at, lemma_kept_last, lemma_kept_put, lemma_put,
    lemma_slot_is, lemma_slot_of, lemma_taken_out, put, slot_of, taken_out,
};

verus! {

/// What files there are: the content of each, under its path.
pub type Files = Slots<Seq<u8>>;

// ---------------------------------------------------------------------------
// Lookups
// ---------------------------------------------------------------------------

/// `s` without the slashes and lone dots that it begins with.
pub open spec fn left_trimmed(s: Seq<u8>) -> Seq<u8>
    decreases s.len(),
{
    if s.len() > 0 && (s[0] == 47 || (s[0] == 46 && (s.len() == 1 || s[1] == 47))) {
        left_trimmed(s.drop_first())
    } else {
        s
    }
}

/// `s` without the slashes and lone dots that it ends in.
pub open spec fn right_trimmed(s: Seq<u8>) -> Seq<u8>
    decreases s.len(),
{
    let n = s.len() as int;
    if n > 0 && (s[n - 1] == 47 || (s[n - 1] == 46 && (n == 1 || s[n - 2] == 47))) {
        right_trimmed(s.drop_last())
    } else {
        s
    }
}

/// The path in the tree that the path of a request stands for: what is left of
/// an absolute path without its root.
pub open spec fn tree_path(raw: Seq<u8>) -> Seq<u8> {
    if raw.len() > 0 && raw[0] == 47 {
        right_trimmed(left_trimmed(raw))
    } else {
        raw
    }
}

/// The path in the tree that the path of a request stands for.
pub fn davpath_to_pathbuf(path: &RepoPath) -> (r: RepoPath)
    ensures
        r@ == tree_path(path@),
{
    let raw = path.raw.as_slice();
    if raw.len() == 0 || raw[0] != 47 {
        return path.duplicate();
    }
    let mut start: usize = 0;
    assert(raw@.skip(0) =~= raw@);
    while start < raw.len() && (raw[start] == 47 || (raw[start] == 46 && (start == raw.len() - 1
        || raw[start + 1] == 47)))
        invariant
            start <= raw@.len(),
            left_trimmed(raw@) == left_trimmed(raw@.skip(start as int)),
        decreases raw@.len() - start,
    {
        let ghost rest = raw@.skip(start as int);
        assert(rest[0] == raw@[start as int]);
        assert(rest.len() > 1 ==> rest[1] == raw@[start + 1]);
        assert(rest.drop_first() =~= raw@.skip(start + 1));
        start += 1;
    }
    let ghost rest = raw@.skip(start as int);
    assert(left_trimmed(raw@) == rest) by {
        if rest.len() > 0 {
            assert(rest[0] == raw@[start as int]);
            assert(rest.len() > 1 ==> rest[1] == raw@[start + 1]);
        }
    }
    let mut end: usize = raw.len();
    assert(raw@.subrange(start as int, end as int) =~= rest);
    while end > start && (raw[end - 1] == 47 || (raw[end - 1] == 46 && (end == start + 1
        || raw[end - 2] == 47)))
        invariant
            start <= end <= raw@.len(),
            right_trimmed(rest) == right_trimmed(raw@.subrange(start as int, end as int)),
        decreases end,
    {
        let ghost now = raw@.subrange(start as int, end as int);
        let ghost n = now.len() as int;
        assert(now[n - 1] == raw@[end - 1]);
        assert(n > 1 ==> now[n - 2] == raw@[end - 2]);
        assert(now.drop_last() =~= raw@.subrange(start as int, end - 1));
        end -= 1;
    }
    assert(right_trimmed(rest) == raw@.subrange(start as int, end as int)) by {
        let now = raw@.subrange(start as int, end as int);
        let n = now.len() as int;
        if n > 0 {
            assert(now[n - 1] == raw@[end - 1]);
            assert(n > 1 ==> now[n - 2] == raw@[end - 2]);
        }
    }
    RepoPath::from_bytes(&raw[start..end])
}

/// Whether some file is at the path or below it.
pub open spec fn any_under(s: Files, path: Seq<Seq<u8>>) -> bool {
    exists|i: int| 0 <= i < s.len() && under((#[trigger] s[i]).0, path)
}

/// Whether a path is a directory: the root is, and what has files below it but
/// is none.
pub open spec fn directory_in(s: Files, path: Seq<Seq<u8>>) -> bool {
    path.len() == 0 || (slot_of(s, path) is None && any_under(s, path))
}

/// Whether a path is a directory.
pub fn is_dir(tree: &FileMap, path: &Components) -> (r: bool)
    ensures
        r == directory_in(tree@, path@),
{
    if path.len() == 0 {
        return true;
    }
    if tree.contains_key(path) {
        return false;
    }
    let mut i: usize = 0;
    while i < tree.len()
        invariant
            i <= tree@.len(),
            slot_of(tree@, path@) is None,
            forall|k: int| 0 <= k < i ==> !under((#[trigger] tree@[k]).0, path@),
        decreases tree@.len() - i,
    {
        if tree.key(i).starts_with(path) {
            assert(under(tree@[i as int].0, path@));
            return true;
        }
        i += 1;
    }
    false
}

/// Whether a file is at the path.
pub fn file_exists(tree: &FileMap, path: &Components) -> (r: bool)
    ensures
        r == (kept_at(tree@, path@) is Some),
{
    tree.contains_key(path)
}

/// What is told of a file or a directory.
#[derive(Clone, Copy, PartialEq, Eq, Structural, Debug)]
pub struct GitDavMeta {
    pub len: u64,
    pub is_dir: bool,
}

/// What is told of a path, where something is there.
pub open spec fn metadata_of(s: Files, path: Seq<Seq<u8>>) -> Option<GitDavMeta> {
    if directory_in(s, path) {
        Some(GitDavMeta { len: 0, is_dir: true })
    } else {
        match kept_at(s, path) {
            Some(data) => Some(GitDavMeta { len: data.len() as u64, is_dir: false }),
            None => None,
        }
    }
}

/// What is told of a path.
pub fn metadata(tree: &FileMap, path: &Components) -> (r: Option<GitDavMeta>)
    ensures
        r == metadata_of(tree@, path@),
{
    if is_dir(tree, path) {
        return Some(GitDavMeta { len: 0, is_dir: true });
    }
    match tree.get(path) {
        Some(data) => Some(GitDavMeta { len: data.len() as u64, is_dir: false }),
        None => None,
    }
}

/// What is in a directory.
pub struct GitDavDirEntry {
    pub name: Vec<u8>,
    pub is_dir: bool,
    pub len: u64,
}

/// What is in a directory.
pub struct DirEntryModel {
    pub name: Seq<u8>,
    pub is_dir: bool,
    pub len: u64,
}

impl View for GitDavDirEntry {
    type V = DirEntryModel;

    open spec fn view(&self) -> DirEntryModel {
        DirEntryModel { name: self.name@, is_dir: self.is_dir, len: self.len }
    }
}

/// What a list of such is.
pub open spec fn dir_models(es: Seq<GitDavDirEntry>) -> Seq<DirEntryModel> {
    es.map_values(|e: GitDavDirEntry| e@)
}

/// The name of the marker file that a directory without files is kept by.
pub open spec fn dir_marker() -> Seq<u8> {
    text(".davgit_dir")
}

/// Whether an entry has this name.
pub open spec fn has_dir_name(es: Seq<DirEntryModel>, name: Seq<u8>) -> bool {
    exists|i: int| 0 <= i < es.len() && (#[trigger] es[i]).name == name
}

/// What the files of `s` show of the directory `path`: the first component of
/// each behind it, once.
pub open spec fn dir_listing(s: Files, whole: Files, path: Seq<Seq<u8>>) -> Seq<DirEntryModel>
    decreases s.len(),
{
    if s.len() == 0 {
        Seq::empty()
    } else {
        let front = dir_listing(s.drop_last(), whole, path);
        let key = s.last().0;
        if !under(key, path) || key.len() == path.len() {
            front
        } else {
            let name = lossy(key[path.len() as int]);
            let is_dir = key.len() > path.len() + 1;
            if name == dir_marker() || has_dir_name(front, name) {
                front
            } else {
                front.push(
                    DirEntryModel {
                        name,
                        is_dir,
                        len: match kept_at(whole, parts_joined(path, seq![name])) {
                            Some(data) if !is_dir => data.len() as u64,
                            _ => 0,
                        },
                    },
                )
            }
        }
    }
}

/// What is in a directory; nothing at all where there is no such directory.
pub open spec fn dir_of(s: Files, path: Seq<Seq<u8>>) -> Option<Seq<DirEntryModel>> {
    let entries = dir_listing(s, s, path);
    if entries.len() == 0 && !directory_in(s, path) {
        None
    } else {
        Some(entries)
    }
}

fn is_listed(entries: &Vec<GitDavDirEntry>, name: &[u8]) -> (r: bool)
    ensures
        r == has_dir_name(dir_models(entries@), name@),
{
    let mut i: usize = 0;
    while i < entries.len()
        invariant
            i <= entries@.len(),
            forall|k: int| 0 <= k < i ==> (#[trigger] dir_models(entries@)[k]).name != name@,
        decreases entries@.len() - i,
    {
        if same_bytes(entries[i].name.as_slice(), name) {
            assert(dir_models(entries@)[i as int].name == name@);
            return true;
        }
        i += 1;
    }
    false
}

/// What is in a directory. A directory that is there only by its marker file
/// is empty.
pub fn read_dir(tree: &FileMap, path: &Components) -> (r: Option<Vec<GitDavDirEntry>>)
    ensures
        match r {
            Some(entries) => dir_of(tree@, path@) == Some(dir_models(entries@)),
            None => dir_of(tree@, path@) is None,
        },
{
    let ghost s = tree@;
    let mut entries: Vec<GitDavDirEntry> = Vec::new();
    let mut i: usize = 0;
    assert(dir_models(entries@) =~= dir_listing(s.take(0), s, path@));
    while i < tree.len()
        invariant
            s == tree@,
            i <= s.len(),
            dir_models(entries@) == dir_listing(s.take(i as int), s, path@),
        decreases s.len() - i,
    {
        let ghost before = dir_models(entries@);
        assert(s.take(i + 1).drop_last() =~= s.take(i as int));
        assert(s.take(i + 1).last() == s[i as int]);
        let key = tree.key(i);
        if key.starts_with(path) && key.len() != path.len() {
            let name = lossy_text(key.name(path.len()).as_slice());
            if !same_bytes(name.as_slice(), ".davgit_dir".as_bytes()) && !is_listed(
                &entries,
                name.as_slice(),
            ) {
                let is_dir = key.len() - path.len() > 1;
                let mut one = Components::empty();
                one.push(name.as_slice());
                assert(one@ =~= seq![name@]);
                let child = path.join(&one);
                let len: u64 = if is_dir {
                    0
                } else {
                    match tree.get(&child) {
                        Some(data) => data.len() as u64,
                        None => 0,
                    }
                };
                let e = GitDavDirEntry { name, is_dir, len };
                let ghost model = e@;
                entries.push(e);
                assert(dir_models(entries@) =~= before.push(model));
            }
        }
        i += 1;
    }
    assert(s.take(i as int) =~= s);
    if entries.len() == 0 && !is_dir(tree, path) {
        return None;
    }
    Some(entries)
}

// ---------------------------------------------------------------------------
// Open files
// ---------------------------------------------------------------------------

/// A file that is open: its content so far, and where it is read next. One
/// that is open for writing is written when it is flushed.
pub struct GitDavFile {
    pub data: Vec<u8>,
    pub pos: usize,
    pub path: RepoPath,
    pub is_write: bool,
    pub meta: GitDavMeta,
}

/// What a file is opened with: what is there, or nothing where it is to be
/// written anew. A file that is not there is opened only for writing.
pub open spec fn opened(
    s: Files,
    path: Seq<Seq<u8>>,
    write: bool,
    truncate: bool,
    create: bool,
) -> Option<Seq<u8>> {
    if write && (truncate || create) {
        Some(Seq::empty())
    } else if write {
        match kept_at(s, path) {
            Some(data) => Some(data),
            None => Some(Seq::empty()),
        }
    } else {
        kept_at(s, path)
    }
}

impl GitDavFile {
    /// A file that is open at its start.
    pub fn new(data: Vec<u8>, path: RepoPath, is_write: bool) -> (r: GitDavFile)
        ensures
            r.data@ == data@,
            r.pos == 0,
            r.path@ == path@,
            r.is_write == is_write,
            r.meta == (GitDavMeta { len: data@.len() as u64, is_dir: false }),
    {
        let len: u64 = data.len() as u64;
        GitDavFile { data, pos: 0, path, is_write, meta: GitDavMeta { len, is_dir: false } }
    }

    /// Puts bytes at the end.
    pub fn write_bytes(&mut self, buf: &[u8])
        ensures
            final(self).data@ == written(old(self).data@, buf@),
            final(self).pos == old(self).pos,
            final(self).path == old(self).path,
            final(self).is_write == old(self).is_write,
            final(self).meta == old(self).meta,
    {
        push_bytes(&mut self.data, buf);
    }

    /// Reads up to `count` bytes, and moves on behind them. Behind the end
    /// there is nothing to read.
    pub fn read_bytes(&mut self, count: usize) -> (r: Vec<u8>)
        ensures
            r@ == read_piece(old(self).data@, old(self).pos as int, count as int),
            final(self).pos == old(self).pos + r@.len(),
            final(self).data == old(self).data,
            final(self).path == old(self).path,
            final(self).is_write == old(self).is_write,
            final(self).meta == old(self).meta,
    {
        let len: usize = self.data.len();
        let start: usize = self.pos;
        if start >= len {
            return Vec::new();
        }
        let end: usize = if count <= len - start {
            start + count
        } else {
            len
        };
        self.pos = end;
        assert(self.data@.subrange(start as int, len as int) =~= self.data@.skip(start as int));
        copy_bytes(&self.data.as_slice()[start..end])
    }

    /// Moves to a place counted from the start.
    pub fn seek_start(&mut self, offset: u64) -> (r: u64)
        ensures
            final(self).pos == moved(0, offset as int),
            r == final(self).pos,
            final(self).data == old(self).data,
            final(self).path == old(self).path,
            final(self).is_write == old(self).is_write,
            final(self).meta == old(self).meta,
    {
        let modulus: u128 = usize::MAX as u128 + 1;
        self.pos = (offset as u128 % modulus) as usize;
        self.pos as u64
    }

    /// Moves to a place counted from the end, or from the place where the file
    /// is read next: not before the start, and not beyond what can be counted.
    pub fn seek_by(&mut self, from_end: bool, offset: i64) -> (r: u64)
        requires
            offset > i64::MIN,
        ensures
            final(self).pos == moved(
                if from_end {
                    old(self).data@.len() as int
                } else {
                    old(self).pos as int
                },
                offset as int,
            ),
            r == final(self).pos,
            final(self).data == old(self).data,
            final(self).path == old(self).path,
            final(self).is_write == old(self).is_write,
            final(self).meta == old(self).meta,
    {
        let start: usize = if from_end {
            self.data.len()
        } else {
            self.pos
        };
        let modulus: u128 = usize::MAX as u128 + 1;
        if offset >= 0 {
            let step: usize = (offset as u128 % modulus) as usize;
            self.pos = if step <= usize::MAX - start {
                start + step
            } else {
                usize::MAX
            };
        } else {
            let step: usize = ((-offset) as u128 % modulus) as usize;
            self.pos = if step <= start {
                start - step
            } else {
                0
            };
        }
        self.pos as u64
    }
}

/// What is read from `start` on: up to `count` bytes, and nothing behind the
/// end.
pub open spec fn read_piece(data: Seq<u8>, start: int, count: int) -> Seq<u8> {
    if start >= data.len() {
        Seq::empty()
    } else if start + count <= data.len() {
        data.subrange(start, start + count)
    } else {
        data.skip(start)
    }
}

/// Where a step leads from `start`: not below zero, and not beyond the largest
/// number. What a machine word cannot hold of the step is lost.
pub open spec fn moved(start: int, offset: int) -> int {
    if offset >= 0 {
        let end = start + offset % (usize::MAX + 1);
        if end <= usize::MAX {
            end
        } else {
            usize::MAX as int
        }
    } else {
        let end = start - (-offset) % (usize::MAX + 1);
        if end >= 0 {
            end
        } else {
            0
        }
    }
}

/// The content of a file after more was written: at its end, wherever it is
/// read next.
pub open spec fn written(data: Seq<u8>, more: Seq<u8>) -> Seq<u8> {
    data + more
}

/// What is handed over of a file to be committed, and what is left of it: all
/// and nothing where it is open for writing, else nothing and all.
pub open spec fn handed_over(is_write: bool, data: Seq<u8>) -> (Option<Seq<u8>>, Seq<u8>) {
    if is_write {
        (Some(data), Seq::empty())
    } else {
        (None, data)
    }
}

/// Opens a file.
pub fn open(tree: &FileMap, path: &RepoPath, write: bool, truncate: bool, create: bool) -> (r:
    Option<GitDavFile>)
    ensures
        match r {
            Some(f) => opened(tree@, components_of(path@), write, truncate, create) == Some(f.data@)
                && f.pos == 0 && f.path@ == path@ && f.is_write == write && f.meta == (GitDavMeta {
                len: f.data@.len() as u64,
                is_dir: false,
            }),
            None => opened(tree@, components_of(path@), write, truncate, create) is None,
        },
{
    let data = if write && (truncate || create) {
        Vec::new()
    } else {
        match tree.get(&path.components()) {
            Some(data) => copy_bytes(data.as_slice()),
            None => {
                if !write {
                    return None;
                }
                Vec::new()
            },
        }
    };
    assert(opened(tree@, components_of(path@), write, truncate, create) == Some(data@));
    Some(GitDavFile::new(data, path.duplicate(), write))
}

impl GitDavFile {
    /// Takes the content out to be written, from a file that is open for
    /// writing. The file is empty after that.
    pub fn flush(&mut self) -> (r: Option<Vec<u8>>)
        ensures
            match r {
                Some(data) => handed_over(old(self).is_write, old(self).data@) == (
                    Some(data@),
                    final(self).data@,
                ),
                None => handed_over(old(self).is_write, old(self).data@) == (
                    None::<Seq<u8>>,
                    final(self).data@,
                ) && final(self).data == old(self).data,
            },
            final(self).pos == old(self).pos,
            final(self).path == old(self).path,
            final(self).is_write == old(self).is_write,
            final(self).meta == old(self).meta,
    {
        if !self.is_write {
            return None;
        }
        let mut data: Vec<u8> = Vec::new();
        std::mem::swap(&mut data, &mut self.data);
        Some(data)
    }
}

// ---------------------------------------------------------------------------
// Changes
// ---------------------------------------------------------------------------

/// What is to be committed: files to write, and files to delete.
pub struct Batch {
    pub writes: Vec<(Components, Vec<u8>)>,
    pub deletes: Vec<Components>,
}

/// What is to be committed.
#[verifier::ext_equal]
pub struct BatchModel {
    pub writes: Files,
    pub deletes: Seq<Seq<Seq<u8>>>,
}

/// What a list of files to write is.
pub open spec fn write_models(writes: Seq<(Components, Vec<u8>)>) -> Files {
    writes.map_values(|w: (Components, Vec<u8>)| (w.0@, w.1@))
}

/// What a list of paths is.
pub open spec fn path_models(paths: Seq<Components>) -> Seq<Seq<Seq<u8>>> {
    paths.map_values(|p: Components| p@)
}

impl View for Batch {
    type V = BatchModel;

    open spec fn view(&self) -> BatchModel {
        BatchModel { writes: write_models(self.writes@), deletes: path_models(self.deletes@) }
    }
}

/// The files at the path and below it, in order.
pub open spec fn files_under(s: Files, path: Seq<Seq<u8>>) -> Files
    decreases s.len(),
{
    if s.len() == 0 {
        Seq::empty()
    } else {
        let front = files_under(s.drop_last(), path);
        if under(s.last().0, path) {
            front.push(s.last())
        } else {
            front
        }
    }
}

/// Where a file at or below `src` goes to when that becomes `dst`.
pub open spec fn moved_key(key: Seq<Seq<u8>>, src: Seq<Seq<u8>>, dst: Seq<Seq<u8>>) -> Seq<Seq<u8>> {
    parts_joined(dst, key.skip(src.len() as int))
}

/// The files where they go to.
pub open spec fn moved_files(es: Files, src: Seq<Seq<u8>>, dst: Seq<Seq<u8>>) -> Files {
    es.map_values(|e: (Seq<Seq<u8>>, Seq<u8>)| (moved_key(e.0, src, dst), e.1))
}

/// The paths of the files.
pub open spec fn keys_of(es: Files) -> Seq<Seq<Seq<u8>>> {
    es.map_values(|e: (Seq<Seq<u8>>, Seq<u8>)| e.0)
}

/// The files that are moved or copied: the one at the path, or else all below
/// it.
pub open spec fn taken(s: Files, src: Seq<Seq<u8>>) -> Files {
    match kept_at(s, src) {
        Some(data) => seq![(src, data)],
        None => files_under(s, src),
    }
}

/// Where they go to: the file to the destination itself.
pub open spec fn placed_at(s: Files, src: Seq<Seq<u8>>, dst: Seq<Seq<u8>>) -> Files {
    match kept_at(s, src) {
        Some(data) => seq![(dst, data)],
        None => moved_files(files_under(s, src), src, dst),
    }
}

/// The tree with files put in, and with each the one taken out that stood for
/// it before.
pub open spec fn replaced_one_by_one(s: Files, new: Files, old_keys: Seq<Seq<Seq<u8>>>) -> Files
    decreases new.len(),
{
    if new.len() == 0 || old_keys.len() == 0 {
        s
    } else {
        let front = replaced_one_by_one(s, new.drop_last(), old_keys.drop_last());
        taken_out(put(front, new.last().0, new.last().1), old_keys.last())
    }
}

/// The tree with files put in.
pub open spec fn put_all(s: Files, new: Files) -> Files
    decreases new.len(),
{
    if new.len() == 0 {
        s
    } else {
        put(put_all(s, new.drop_last()), new.last().0, new.last().1)
    }
}

/// The tree with files taken out.
pub open spec fn take_all(s: Files, keys: Seq<Seq<Seq<u8>>>) -> Files
    decreases keys.len(),
{
    if keys.len() == 0 {
        s
    } else {
        taken_out(take_all(s, keys.drop_last()), keys.last())
    }
}

/// The paths without those of marker files.
pub open spec fn without_markers(keys: Seq<Seq<Seq<u8>>>) -> Seq<Seq<Seq<u8>>>
    decreases keys.len(),
{
    if keys.len() == 0 {
        Seq::empty()
    } else {
        let front = without_markers(keys.drop_last());
        if file_name_of(keys.last()) == Some(dir_marker()) {
            front
        } else {
            front.push(keys.last())
        }
    }
}

/// What is to be committed to move a file or a directory.
pub open spec fn rename_batch(s: Files, src: Seq<Seq<u8>>, dst: Seq<Seq<u8>>) -> BatchModel {
    BatchModel { writes: placed_at(s, src, dst), deletes: keys_of(taken(s, src)) }
}

/// The tree after a file or a directory was moved.
pub open spec fn renamed(s: Files, src: Seq<Seq<u8>>, dst: Seq<Seq<u8>>) -> Files {
    replaced_one_by_one(s, placed_at(s, src, dst), keys_of(taken(s, src)))
}

/// What is to be committed to copy a file or a directory.
pub open spec fn copy_batch(s: Files, src: Seq<Seq<u8>>, dst: Seq<Seq<u8>>) -> BatchModel {
    BatchModel { writes: placed_at(s, src, dst), deletes: Seq::empty() }
}

/// The tree after a file or a directory was copied.
pub open spec fn copied(s: Files, src: Seq<Seq<u8>>, dst: Seq<Seq<u8>>) -> Files {
    put_all(s, placed_at(s, src, dst))
}

/// What is to be committed to remove a directory: its files, but not the
/// markers, which were never committed.
pub open spec fn remove_dir_batch(s: Files, path: Seq<Seq<u8>>) -> BatchModel {
    BatchModel { writes: Seq::empty(), deletes: without_markers(keys_of(files_under(s, path))) }
}

/// The tree after a directory was removed.
pub open spec fn dir_removed(s: Files, path: Seq<Seq<u8>>) -> Files {
    take_all(s, keys_of(files_under(s, path)))
}

/// The tree after a directory was made: with a marker in it, unless that is
/// there.
pub open spec fn dir_created(s: Files, path: Seq<Seq<u8>>) -> Files {
    let marker = parts_joined(path, seq![dir_marker()]);
    match kept_at(s, marker) {
        Some(_) => s,
        None => put(s, marker, Seq::empty()),
    }
}

fn collect_under(tree: &FileMap, path: &Components) -> (r: Vec<(Components, Vec<u8>)>)
    ensures
        write_models(r@) == files_under(tree@, path@),
{
    let ghost s = tree@;
    let mut r: Vec<(Components, Vec<u8>)> = Vec::new();
    let mut i: usize = 0;
    assert(write_models(r@) =~= files_under(s.take(0), path@));
    while i < tree.len()
        invariant
            s == tree@,
            i <= s.len(),
            write_models(r@) == files_under(s.take(i as int), path@),
        decreases s.len() - i,
    {
        let ghost before = write_models(r@);
        assert(s.take(i + 1).drop_last() =~= s.take(i as int));
        assert(s.take(i + 1).last() == s[i as int]);
        if tree.key(i).starts_with(path) {
            let data = copy_bytes(tree.value(i).as_slice());
            let key = tree.key(i).duplicate();
            let ghost model = (key@, data@);
            r.push((key, data));
            assert(write_models(r@) =~= before.push(model));
        }
        i += 1;
    }
    assert(s.take(i as int) =~= s);
    r
}

fn collect_taken(tree: &FileMap, src: &Components) -> (r: Vec<(Components, Vec<u8>)>)
    ensures
        write_models(r@) == taken(tree@, src@),
{
    match tree.get(src) {
        Some(data) => {
            let mut r: Vec<(Components, Vec<u8>)> = Vec::new();
            let data = copy_bytes(data.as_slice());
            let ghost model = (src@, data@);
            r.push((src.duplicate(), data));
            assert(write_models(r@) =~= seq![model]);
            r
        },
        None => collect_under(tree, src),
    }
}

fn collect_placed(tree: &FileMap, src: &Components, dst: &Components) -> (r: Vec<
    (Components, Vec<u8>),
>)
    ensures
        write_models(r@) == placed_at(tree@, src@, dst@),
{
    let mut r: Vec<(Components, Vec<u8>)> = Vec::new();
    if let Some(data) = tree.get(src) {
        let data = copy_bytes(data.as_slice());
        let ghost model = (dst@, data@);
        r.push((dst.duplicate(), data));
        assert(write_models(r@) =~= seq![model]);
        return r;
    }
    let found = collect_under(tree, src);
    let ghost es = write_models(found@);
    proof {
        lemma_files_under(tree@, src@);
    }
    let mut i: usize = 0;
    while i < found.len()
        invariant
            i <= found@.len(),
            es == write_models(found@),
            forall|k: int| 0 <= k < es.len() ==> under((#[trigger] es[k]).0, src@),
            r@.len() == i,
            forall|k: int|
                0 <= k < i ==> #[trigger] write_models(r@)[k] == moved_files(es, src@, dst@)[k],
        decreases found@.len() - i,
    {
        let ghost before = write_models(r@);
        let key = &found[i].0;
        assert(under(es[i as int].0, src@));
        let rel = key.part(src.len(), key.len());
        assert(rel@ =~= key@.skip(src@.len() as int));
        let target = dst.join(&rel);
        let data = copy_bytes(found[i].1.as_slice());
        let ghost model = (target@, data@);
        r.push((target, data));
        assert(write_models(r@) =~= before.push(model));
        i += 1;
    }
    assert(write_models(r@) =~= moved_files(es, src@, dst@));
    r
}

/// What is among the files at and below a path: those of the list that are.
pub proof fn lemma_files_under(s: Files, path: Seq<Seq<u8>>)
    ensures
        forall|e: (Seq<Seq<u8>>, Seq<u8>)| #[trigger]
            files_under(s, path).contains(e) <==> s.contains(e) && under(e.0, path),
        forall|k: int|
            0 <= k < files_under(s, path).len() ==> under(
                (#[trigger] files_under(s, path)[k]).0,
                path,
            ),
        distinct_keys(s) ==> distinct_keys(files_under(s, path)),
    decreases s.len(),
{
    if s.len() > 0 {
        let front = s.drop_last();
        let last = s.last();
        lemma_files_under(front, path);
        let f = files_under(front, path);
        let all = files_under(s, path);
        assert forall|e: (Seq<Seq<u8>>, Seq<u8>)| #[trigger] s.contains(e) <==> front.contains(e)
            || e == last by {
            if s.contains(e) {
                let k = choose|k: int| 0 <= k < s.len() && s[k] == e;
                if k < front.len() {
                    assert(front[k] == e);
                }
            }
            if front.contains(e) {
                let k = choose|k: int| 0 <= k < front.len() && front[k] == e;
                assert(s[k] == e);
            }
            if e == last {
                assert(s[s.len() - 1] == e);
            }
        }
        assert forall|e: (Seq<Seq<u8>>, Seq<u8>)| #[trigger] all.contains(e) <==> f.contains(e) || (e
            == last && under(last.0, path)) by {
            if all.contains(e) {
                let k = choose|k: int| 0 <= k < all.len() && all[k] == e;
                if k < f.len() {
                    assert(f[k] == e);
                }
            }
            if f.contains(e) {
                let k = choose|k: int| 0 <= k < f.len() && f[k] == e;
                assert(all[k] == e);
            }
            if e == last && under(last.0, path) {
                assert(all[f.len() as int] == e);
            }
        }
        assert forall|k: int| 0 <= k < all.len() implies under((#[trigger] all[k]).0, path) by {
            if k < f.len() {
                assert(all[k] == f[k]);
            }
        }
        if distinct_keys(s) {
            assert(distinct_keys(front)) by {
                assert forall|i: int, j: int| 0 <= i < j < front.len() implies (
                #[trigger] front[i]).0 != (#[trigger] front[j]).0 by {
                    assert(s[i].0 != s[j].0);
                }
            }
            assert forall|i: int, j: int| 0 <= i < j < all.len() implies (#[trigger] all[i]).0 != (
            #[trigger] all[j]).0 by {
                assert(all[i] == f[i]);
                if j < f.len() {
                    assert(all[j] == f[j]);
                    assert(f[i].0 != f[j].0);
                } else {
                    assert(f.contains(f[i]));
                    assert(front.contains(f[i]));
                    let k = choose|k: int| 0 <= k < front.len() && front[k] == f[i];
                    assert(s[k].0 != s[s.len() - 1].0);
                }
            }
        }
    }
}

fn keys_only(es: &Vec<(Components, Vec<u8>)>) -> (r: Vec<Components>)
    ensures
        path_models(r@) == keys_of(write_models(es@)),
{
    let mut r: Vec<Components> = Vec::new();
    let mut i: usize = 0;
    while i < es.len()
        invariant
            i <= es@.len(),
            r@.len() == i,
            forall|k: int| 0 <= k < i ==> (#[trigger] r@[k])@ == es@[k].0@,
        decreases es@.len() - i,
    {
        r.push(es[i].0.duplicate());
        i += 1;
    }
    assert(path_models(r@) =~= keys_of(write_models(es@)));
    r
}

/// What is to be committed to move a file or a directory.
pub fn plan_rename(tree: &FileMap, src: &Components, dst: &Components) -> (r: Batch)
    ensures
        r@ == rename_batch(tree@, src@, dst@),
{
    let olds = collect_taken(tree, src);
    Batch { writes: collect_placed(tree, src, dst), deletes: keys_only(&olds) }
}

/// What is to be committed to copy a file or a directory.
pub fn plan_copy(tree: &FileMap, src: &Components, dst: &Components) -> (r: Batch)
    ensures
        r@ == copy_batch(tree@, src@, dst@),
{
    let r = Batch { writes: collect_placed(tree, src, dst), deletes: Vec::new() };
    assert(r@.deletes =~= Seq::empty());
    r
}

/// What is to be committed to remove a directory.
pub fn plan_remove_dir(tree: &FileMap, path: &Components) -> (r: Batch)
    ensures
        r@ == remove_dir_batch(tree@, path@),
{
    let found = collect_under(tree, path);
    let ghost keys = keys_of(write_models(found@));
    let mut deletes: Vec<Components> = Vec::new();
    let mut i: usize = 0;
    assert(path_models(deletes@) =~= without_markers(keys.take(0)));
    while i < found.len()
        invariant
            i <= found@.len(),
            keys == keys_of(write_models(found@)),
            path_models(deletes@) == without_markers(keys.take(i as int)),
        decreases found@.len() - i,
    {
        let ghost before = path_models(deletes@);
        assert(keys.take(i + 1).drop_last() =~= keys.take(i as int));
        assert(keys.take(i + 1).last() == keys[i as int]);
        let is_marker = match found[i].0.file_name() {
            Some(name) => same_bytes(name.as_slice(), ".davgit_dir".as_bytes()),
            None => false,
        };
        if !is_marker {
            let key = found[i].0.duplicate();
            let ghost model = key@;
            deletes.push(key);
            assert(path_models(deletes@) =~= before.push(model));
        }
        i += 1;
    }
    assert(keys.take(i as int) =~= keys);
    let writes: Vec<(Components, Vec<u8>)> = Vec::new();
    assert(write_models(writes@) =~= Seq::empty());
    Batch { writes, deletes }
}

/// Moves a file or a directory in the tree.
pub fn apply_rename(tree: &mut FileMap, src: &Components, dst: &Components)
    ensures
        final(tree)@ == renamed(old(tree)@, src@, dst@),
{
    let olds = collect_taken(tree, src);
    let news = collect_placed(tree, src, dst);
    let ghost s = tree@;
    let ghost new = write_models(news@);
    let ghost old_keys = keys_of(write_models(olds@));
    proof {
        lemma_same_count(s, src@, dst@);
    }
    let mut i: usize = 0;
    assert(new.take(0) =~= Seq::empty());
    while i < news.len()
        invariant
            i <= news@.len(),
            new == write_models(news@),
            old_keys == keys_of(write_models(olds@)),
            news@.len() == olds@.len(),
            tree@ == replaced_one_by_one(s, new.take(i as int), old_keys.take(i as int)),
        decreases news@.len() - i,
    {
        assert(new.take(i + 1).drop_last() =~= new.take(i as int));
        assert(old_keys.take(i + 1).drop_last() =~= old_keys.take(i as int));
        assert(new.take(i + 1).last() == new[i as int]);
        assert(old_keys.take(i + 1).last() == old_keys[i as int]);
        tree.insert(&news[i].0, copy_bytes(news[i].1.as_slice()));
        tree.remove(&olds[i].0);
        i += 1;
    }
    assert(new.take(i as int) =~= new);
    assert(old_keys.take(i as int) =~= old_keys);
}

proof fn lemma_same_count(s: Files, src: Seq<Seq<u8>>, dst: Seq<Seq<u8>>)
    ensures
        placed_at(s, src, dst).len() == taken(s, src).len(),
{
}

/// Copies a file or a directory in the tree.
pub fn apply_copy(tree: &mut FileMap, src: &Components, dst: &Components)
    ensures
        final(tree)@ == copied(old(tree)@, src@, dst@),
{
    let news = collect_placed(tree, src, dst);
    let ghost s = tree@;
    let ghost new = write_models(news@);
    let mut i: usize = 0;
    assert(new.take(0) =~= Seq::empty());
    while i < news.len()
        invariant
            i <= news@.len(),
            new == write_models(news@),
            tree@ == put_all(s, new.take(i as int)),
        decreases news@.len() - i,
    {
        assert(new.take(i + 1).drop_last() =~= new.take(i as int));
        assert(new.take(i + 1).last() == new[i as int]);
        tree.insert(&news[i].0, copy_bytes(news[i].1.as_slice()));
        i += 1;
    }
    assert(new.take(i as int) =~= new);
}

/// Removes a directory from the tree.
pub fn apply_remove_dir(tree: &mut FileMap, path: &Components)
    ensures
        final(tree)@ == dir_removed(old(tree)@, path@),
{
    let found = collect_under(tree, path);
    let ghost s = tree@;
    let ghost keys = keys_of(write_models(found@));
    let mut i: usize = 0;
    assert(keys.take(0) =~= Seq::empty());
    while i < found.len()
        invariant
            i <= found@.len(),
            keys == keys_of(write_models(found@)),
            tree@ == take_all(s, keys.take(i as int)),
        decreases found@.len() - i,
    {
        assert(keys.take(i + 1).drop_last() =~= keys.take(i as int));
        assert(keys.take(i + 1).last() == keys[i as int]);
        tree.remove(&found[i].0);
        i += 1;
    }
    assert(keys.take(i as int) =~= keys);
}

/// Makes a directory in the tree.
pub fn create_dir(tree: &mut FileMap, path: &Components)
    ensures
        final(tree)@ == dir_created(old(tree)@, path@),
{
    let mut one = Components::empty();
    one.push(".davgit_dir".as_bytes());
    assert(one@ =~= seq![dir_marker()]);
    let marker = path.join(&one);
    if !tree.contains_key(&marker) {
        let empty: Vec<u8> = Vec::new();
        assert(empty@ =~= Seq::empty());
        tree.insert(&marker, empty);
    }
}

/// Removes a file from the tree.
pub fn remove_file(tree: &mut FileMap, path: &Components)
    ensures
        final(tree)@ == taken_out(old(tree)@, path@),
{
    tree.remove(path);
}

/// Puts a file that was flushed into the tree.
pub fn insert_file(tree: &mut FileMap, path: &Components, data: Vec<u8>)
    ensures
        final(tree)@ == put(old(tree)@, path@, data@),
{
    tree.insert(path, data);
}

// ---------------------------------------------------------------------------
// What the changes come to
// ---------------------------------------------------------------------------

/// Paths below `src` go on with a name, and not with a root or a lone dot.
pub open spec fn plain_below(s: Files, src: Seq<Seq<u8>>) -> bool {
    forall|i: int|
        0 <= i < s.len() && under((#[trigger] s[i]).0, src) && s[i].0.len() > src.len()
            ==> s[i].0[src.len() as int] != seq![47u8] && s[i].0[src.len() as int] != seq![46u8]
}

/// What taking a file out comes to.
pub proof fn lemma_out_at(s: Files, key: Seq<Seq<u8>>, other: Seq<Seq<u8>>)
    requires
        distinct_keys(s),
    ensures
        distinct_keys(taken_out(s, key)),
        kept_at(taken_out(s, key), other) == if other == key {
            None
        } else {
            kept_at(s, other)
        },
{
    lemma_taken_out(s, key);
    let m = as_map(s);
    let n = as_map(taken_out(s, key));
    assert(n == m.remove(key));
    assert(n.contains_key(other) <==> kept_at(taken_out(s, key), other) is Some);
    assert(m.contains_key(other) <==> kept_at(s, other) is Some);
    assert(n.contains_key(other) ==> n[other] == kept_at(taken_out(s, key), other)->0);
    assert(m.contains_key(other) ==> m[other] == kept_at(s, other)->0);
}

/// What files put in one after the other come to.
pub proof fn lemma_put_all(s: Files, new: Files, key: Seq<Seq<u8>>)
    requires
        distinct_keys(s),
        distinct_keys(new),
    ensures
        distinct_keys(put_all(s, new)),
        kept_at(put_all(s, new), key) == match kept_at(new, key) {
            Some(v) => Some(v),
            None => kept_at(s, key),
        },
    decreases new.len(),
{
    if new.len() > 0 {
        let front = new.drop_last();
        lemma_kept_last(new, key);
        lemma_put_all(s, front, key);
        lemma_kept_put(put_all(s, front), new.last().0, new.last().1, key);
    }
}

/// What files taken out one after the other come to.
pub proof fn lemma_take_all(s: Files, keys: Seq<Seq<Seq<u8>>>, key: Seq<Seq<u8>>)
    requires
        distinct_keys(s),
    ensures
        distinct_keys(take_all(s, keys)),
        kept_at(take_all(s, keys), key) == if keys.contains(key) {
            None
        } else {
            kept_at(s, key)
        },
    decreases keys.len(),
{
    if keys.len() > 0 {
        let front = keys.drop_last();
        lemma_take_all(s, front, key);
        lemma_out_at(take_all(s, front), keys.last(), key);
        if front.contains(key) {
            let k = choose|k: int| 0 <= k < front.len() && front[k] == key;
            assert(keys[k] == key);
        }
        if keys.contains(key) && key != keys.last() {
            let k = choose|k: int| 0 <= k < keys.len() && keys[k] == key;
            assert(front[k] == key);
        }
        if key == keys.last() {
            assert(keys[keys.len() - 1] == key);
        }
    }
}

/// What replacing files comes to, where no new path is an old one.
proof fn lemma_replaced(s: Files, new: Files, olds: Seq<Seq<Seq<u8>>>, key: Seq<Seq<u8>>)
    requires
        distinct_keys(s),
        distinct_keys(new),
        new.len() == olds.len(),
        forall|i: int| 0 <= i < new.len() ==> !olds.contains((#[trigger] new[i]).0),
    ensures
        distinct_keys(replaced_one_by_one(s, new, olds)),
        kept_at(replaced_one_by_one(s, new, olds), key) == if olds.contains(key) {
            None
        } else {
            match kept_at(new, key) {
                Some(v) => Some(v),
                None => kept_at(s, key),
            }
        },
    decreases new.len(),
{
    if new.len() > 0 {
        let nf = new.drop_last();
        let of = olds.drop_last();
        lemma_kept_last(new, key);
        assert forall|k: Seq<Seq<u8>>| #[trigger] olds.contains(k) <==> of.contains(k) || k
            == olds.last() by {
            if olds.contains(k) {
                let i = choose|i: int| 0 <= i < olds.len() && olds[i] == k;
                if i < of.len() {
                    assert(of[i] == k);
                }
            }
            if of.contains(k) {
                let i = choose|i: int| 0 <= i < of.len() && of[i] == k;
                assert(olds[i] == k);
            }
            if k == olds.last() {
                assert(olds[olds.len() - 1] == k);
            }
        }
        assert forall|i: int| 0 <= i < nf.len() implies !of.contains((#[trigger] nf[i]).0) by {
            assert(nf[i] == new[i]);
            assert(!olds.contains(new[i].0));
        }
        lemma_replaced(s, nf, of, key);
        let front = replaced_one_by_one(s, nf, of);
        lemma_kept_put(front, new.last().0, new.last().1, key);
        lemma_out_at(put(front, new.last().0, new.last().1), olds.last(), key);
        lemma_kept_last(new, key);
        assert(new[new.len() - 1] == new.last());
        assert(!olds.contains(new.last().0));
        lemma_slot_of(new, key);
        match slot_of(new, key) {
            Some(i) => {
                assert(!olds.contains(new[i].0));
            },
            None => {},
        }
    } else {
        lemma_slot_of(new, key);
    }
}

/// What is kept under a path is what the list has under it.
proof fn lemma_kept_is(s: Files, key: Seq<Seq<u8>>, value: Seq<u8>)
    requires
        distinct_keys(s),
    ensures
        kept_at(s, key) == Some(value) <==> s.contains((key, value)),
{
    lemma_slot_of(s, key);
    if s.contains((key, value)) {
        let k = choose|k: int| 0 <= k < s.len() && s[k] == (key, value);
        lemma_slot_is(s, k);
    }
    match slot_of(s, key) {
        Some(i) => {
            if s[i].1 == value {
                assert(s[i] == (key, value));
            }
        },
        None => {},
    }
}

/// The files below a path are those that are kept there.
pub proof fn lemma_under_kept(s: Files, path: Seq<Seq<u8>>, key: Seq<Seq<u8>>)
    requires
        distinct_keys(s),
    ensures
        keys_of(files_under(s, path)).contains(key) <==> under(key, path) && kept_at(s, key) is Some,
{
    lemma_files_under(s, path);
    let f = files_under(s, path);
    let keys = keys_of(f);
    lemma_slot_of(s, key);
    if keys.contains(key) {
        let k = choose|k: int| 0 <= k < keys.len() && keys[k] == key;
        assert(f.contains(f[k]));
        assert(s.contains(f[k]));
        lemma_kept_is(s, key, f[k].1);
        assert(f[k] == (key, f[k].1));
    }
    if under(key, path) && kept_at(s, key) is Some {
        let v = kept_at(s, key)->0;
        lemma_kept_is(s, key, v);
        assert(f.contains((key, v)));
        let k = choose|k: int| 0 <= k < f.len() && f[k] == (key, v);
        assert(keys[k] == key);
    }
}

/// A path below `dst` that stands for `rest` below `src`.
proof fn lemma_moved_key(key: Seq<Seq<u8>>, src: Seq<Seq<u8>>, dst: Seq<Seq<u8>>)
    requires
        under(key, src),
        key.len() > src.len() ==> key[src.len() as int] != seq![47u8] && key[src.len() as int]
            != seq![46u8],
    ensures
        moved_key(key, src, dst) == dst + key.skip(src.len() as int),
        under(moved_key(key, src, dst), dst),
        moved_key(key, src, dst).skip(dst.len() as int) == key.skip(src.len() as int),
        key == src + key.skip(src.len() as int),
{
    let rest = key.skip(src.len() as int);
    if rest.len() > 0 {
        assert(rest[0] == key[src.len() as int]);
    }
    assert((dst + rest).take(dst.len() as int) =~= dst);
    assert((dst + rest).skip(dst.len() as int) =~= rest);
    assert(key =~= src + rest) by {
        assert(key.take(src.len() as int) =~= src);
        assert forall|i: int| 0 <= i < src.len() implies key[i] == src[i] by {
            assert(key.take(src.len() as int)[i] == key[i]);
        }
    }
}

/// The files of a directory, where they go to, by path.
pub proof fn lemma_moved_files(s: Files, src: Seq<Seq<u8>>, dst: Seq<Seq<u8>>, key: Seq<Seq<u8>>)
    requires
        distinct_keys(s),
        plain_below(s, src),
    ensures
        distinct_keys(moved_files(files_under(s, src), src, dst)),
        forall|i: int|
            0 <= i < moved_files(files_under(s, src), src, dst).len() ==> under(
                (#[trigger] moved_files(files_under(s, src), src, dst)[i]).0,
                dst,
            ),
        kept_at(moved_files(files_under(s, src), src, dst), key) == if under(key, dst) {
            kept_below(s, src, key.skip(dst.len() as int))
        } else {
            None
        },
{
    let f = files_under(s, src);
    let m = moved_files(f, src, dst);
    lemma_files_under(s, src);
    assert forall|i: int| 0 <= i < f.len() implies m[i].0 == dst + f[i].0.skip(src.len() as int)
        && under(m[i].0, dst) && #[trigger] f[i].0 == src + f[i].0.skip(src.len() as int) by {
        lemma_plain_member(s, src, f[i]);
        lemma_moved_key(f[i].0, src, dst);
    }
    assert forall|i: int, j: int| 0 <= i < j < m.len() implies (#[trigger] m[i]).0 != (
    #[trigger] m[j]).0 by {
        assert(f[i].0 != f[j].0);
        assert(f[i].0 == src + f[i].0.skip(src.len() as int));
        assert(f[j].0 == src + f[j].0.skip(src.len() as int));
        let a = f[i].0.skip(src.len() as int);
        let b = f[j].0.skip(src.len() as int);
        if m[i].0 == m[j].0 {
            assert((dst + a).skip(dst.len() as int) =~= a);
            assert((dst + b).skip(dst.len() as int) =~= b);
        }
    }
    assert forall|i: int| 0 <= i < m.len() implies under((#[trigger] m[i]).0, dst) by {
        assert(f[i].0 == src + f[i].0.skip(src.len() as int));
    }
    lemma_slot_of(m, key);
    match slot_of(m, key) {
        Some(i) => {
            let rest = f[i].0.skip(src.len() as int);
            assert(f[i].0 == src + rest);
            assert(key == dst + rest);
            assert(key.skip(dst.len() as int) =~= rest);
            assert(f.contains(f[i]));
            lemma_kept_is(s, f[i].0, f[i].1);
            lemma_plain_member(s, src, f[i]);
        },
        None => {
            if under(key, dst) {
                let rest = key.skip(dst.len() as int);
                match kept_below(s, src, rest) {
                    Some(v) => {
                        lemma_kept_is(s, src + rest, v);
                        assert((src + rest).take(src.len() as int) =~= src);
                        assert(f.contains((src + rest, v)));
                        let k = choose|k: int| 0 <= k < f.len() && f[k] == (src + rest, v);
                        assert((src + rest).skip(src.len() as int) =~= rest);
                        lemma_moved_key(key, dst, dst);
                        assert(f[k].0 == src + f[k].0.skip(src.len() as int));
                        assert(m[k].0 == dst + rest);
                        assert(key =~= dst + rest) by {
                            assert forall|i: int| 0 <= i < dst.len() implies key[i] == dst[i] by {
                                assert(key.take(dst.len() as int)[i] == key[i]);
                            }
                        }
                    },
                    None => {},
                }
            }
        },
    }
}

/// What is kept below a directory under the rest of a path, where that goes on
/// with a name.
pub open spec fn kept_below(s: Files, dir: Seq<Seq<u8>>, rest: Seq<Seq<u8>>) -> Option<Seq<u8>> {
    kept_at(s, dir + rest)
}

proof fn lemma_plain_member(s: Files, src: Seq<Seq<u8>>, e: (Seq<Seq<u8>>, Seq<u8>))
    requires
        plain_below(s, src),
        files_under(s, src).contains(e),
    ensures
        under(e.0, src),
        e.0.len() > src.len() ==> e.0[src.len() as int] != seq![47u8] && e.0[src.len() as int]
            != seq![46u8],
{
    lemma_files_under(s, src);
    let k = choose|k: int| 0 <= k < s.len() && s[k] == e;
    assert(s[k].0 == e.0);
}

/// Moving a file puts its content at the destination, and leaves nothing at
/// the source.
pub proof fn lemma_renamed_file(s: Files, src: Seq<Seq<u8>>, dst: Seq<Seq<u8>>, data: Seq<u8>)
    requires
        distinct_keys(s),
        kept_at(s, src) == Some(data),
        src != dst,
    ensures
        as_map(renamed(s, src, dst)) == as_map(s).insert(dst, data).remove(src),
{
    let new = seq![(dst, data)];
    let olds = keys_of(taken(s, src));
    assert(olds =~= seq![src]);
    assert(new.drop_last() =~= Seq::empty());
    assert(olds.drop_last() =~= Seq::empty());
    assert(replaced_one_by_one(s, new.drop_last(), olds.drop_last()) == s);
    assert(renamed(s, src, dst) == taken_out(put(s, dst, data), src));
    lemma_put(s, dst, data);
    lemma_taken_out(put(s, dst, data), src);
}

/// Copying a file puts its content at the destination, and changes nothing
/// else.
pub proof fn lemma_copied_file(s: Files, src: Seq<Seq<u8>>, dst: Seq<Seq<u8>>, data: Seq<u8>)
    requires
        distinct_keys(s),
        kept_at(s, src) == Some(data),
    ensures
        as_map(copied(s, src, dst)) == as_map(s).insert(dst, data),
{
    let new = seq![(dst, data)];
    assert(new.drop_last() =~= Seq::empty());
    assert(put_all(s, new.drop_last()) == s);
    lemma_put(s, dst, data);
}

/// Copying a directory: below the destination is what is below the source, and
/// all else is as it was.
pub proof fn lemma_copied_dir(
    s: Files,
    src: Seq<Seq<u8>>,
    dst: Seq<Seq<u8>>,
    key: Seq<Seq<u8>>,
)
    requires
        distinct_keys(s),
        plain_below(s, src),
        kept_at(s, src) is None,
    ensures
        kept_at(copied(s, src, dst), key) == if under(key, dst) && kept_below(
            s,
            src,
            key.skip(dst.len() as int),
        ) is Some {
            kept_below(s, src, key.skip(dst.len() as int))
        } else {
            kept_at(s, key)
        },
{
    lemma_moved_files(s, src, dst, key);
    lemma_put_all(s, moved_files(files_under(s, src), src, dst), key);
}

/// Moving a directory, neither into itself nor above itself: below the
/// destination is what was below the source, there nothing is left, and all
/// else is as it was.
pub proof fn lemma_renamed_dir(
    s: Files,
    src: Seq<Seq<u8>>,
    dst: Seq<Seq<u8>>,
    key: Seq<Seq<u8>>,
)
    requires
        distinct_keys(s),
        plain_below(s, src),
        kept_at(s, src) is None,
        !under(dst, src),
        !under(src, dst),
    ensures
        kept_at(renamed(s, src, dst), key) == if under(key, src) {
            None
        } else if under(key, dst) && kept_below(s, src, key.skip(dst.len() as int)) is Some {
            kept_below(s, src, key.skip(dst.len() as int))
        } else {
            kept_at(s, key)
        },
{
    let new = moved_files(files_under(s, src), src, dst);
    let olds = keys_of(files_under(s, src));
    lemma_moved_files(s, src, dst, key);
    lemma_under_kept(s, src, key);
    assert forall|i: int| 0 <= i < new.len() implies !olds.contains((#[trigger] new[i]).0) by {
        let k = new[i].0;
        assert(under(k, dst));
        if olds.contains(k) {
            lemma_under_kept(s, src, k);
            lemma_two_prefixes(k, src, dst);
        }
    }
    lemma_replaced(s, new, olds, key);
    if under(key, src) && under(key, dst) {
        lemma_two_prefixes(key, src, dst);
    }
    lemma_slot_of(s, key);
}

pub proof fn lemma_two_prefixes(key: Seq<Seq<u8>>, a: Seq<Seq<u8>>, b: Seq<Seq<u8>>)
    requires
        under(key, a),
        under(key, b),
    ensures
        under(a, b) || under(b, a),
{
    if a.len() <= b.len() {
        assert(b.take(a.len() as int) =~= a) by {
            assert forall|i: int| 0 <= i < a.len() implies b[i] == a[i] by {
                assert(key.take(a.len() as int)[i] == key[i]);
                assert(key.take(b.len() as int)[i] == key[i]);
            }
        }
    } else {
        assert(a.take(b.len() as int) =~= b) by {
            assert forall|i: int| 0 <= i < b.len() implies a[i] == b[i] by {
                assert(key.take(a.len() as int)[i] == key[i]);
                assert(key.take(b.len() as int)[i] == key[i]);
            }
        }
    }
}

/// Removing a directory leaves nothing at it or below it, and all else as it
/// was.
pub proof fn lemma_dir_removed(s: Files, path: Seq<Seq<u8>>, key: Seq<Seq<u8>>)
    requires
        distinct_keys(s),
    ensures
        kept_at(dir_removed(s, path), key) == if under(key, path) {
            None
        } else {
            kept_at(s, key)
        },
{
    lemma_under_kept(s, path, key);
    lemma_take_all(s, keys_of(files_under(s, path)), key);
}

/// A directory that was made is one, unless a file is at its path; and no file
/// is changed.
pub proof fn lemma_dir_created(s: Files, path: Seq<Seq<u8>>, key: Seq<Seq<u8>>)
    requires
        distinct_keys(s),
    ensures
        kept_at(s, path) is None ==> directory_in(dir_created(s, path), path),
        kept_at(s, key) is Some ==> kept_at(dir_created(s, path), key) == kept_at(s, key),
{
    let marker = parts_joined(path, seq![dir_marker()]);
    let after = dir_created(s, path);
    reveal_strlit(".davgit_dir");
    vstd::utf8::is_ascii_chars_encode_utf8(".davgit_dir"@);
    assert(dir_marker().len() == 11);
    assert(marker == path + seq![dir_marker()]);
    assert(marker.take(path.len() as int) =~= path);
    assert(under(marker, path));
    assert(marker.len() == path.len() + 1);
    lemma_kept_put(s, marker, Seq::empty(), key);
    lemma_kept_put(s, marker, Seq::empty(), path);
    lemma_kept_put(s, marker, Seq::empty(), marker);
    lemma_slot_of(after, marker);
    assert(kept_at(after, marker) is Some);
    let i = slot_of(after, marker)->0;
    assert(under(after[i].0, path));
    assert(any_under(after, path));
}

} // verus!
