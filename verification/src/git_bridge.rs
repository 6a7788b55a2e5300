//! A repository as a plain map of files: reading a fetched pack into one, and
//! building the trees, the commit and the pack that write one back.

use vstd::prelude::*;
use vstd::string::*;
use vstd::utf8::{decode_utf8, encode_utf8, valid_utf8};

use crate::bytes::{copy_bytes, push_bytes, push_decimal, push_text, same_bytes, text};
use crate::fs::{Batch, BatchModel, Files, put_all, take_all};
use crate::git::entry::{
    EntryMode, EntryModel, TreeEntry, directory_mode, entry_bytes, file_mode, models, tree_bytes,
};
use crate::git::lists::ObjectError;
use crate::git::objects::{ObjectList, build_index_and_contents, list_model, walk_start, walked};
use crate::git::packfile::{
    OBJ_BLOB, OBJ_COMMIT, OBJ_TREE, hash_object, object_id, pack_bytes, plain_kinds,
};
use crate::git::repo::{RemoteModel, chars_of, or_else, owned, pack_list, str_chars, text_or};
use crate::git::transport::{
    PktError, PktHead, RefAdvertisement, RefError, RefModel, line_view, no_refs, pkt_announced,
    pkt_head,
};
use crate::layout::{lemma_pack_reads_back, pack_reads_back};
use crate::oid::{ObjectId, ObjectMap};
use crate::outside::{
    clock, commit_text, commit_tree, hex_encode, hex_of, lossy_text, oid_model, plain_token,
    read_commit_tree, signature, lossy, utf8_text,
};
use crate::path::{Components, RepoPath, components_of, file_name_of, parent_of, under};
use crate::path_map::{FileMap, PathMap, Slots, distinct_keys, kept_at, lemma_slot_of, put, slot_of};

verus! {

/// Why files cannot be read from a repository or written to it.
#[derive(Clone, Copy, PartialEq, Eq, Structural, Debug)]
pub enum BridgeError {
    /// A path that does not end in a name.
    NoFileName,
    /// No file, and so no tree.
    NoRoot,
    /// The commit that the branch leads to is not in the pack.
    MissingCommit,
    /// The commit that the branch leads to cannot be read.
    BadCommit,
    /// The trees cannot be walked.
    Object(ObjectError),
    /// The objects cannot be packed.
    Compression,
    /// A path that is not UTF-8.
    NotUtf8,
}

// ---------------------------------------------------------------------------
// pkt-line helpers
// ---------------------------------------------------------------------------

/// The line at `pos`, and where it ends: no line for a flush. The data must
/// not end before one.
pub open spec fn strict_line(data: Seq<u8>, pos: int) -> Result<(Option<Seq<u8>>, int), PktError> {
    if pos + 4 > data.len() {
        Err(PktError::Truncated)
    } else {
        match pkt_announced(data.subrange(pos, pos + 4)) {
            Err(e) => Err(e),
            Ok(PktHead::Flush) => Ok((None, pos + 4)),
            Ok(PktHead::Line(n)) => if pos + 4 + n > data.len() {
                Err(PktError::Truncated)
            } else {
                Ok((Some(data.subrange(pos + 4, pos + 4 + n)), pos + 4 + n))
            },
        }
    }
}

/// Reads the pkt-line at `pos`, and moves `pos` behind it. A flush gives no
/// line; where the data ends before one, that is an error.
pub fn read_pkt_line(data: &[u8], pos: &mut usize) -> (r: Result<Option<Vec<u8>>, PktError>)
    ensures
        match r {
            Ok(line) => strict_line(data@, *old(pos) as int) == Ok::<
                (Option<Seq<u8>>, int),
                PktError,
            >((line_view(line), *final(pos) as int)) && *old(pos) < *final(pos) <= data@.len(),
            Err(e) => strict_line(data@, *old(pos) as int) == Err::<
                (Option<Seq<u8>>, int),
                PktError,
            >(e) && *final(pos) == *old(pos),
        },
{
    let start: usize = *pos;
    if start > data.len() || data.len() - start < 4 {
        return Err(PktError::Truncated);
    }
    match pkt_head(&data[start..start + 4]) {
        Err(e) => Err(e),
        Ok(PktHead::Flush) => {
            *pos = start + 4;
            Ok(None)
        },
        Ok(PktHead::Line(n)) => {
            if n > data.len() - start - 4 {
                return Err(PktError::Truncated);
            }
            *pos = start + 4 + n;
            Ok(Some(copy_bytes(&data[start + 4..start + 4 + n])))
        },
    }
}

/// The refs with the lines from `pos` on, up to a flush; and where they end.
pub open spec fn strict_refs(adv: RefModel, data: Seq<u8>, pos: int) -> Result<
    (RefModel, int),
    RefError,
>
    decreases data.len() - pos,
{
    match strict_line(data, pos) {
        Err(e) => Err(RefError::Pkt(e)),
        Ok((None, end)) => Ok((adv, end)),
        Ok((Some(line), end)) => match adv.with_line(line) {
            Err(e) => Err(e),
            Ok(next) => if pos < end <= data.len() {
                strict_refs(next, data, end)
            } else {
                Ok((next, end))
            },
        },
    }
}

/// Reads an advertisement at `pos`, up to its flush, and moves `pos` behind it.
pub fn read_refs(data: &[u8], pos: &mut usize) -> (r: Result<RefAdvertisement, RefError>)
    ensures
        match r {
            Ok(adv) => strict_refs(no_refs(), data@, *old(pos) as int) == Ok::<
                (RefModel, int),
                RefError,
            >((adv@, *final(pos) as int)),
            Err(e) => strict_refs(no_refs(), data@, *old(pos) as int) == Err::<
                (RefModel, int),
                RefError,
            >(e) && *final(pos) == *old(pos),
        },
{
    let ghost start = *pos as int;
    let mut adv = RefAdvertisement::new();
    let mut at: usize = *pos;
    loop
        invariant
            start == *old(pos),
            *pos == *old(pos),
            strict_refs(no_refs(), data@, start) == strict_refs(adv@, data@, at as int),
        decreases data@.len() - at,
    {
        match read_pkt_line(data, &mut at) {
            Err(e) => {
                return Err(RefError::Pkt(e));
            },
            Ok(None) => {
                *pos = at;
                return Ok(adv);
            },
            Ok(Some(line)) => {
                match adv.add_line(line.as_slice()) {
                    Err(e) => {
                        return Err(e);
                    },
                    Ok(_) => {},
                }
            },
        }
    }
}

// ---------------------------------------------------------------------------
// Reading
// ---------------------------------------------------------------------------

/// What a fetch brought: the commit that the branch leads to, and the objects.
pub struct FetchResult {
    pub head_commit_oid: ObjectId,
    pub objects: ObjectMap,
}

/// The files of the commit, under their paths.
pub open spec fn files_of(head: Seq<u8>, objects: Map<Seq<u8>, Seq<u8>>) -> Result<
    Files,
    BridgeError,
> {
    if !objects.contains_key(head) {
        Err(BridgeError::MissingCommit)
    } else {
        match commit_tree(objects[head]) {
            None => Err(BridgeError::BadCommit),
            Some(tree) => match walked(objects, tree, Seq::empty(), Set::empty(), walk_start()) {
                Err(e) => Err(BridgeError::Object(e)),
                Ok(out) => Ok(out.contents),
            },
        }
    }
}

/// The files of the commit that was fetched, under their paths.
pub fn parse_fetch_to_map(result: &FetchResult) -> (r: Result<FileMap, BridgeError>)
    ensures
        match r {
            Ok(files) => files_of(result.head_commit_oid@, result.objects@) == Ok::<
                Files,
                BridgeError,
            >(files@),
            Err(e) => files_of(result.head_commit_oid@, result.objects@) == Err::<
                Files,
                BridgeError,
            >(e),
        },
{
    match result.objects.get(&result.head_commit_oid) {
        None => Err(BridgeError::MissingCommit),
        Some(data) => match read_commit_tree(data.as_slice()) {
            None => Err(BridgeError::BadCommit),
            Some(tree) => match build_index_and_contents(&result.objects, &tree) {
                Ok((_, contents)) => Ok(contents),
                Err(e) => Err(BridgeError::Object(e)),
            },
        },
    }
}

// ---------------------------------------------------------------------------
// Trees
// ---------------------------------------------------------------------------

/// Whether `a` comes before `b`, byte by byte.
pub open spec fn bytes_before(a: Seq<u8>, b: Seq<u8>) -> bool
    decreases a.len(),
{
    if b.len() == 0 {
        false
    } else if a.len() == 0 {
        true
    } else if a[0] != b[0] {
        a[0] < b[0]
    } else {
        bytes_before(a.drop_first(), b.drop_first())
    }
}

/// The entries with one more, in the order of their names; it takes the place
/// of one with its name.
pub open spec fn entry_put(es: Seq<EntryModel>, e: EntryModel) -> Seq<EntryModel>
    decreases es.len(),
{
    if es.len() == 0 {
        seq![e]
    } else if e.name == es[0].name {
        es.update(0, e)
    } else if bytes_before(e.name, es[0].name) {
        seq![e] + es
    } else {
        seq![es[0]] + entry_put(es.drop_first(), e)
    }
}

/// The entries of a directory, in the order of their names.
pub struct DirEntries {
    pub entries: Vec<TreeEntry>,
}

impl View for DirEntries {
    type V = Seq<EntryModel>;

    open spec fn view(&self) -> Seq<EntryModel> {
        models(self.entries@)
    }
}

fn comes_before(a: &[u8], b: &[u8]) -> (r: bool)
    ensures
        r == bytes_before(a@, b@),
{
    let mut i: usize = 0;
    assert(a@.skip(0) =~= a@);
    assert(b@.skip(0) =~= b@);
    while i < a.len() && i < b.len()
        invariant
            i <= a@.len(),
            i <= b@.len(),
            bytes_before(a@, b@) == bytes_before(a@.skip(i as int), b@.skip(i as int)),
        decreases a@.len() - i,
    {
        if a[i] != b[i] {
            return a[i] < b[i];
        }
        assert(a@.skip(i as int).drop_first() =~= a@.skip(i + 1));
        assert(b@.skip(i as int).drop_first() =~= b@.skip(i + 1));
        i += 1;
    }
    i < b.len()
}

impl DirEntries {
    fn empty() -> (r: DirEntries)
        ensures
            r@ == Seq::<EntryModel>::empty(),
    {
        let r = DirEntries { entries: Vec::new() };
        assert(r@ =~= Seq::empty());
        r
    }

    fn duplicate(&self) -> (r: DirEntries)
        ensures
            r@ == self@,
    {
        let mut entries: Vec<TreeEntry> = Vec::new();
        let mut i: usize = 0;
        while i < self.entries.len()
            invariant
                i <= self.entries@.len(),
                entries@.len() == i,
                forall|k: int| 0 <= k < i ==> (#[trigger] entries@[k])@ == self.entries@[k]@,
            decreases self.entries@.len() - i,
        {
            entries.push(self.entries[i].duplicate());
            i += 1;
        }
        assert(models(entries@) =~= self@);
        DirEntries { entries }
    }

    fn put(&mut self, e: TreeEntry)
        ensures
            final(self)@ == entry_put(old(self)@, e@),
    {
        let ghost es = self@;
        let ghost model = e@;
        let mut i: usize = 0;
        assert(es.skip(0) =~= es);
        assert(es.take(0) + entry_put(es.skip(0), model) =~= entry_put(es, model));
        while i < self.entries.len()
            invariant
                *self == *old(self),
                es == models(self.entries@),
                model == e@,
                i <= es.len(),
                es.take(i as int) + entry_put(es.skip(i as int), model) == entry_put(es, model),
            decreases es.len() - i,
        {
            let ghost rest = es.skip(i as int);
            assert(rest[0] == es[i as int]);
            let name = self.entries[i].filename.as_slice();
            if same_bytes(e.filename.as_slice(), name) {
                self.entries.set(i, e);
                assert(self@ =~= es.update(i as int, model));
                assert(es.take(i as int) + rest.update(0, model) =~= es.update(i as int, model));
                return;
            }
            if comes_before(e.filename.as_slice(), name) {
                self.entries.insert(i, e);
                assert(self@ =~= es.insert(i as int, model));
                assert(es.take(i as int) + (seq![model] + rest) =~= es.insert(i as int, model));
                return;
            }
            assert(rest.drop_first() =~= es.skip(i + 1));
            assert(es.take(i as int) + (seq![rest[0]] + entry_put(es.skip(i + 1), model))
                =~= es.take(i + 1) + entry_put(es.skip(i + 1), model));
            i += 1;
        }
        self.entries.push(e);
        assert(es.skip(i as int) =~= Seq::empty());
        assert(self@ =~= es.push(model));
        assert(es.take(i as int) + seq![model] =~= es.push(model));
    }
}

/// The bytes of a tree object with these entries, in their order.
pub fn build_tree_object(entries: &DirEntries) -> (r: Vec<u8>)
    ensures
        r@ == tree_bytes(entries@),
{
    let ghost es = entries@;
    let mut tree: Vec<u8> = Vec::new();
    let mut i: usize = 0;
    assert(es.take(0) =~= Seq::empty());
    while i < entries.entries.len()
        invariant
            i <= entries.entries@.len(),
            es == models(entries.entries@),
            tree@ == tree_bytes(es.take(i as int)),
        decreases entries.entries@.len() - i,
    {
        let ghost before = tree@;
        assert(es.take(i + 1).drop_last() =~= es.take(i as int));
        assert(es.take(i + 1).last() == es[i as int]);
        let e = &entries.entries[i];
        push_bytes(&mut tree, e.mode.octal.as_slice());
        tree.push(32);
        push_bytes(&mut tree, e.filename.as_slice());
        tree.push(0);
        push_bytes(&mut tree, e.oid.as_bytes());
        assert(tree@ =~= before + entry_bytes(es[i as int]));
        i += 1;
    }
    assert(es.take(i as int) =~= es);
    tree
}

/// A directory that is in no other: the root, however it is written.
pub open spec fn top_dir(dir: Seq<Seq<u8>>) -> bool {
    dir.len() == 0 || dir == seq![seq![46u8]] || dir == seq![seq![47u8]]
}

/// The groups with one, empty where it is new, for every directory that `dir`
/// is in.
pub open spec fn with_dirs_above(
    groups: Slots<Seq<EntryModel>>,
    dir: Seq<Seq<u8>>,
) -> Slots<Seq<EntryModel>>
    decreases dir.len(),
{
    if top_dir(dir) {
        groups
    } else {
        let up = parent_of(dir);
        with_dirs_above(put(groups, up, entries_at(groups, up)), up)
    }
}

/// The entries of each directory on the way to a file: one for each file that
/// is directly in it.
pub open spec fn grouped(files: Files) -> Result<Slots<Seq<EntryModel>>, BridgeError>
    decreases files.len(),
{
    if files.len() == 0 {
        Ok(Seq::empty())
    } else {
        let (path, data) = files.last();
        match (grouped(files.drop_last()), file_name_of(path)) {
            (Err(e), _) => Err(e),
            (Ok(_), None) => Err(BridgeError::NoFileName),
            (Ok(front), Some(name)) => Ok(
                with_dirs_above(
                    put(
                        front,
                        parent_of(path),
                        entry_put(
                            entries_at(front, parent_of(path)),
                            EntryModel {
                                octal: file_mode(),
                                name: lossy(name),
                                oid: object_id(OBJ_BLOB, data),
                            },
                        ),
                    ),
                    parent_of(path),
                ),
            ),
        }
    }
}

/// The entries of a directory, none where it has none.
pub open spec fn entries_at(groups: Slots<Seq<EntryModel>>, dir: Seq<Seq<u8>>) -> Seq<EntryModel> {
    match kept_at(groups, dir) {
        Some(es) => es,
        None => Seq::empty(),
    }
}

/// The files as objects.
pub open spec fn blobs_of(files: Files) -> Seq<(u8, Seq<u8>)> {
    files.map_values(|f: (Seq<Seq<u8>>, Seq<u8>)| (OBJ_BLOB, f.1))
}

/// Puts a path behind those that are as deep or deeper.
pub open spec fn depth_placed(dirs: Seq<Seq<Seq<u8>>>, dir: Seq<Seq<u8>>) -> Seq<Seq<Seq<u8>>>
    decreases dirs.len(),
{
    if dirs.len() == 0 || dirs.last().len() >= dir.len() {
        dirs.push(dir)
    } else {
        depth_placed(dirs.drop_last(), dir).push(dirs.last())
    }
}

/// The directories, the deepest first.
pub open spec fn by_depth(groups: Slots<Seq<EntryModel>>) -> Seq<Seq<Seq<u8>>>
    decreases groups.len(),
{
    if groups.len() == 0 {
        Seq::empty()
    } else {
        depth_placed(by_depth(groups.drop_last()), groups.last().0)
    }
}

/// The entries with those of the trees among `trees` that are directly in the
/// directory `dir`.
pub open spec fn with_subdirs(
    es: Seq<EntryModel>,
    trees: Slots<Seq<u8>>,
    dir: Seq<Seq<u8>>,
) -> Result<Seq<EntryModel>, BridgeError>
    decreases trees.len(),
{
    if trees.len() == 0 {
        Ok(es)
    } else {
        let (sub, oid) = trees.last();
        match with_subdirs(es, trees.drop_last(), dir) {
            Err(e) => Err(e),
            Ok(front) => if under(sub, dir) && sub.len() == dir.len() + 1 {
                match file_name_of(seq![sub.last()]) {
                    None => Err(BridgeError::NoFileName),
                    Some(name) => Ok(
                        entry_put(
                            front,
                            EntryModel { octal: directory_mode(), name: lossy(name), oid },
                        ),
                    ),
                }
            } else {
                Ok(front)
            },
        }
    }
}

/// The trees of the directories, one after the other: their ids by path, and
/// the objects.
pub open spec fn trees_of(dirs: Seq<Seq<Seq<u8>>>, groups: Slots<Seq<EntryModel>>) -> Result<
    (Slots<Seq<u8>>, Seq<(u8, Seq<u8>)>),
    BridgeError,
>
    decreases dirs.len(),
{
    if dirs.len() == 0 {
        Ok((Seq::empty(), Seq::empty()))
    } else {
        match trees_of(dirs.drop_last(), groups) {
            Err(e) => Err(e),
            Ok((trees, list)) => match with_subdirs(
                entries_at(groups, dirs.last()),
                trees,
                dirs.last(),
            ) {
                Err(e) => Err(e),
                Ok(es) => {
                    let data = tree_bytes(es);
                    Ok(
                        (
                            put(trees, dirs.last(), object_id(OBJ_TREE, data)),
                            list.push((OBJ_TREE, data)),
                        ),
                    )
                },
            },
        }
    }
}

/// The tree of the root: that of the path without components, or of `.`, or
/// else the last that was built.
pub open spec fn root_of(trees: Slots<Seq<u8>>) -> Option<Seq<u8>> {
    match kept_at(trees, Seq::empty()) {
        Some(oid) => Some(oid),
        None => match kept_at(trees, seq![seq![46u8]]) {
            Some(oid) => Some(oid),
            None => if trees.len() > 0 {
                Some(trees.last().1)
            } else {
                None
            },
        },
    }
}

/// The root tree of the files, and all objects: the files, then the trees, the
/// deepest first. Every directory on the way to a file has a tree.
pub open spec fn built_trees(files: Files) -> Result<(Seq<u8>, Seq<(u8, Seq<u8>)>), BridgeError> {
    match grouped(files) {
        Err(e) => Err(e),
        Ok(groups) => match trees_of(by_depth(groups), groups) {
            Err(e) => Err(e),
            Ok((trees, list)) => match root_of(trees) {
                None => Err(BridgeError::NoRoot),
                Some(root) => Ok((root, blobs_of(files) + list)),
            },
        },
    }
}

fn is_top_dir(dir: &Components) -> (r: bool)
    ensures
        r == top_dir(dir@),
{
    if dir.len() == 0 {
        return true;
    }
    if dir.len() > 1 {
        return false;
    }
    let name = dir.name(0);
    proof {
        assert(dir@ =~= seq![name@]);
        assert(name@.len() == 1 && name@[0] == 46 ==> name@ =~= seq![46u8]);
        assert(name@.len() == 1 && name@[0] == 47 ==> name@ =~= seq![47u8]);
        assert(seq![seq![46u8]][0] == seq![46u8]);
        assert(seq![seq![47u8]][0] == seq![47u8]);
    }
    name.len() == 1 && (name[0] == 46 || name[0] == 47)
}

fn add_dirs_above(groups: &mut PathMap<DirEntries>, dir: &Components)
    ensures
        final(groups)@ == with_dirs_above(old(groups)@, dir@),
{
    let mut at = dir.duplicate();
    while !is_top_dir(&at)
        invariant
            with_dirs_above(groups@, at@) == with_dirs_above(old(groups)@, dir@),
        decreases at@.len(),
    {
        let up = at.parent();
        let entries = match groups.get(&up) {
            Some(es) => es.duplicate(),
            None => DirEntries::empty(),
        };
        groups.insert(&up, entries);
        at = up;
    }
}

fn group_files(files: &FileMap) -> (r: Result<PathMap<DirEntries>, BridgeError>)
    ensures
        match r {
            Ok(groups) => grouped(files@) == Ok::<Slots<Seq<EntryModel>>, BridgeError>(groups@),
            Err(e) => grouped(files@) == Err::<Slots<Seq<EntryModel>>, BridgeError>(e),
        },
{
    let ghost s = files@;
    let mut groups: PathMap<DirEntries> = PathMap::new();
    let mut i: usize = 0;
    assert(s.take(0) =~= Seq::empty());
    while i < files.len()
        invariant
            s == files@,
            i <= s.len(),
            grouped(s.take(i as int)) == Ok::<Slots<Seq<EntryModel>>, BridgeError>(groups@),
        decreases s.len() - i,
    {
        assert(s.take(i + 1).drop_last() =~= s.take(i as int));
        assert(s.take(i + 1).last() == s[i as int]);
        let path = files.key(i);
        match path.file_name() {
            None => {
                proof {
                    lemma_grouped_fails(s, i + 1);
                }
                return Err(BridgeError::NoFileName);
            },
            Some(name) => {
                let parent = path.parent();
                let mut entries = match groups.get(&parent) {
                    Some(es) => es.duplicate(),
                    None => DirEntries::empty(),
                };
                let oid = hash_object(OBJ_BLOB, files.value(i).as_slice());
                entries.put(
                    TreeEntry {
                        mode: EntryMode::blob(),
                        filename: lossy_text(name.as_slice()),
                        oid,
                    },
                );
                groups.insert(&parent, entries);
                add_dirs_above(&mut groups, &parent);
            },
        }
        i += 1;
    }
    assert(s.take(i as int) =~= s);
    Ok(groups)
}

proof fn lemma_grouped_fails(s: Files, k: int)
    requires
        0 <= k <= s.len(),
        grouped(s.take(k)) is Err,
    ensures
        grouped(s) == grouped(s.take(k)),
    decreases s.len(),
{
    if k < s.len() {
        let front = s.drop_last();
        assert(front.take(k) =~= s.take(k));
        lemma_grouped_fails(front, k);
    } else {
        assert(s.take(k) =~= s);
    }
}

/// What a list of paths is.
pub open spec fn dir_views(dirs: Seq<Components>) -> Seq<Seq<Seq<u8>>> {
    dirs.map_values(|d: Components| d@)
}

fn sort_by_depth(groups: &PathMap<DirEntries>) -> (r: Vec<Components>)
    ensures
        dir_views(r@) == by_depth(groups@),
{
    let ghost s = groups@;
    let mut r: Vec<Components> = Vec::new();
    let mut i: usize = 0;
    assert(s.take(0) =~= Seq::empty());
    assert(dir_views(r@) =~= Seq::empty());
    while i < groups.len()
        invariant
            s == groups@,
            i <= s.len(),
            dir_views(r@) == by_depth(s.take(i as int)),
        decreases s.len() - i,
    {
        let ghost all = dir_views(r@);
        assert(s.take(i + 1).drop_last() =~= s.take(i as int));
        assert(s.take(i + 1).last() == s[i as int]);
        let dir = groups.key(i).duplicate();
        let ghost d = dir@;
        let mut n: usize = r.len();
        assert(all.take(n as int) =~= all);
        assert(all.skip(n as int) =~= Seq::empty());
        while n > 0 && r[n - 1].len() < dir.len()
            invariant
                n <= r@.len(),
                all == dir_views(r@),
                d == dir@,
                depth_placed(all, d) =~= depth_placed(all.take(n as int), d) + all.skip(n as int),
            decreases n,
        {
            assert(all.take(n as int).last() == all[n - 1]);
            assert(all.take(n as int).drop_last() =~= all.take(n - 1));
            n -= 1;
        }
        proof {
            if n > 0 {
                assert(all.take(n as int).last() == all[n - 1]);
            }
            assert(depth_placed(all, d) =~= all.insert(n as int, d));
        }
        r.insert(n, dir);
        assert(dir_views(r@) =~= all.insert(n as int, d));
        i += 1;
    }
    assert(s.take(i as int) =~= s);
    r
}

fn add_subdirs(entries: DirEntries, trees: &PathMap<ObjectId>, dir: &Components) -> (r: Result<
    DirEntries,
    BridgeError,
>)
    ensures
        match r {
            Ok(es) => with_subdirs(entries@, trees@, dir@) == Ok::<Seq<EntryModel>, BridgeError>(
                es@,
            ),
            Err(e) => with_subdirs(entries@, trees@, dir@) == Err::<Seq<EntryModel>, BridgeError>(
                e,
            ),
        },
{
    let ghost start = entries@;
    let ghost s = trees@;
    let mut es = entries;
    let mut i: usize = 0;
    assert(s.take(0) =~= Seq::empty());
    while i < trees.len()
        invariant
            s == trees@,
            start == entries@,
            i <= s.len(),
            with_subdirs(start, s.take(i as int), dir@) == Ok::<Seq<EntryModel>, BridgeError>(es@),
        decreases s.len() - i,
    {
        assert(s.take(i + 1).drop_last() =~= s.take(i as int));
        assert(s.take(i + 1).last() == s[i as int]);
        let sub = trees.key(i);
        if sub.starts_with(dir) && sub.len() - dir.len() == 1 {
            let last = sub.part(sub.len() - 1, sub.len());
            assert(last@ =~= seq![sub@.last()]);
            match last.file_name() {
                None => {
                    proof {
                        lemma_subdirs_fail(start, s, dir@, i + 1);
                    }
                    return Err(BridgeError::NoFileName);
                },
                Some(name) => {
                    es.put(
                        TreeEntry {
                            mode: EntryMode::tree(),
                            filename: lossy_text(name.as_slice()),
                            oid: *trees.value(i),
                        },
                    );
                },
            }
        }
        i += 1;
    }
    assert(s.take(i as int) =~= s);
    Ok(es)
}

proof fn lemma_subdirs_fail(
    es: Seq<EntryModel>,
    trees: Slots<Seq<u8>>,
    dir: Seq<Seq<u8>>,
    k: int,
)
    requires
        0 <= k <= trees.len(),
        with_subdirs(es, trees.take(k), dir) is Err,
    ensures
        with_subdirs(es, trees, dir) == with_subdirs(es, trees.take(k), dir),
    decreases trees.len(),
{
    if k < trees.len() {
        let front = trees.drop_last();
        assert(front.take(k) =~= trees.take(k));
        lemma_subdirs_fail(es, front, dir, k);
    } else {
        assert(trees.take(k) =~= trees);
    }
}

proof fn lemma_trees_fail(dirs: Seq<Seq<Seq<u8>>>, groups: Slots<Seq<EntryModel>>, k: int)
    requires
        0 <= k <= dirs.len(),
        trees_of(dirs.take(k), groups) is Err,
    ensures
        trees_of(dirs, groups) == trees_of(dirs.take(k), groups),
    decreases dirs.len(),
{
    if k < dirs.len() {
        let front = dirs.drop_last();
        assert(front.take(k) =~= dirs.take(k));
        lemma_trees_fail(front, groups, k);
    } else {
        assert(dirs.take(k) =~= dirs);
    }
}

/// The root tree of the files, and all objects.
pub fn build_trees(files: &FileMap) -> (r: Result<(ObjectId, ObjectList), BridgeError>)
    ensures
        match r {
            Ok((root, list)) => built_trees(files@) == Ok::<
                (Seq<u8>, Seq<(u8, Seq<u8>)>),
                BridgeError,
            >((root@, list_model(list@))) && plain_kinds(list_model(list@)),
            Err(e) => built_trees(files@) == Err::<(Seq<u8>, Seq<(u8, Seq<u8>)>), BridgeError>(e),
        },
{
    let groups = match group_files(files) {
        Ok(groups) => groups,
        Err(e) => {
            return Err(e);
        },
    };
    let mut list: ObjectList = Vec::new();
    let mut i: usize = 0;
    while i < files.len()
        invariant
            i <= files@.len(),
            list@.len() == i,
            forall|k: int|
                0 <= k < i ==> (#[trigger] list@[k]).0 == OBJ_BLOB && list@[k].1@ == files@[k].1,
        decreases files@.len() - i,
    {
        list.push((OBJ_BLOB, copy_bytes(files.value(i).as_slice())));
        i += 1;
    }
    assert(list_model(list@) =~= blobs_of(files@));
    let ghost blobs = list_model(list@);
    let dirs = sort_by_depth(&groups);
    let ghost ds = dir_views(dirs@);
    let mut trees: PathMap<ObjectId> = PathMap::new();
    let ghost mut made: Seq<(u8, Seq<u8>)> = Seq::empty();
    let mut k: usize = 0;
    assert(ds.take(0) =~= Seq::empty());
    assert(blobs + made =~= blobs);
    while k < dirs.len()
        invariant
            k <= dirs@.len(),
            ds == dir_views(dirs@),
            ds == by_depth(groups@),
            grouped(files@) == Ok::<Slots<Seq<EntryModel>>, BridgeError>(groups@),
            blobs == blobs_of(files@),
            trees_of(ds.take(k as int), groups@) == Ok::<
                (Slots<Seq<u8>>, Seq<(u8, Seq<u8>)>),
                BridgeError,
            >((trees@, made)),
            list_model(list@) == blobs + made,
            plain_kinds(list_model(list@)),
        decreases dirs@.len() - k,
    {
        assert(ds.take(k + 1).drop_last() =~= ds.take(k as int));
        assert(ds.take(k + 1).last() == ds[k as int]);
        let dir = &dirs[k];
        let own = match groups.get(dir) {
            Some(es) => es.duplicate(),
            None => DirEntries::empty(),
        };
        let entries = match add_subdirs(own, &trees, dir) {
            Ok(es) => es,
            Err(e) => {
                proof {
                    lemma_trees_fail(ds, groups@, k + 1);
                }
                return Err(e);
            },
        };
        let data = build_tree_object(&entries);
        let oid = hash_object(OBJ_TREE, data.as_slice());
        trees.insert(dir, oid);
        let ghost before = list_model(list@);
        let ghost content = data@;
        list.push((OBJ_TREE, data));
        proof {
            assert(list_model(list@) =~= before.push((OBJ_TREE, content)));
            made = made.push((OBJ_TREE, content));
            assert(list_model(list@) =~= blobs + made);
        }
        k += 1;
    }
    assert(ds.take(k as int) =~= ds);
    let empty = Components::empty();
    if let Some(oid) = trees.get(&empty) {
        return Ok((*oid, list));
    }
    let mut dot = Components::empty();
    dot.push(".".as_bytes());
    proof {
        reveal_strlit(".");
        vstd::utf8::is_ascii_chars_encode_utf8("."@);
        assert(text(".") =~= seq![46u8]);
        assert(dot@ =~= seq![seq![46u8]]);
    }
    if let Some(oid) = trees.get(&dot) {
        return Ok((*oid, list));
    }
    let n: usize = trees.len();
    if n == 0 {
        return Err(BridgeError::NoRoot);
    }
    Ok((*trees.value(n - 1), list))
}

// ---------------------------------------------------------------------------
// Commits
// ---------------------------------------------------------------------------

/// The commit of a tree at a given time, in seconds. The message ends in a
/// newline.
pub fn build_commit_at(
    tree_oid: &ObjectId,
    parent_oid: Option<&ObjectId>,
    author_name: &str,
    author_email: &str,
    message: &str,
    seconds: u64,
) -> (r: Vec<u8>)
    ensures
        r@ == commit_text(
            tree_oid@,
            oid_model(parent_oid),
            text(author_name),
            text(author_email),
            seconds as int,
            text(message) + text("\n"),
        ),
{
    let mut who = copy_bytes(author_name.as_bytes());
    push_text(&mut who, " <");
    push_text(&mut who, author_email);
    push_text(&mut who, "> ");
    push_decimal(&mut who, seconds);
    push_text(&mut who, " +0000\n");
    assert(who@ == signature(text(author_name), text(author_email), seconds as int));
    let mut parents: Vec<u8> = Vec::new();
    if let Some(parent) = parent_oid {
        push_text(&mut parents, "parent ");
        push_bytes(&mut parents, hex_encode(parent.as_bytes()).as_slice());
        push_text(&mut parents, "\n");
        assert(parents@ =~= text("parent ") + hex_of(parent@) + text("\n"));
    }
    let mut said = copy_bytes(message.as_bytes());
    push_text(&mut said, "\n");
    let mut commit: Vec<u8> = copy_bytes("tree ".as_bytes());
    push_bytes(&mut commit, hex_encode(tree_oid.as_bytes()).as_slice());
    push_text(&mut commit, "\n");
    push_bytes(&mut commit, parents.as_slice());
    push_text(&mut commit, "author ");
    push_bytes(&mut commit, who.as_slice());
    push_text(&mut commit, "committer ");
    push_bytes(&mut commit, who.as_slice());
    push_text(&mut commit, "\n");
    push_bytes(&mut commit, said.as_slice());
    commit
}

/// The commit of a tree, made now.
pub fn build_commit(
    tree_oid: &ObjectId,
    parent_oid: Option<&ObjectId>,
    author_name: &str,
    author_email: &str,
    message: &str,
) -> (r: Vec<u8>)
    ensures
        exists|seconds: u64|
            r@ == #[trigger] commit_text(
                tree_oid@,
                oid_model(parent_oid),
                text(author_name),
                text(author_email),
                seconds as int,
                text(message) + text("\n"),
            ),
{
    build_commit_at(tree_oid, parent_oid, author_name, author_email, message, clock().0)
}

/// The commit of the files at a given time, and all objects: the files, the
/// trees, and the commit the last.
pub open spec fn change_commit(
    files: Files,
    parent: Option<Seq<u8>>,
    name: Seq<u8>,
    email: Seq<u8>,
    message: Seq<u8>,
    seconds: int,
) -> Result<(Seq<u8>, Seq<(u8, Seq<u8>)>), BridgeError> {
    match built_trees(files) {
        Err(e) => Err(e),
        Ok((root, list)) => {
            let commit = commit_text(root, parent, name, email, seconds, message + text("\n"));
            Ok((object_id(OBJ_COMMIT, commit), list.push((OBJ_COMMIT, commit))))
        },
    }
}

/// The commit of the files, and all objects.
pub fn build_change_commit(
    files: &FileMap,
    parent_oid: Option<ObjectId>,
    author_name: &str,
    author_email: &str,
    message: &str,
    seconds: u64,
) -> (r: Result<(ObjectId, ObjectList), BridgeError>)
    ensures
        ({
            let spec_result = change_commit(
                files@,
                match parent_oid {
                    Some(p) => Some(p@),
                    None => None,
                },
                text(author_name),
                text(author_email),
                text(message),
                seconds as int,
            );
            match r {
                Ok((oid, list)) => spec_result == Ok::<
                    (Seq<u8>, Seq<(u8, Seq<u8>)>),
                    BridgeError,
                >((oid@, list_model(list@))) && plain_kinds(list_model(list@)),
                Err(e) => spec_result == Err::<(Seq<u8>, Seq<(u8, Seq<u8>)>), BridgeError>(e),
            }
        }),
{
    let (tree, list): (ObjectId, ObjectList) = match build_trees(files) {
        Ok(x) => x,
        Err(e) => {
            return Err(e);
        },
    };
    let parent = match &parent_oid {
        Some(p) => Some(p),
        None => None,
    };
    let commit = build_commit_at(&tree, parent, author_name, author_email, message, seconds);
    let oid = hash_object(OBJ_COMMIT, commit.as_slice());
    let mut all: ObjectList = list;
    let ghost before = list_model(all@);
    let ghost content = commit@;
    all.push((OBJ_COMMIT, commit));
    assert(list_model(all@) =~= before.push((OBJ_COMMIT, content)));
    Ok((oid, all))
}

// ---------------------------------------------------------------------------
// GitRepo
// ---------------------------------------------------------------------------

/// How many seconds pass at least between two fetches that only refresh.
pub const FETCH_THROTTLE_SECS: u64 = 3;

/// A repository as a map of files: the commit that the branch leads to, and
/// the files of it.
pub struct GitRepo {
    pub remote_url: String,
    pub branch: String,
    pub author_name: String,
    pub author_email: String,
    pub ssh_key: Option<String>,
    pub password: Option<String>,
    pub head_oid: Option<ObjectId>,
    pub tree: FileMap,
}

/// A repository as a map of files.
#[verifier::ext_equal]
pub struct BridgeModel {
    pub head: Option<Seq<u8>>,
    pub files: Files,
    pub author_name: Seq<char>,
    pub author_email: Seq<char>,
    pub remote: RemoteModel,
}

impl View for GitRepo {
    type V = BridgeModel;

    open spec fn view(&self) -> BridgeModel {
        BridgeModel {
            head: match self.head_oid {
                Some(oid) => Some(oid@),
                None => None,
            },
            files: self.tree@,
            author_name: self.author_name@,
            author_email: self.author_email@,
            remote: RemoteModel {
                url: self.remote_url@,
                branch: self.branch@,
                ssh_key: chars_of(self.ssh_key),
                password: chars_of(self.password),
            },
        }
    }
}

/// A repository of which nothing has been fetched yet. Who is not named makes
/// commits as `davgit`, from `davgit@localhost`.
pub open spec fn fresh_bridge(
    remote: RemoteModel,
    author_name: Seq<char>,
    author_email: Seq<char>,
) -> BridgeModel {
    BridgeModel {
        head: None,
        files: Seq::empty(),
        author_name: or_else(author_name, "davgit"@),
        author_email: or_else(author_email, "davgit@localhost"@),
        remote,
    }
}

/// A refresh is left out for three seconds after the last fetch.
pub open spec fn throttled(elapsed_secs: u64) -> bool {
    elapsed_secs < 3
}

/// Whether a refresh is left out, as the last fetch was that many whole seconds
/// ago.
pub fn is_throttled(elapsed_secs: u64) -> (r: bool)
    ensures
        r == throttled(elapsed_secs),
{
    elapsed_secs < FETCH_THROTTLE_SECS
}

fn copy_files(files: &FileMap) -> (r: FileMap)
    ensures
        r@ == files@,
{
    files.keyed();
    let ghost s = files@;
    let mut r: FileMap = PathMap::new();
    let mut i: usize = 0;
    assert(s.take(0) =~= Seq::empty());
    while i < files.len()
        invariant
            s == files@,
            distinct_keys(s),
            i <= s.len(),
            r@ == s.take(i as int),
        decreases s.len() - i,
    {
        r.insert(files.key(i), copy_bytes(files.value(i).as_slice()));
        proof {
            let front = s.take(i as int);
            lemma_slot_of(front, s[i as int].0);
            match slot_of(front, s[i as int].0) {
                Some(k) => {
                    assert(front[k] == s[k]);
                    assert(s[k].0 != s[i as int].0);
                },
                None => {},
            }
            assert(s.take(i + 1) =~= front.push(s[i as int]));
        }
        i += 1;
    }
    assert(s.take(i as int) =~= s);
    r
}

impl BridgeModel {
    /// After the first fetch: where it failed the repository is empty, and
    /// where only its files cannot be read they are none.
    pub open spec fn started(self, result: Option<(Seq<u8>, Map<Seq<u8>, Seq<u8>>)>) -> BridgeModel {
        match result {
            None => self,
            Some((head, objects)) => BridgeModel {
                head: Some(head),
                files: match files_of(head, objects) {
                    Ok(files) => files,
                    Err(_) => Seq::empty(),
                },
                ..self
            },
        }
    }

    /// After a refresh that fetched this: as it was, unless the branch leads to
    /// another commit.
    pub open spec fn refreshed(self, head: Seq<u8>, objects: Map<Seq<u8>, Seq<u8>>) -> Result<
        BridgeModel,
        BridgeError,
    > {
        match files_of(head, objects) {
            Err(e) => Err(e),
            Ok(files) => if self.head == Some(head) {
                Ok(self)
            } else {
                Ok(BridgeModel { head: Some(head), files, ..self })
            },
        }
    }
}

/// The files with changes made: what is written first, and then what is
/// deleted.
pub open spec fn changed(files: Files, batch: BatchModel) -> Files {
    take_all(put_all(files, batch.writes), batch.deletes)
}

/// A commit that is ready to be pushed, and the files as they are in it.
pub struct BridgePush {
    pub commit_oid: ObjectId,
    pub packfile: Vec<u8>,
    pub files: FileMap,
}

/// A commit that is ready to be pushed.
#[verifier::ext_equal]
pub struct BridgePushModel {
    pub commit: Seq<u8>,
    pub packfile: Seq<u8>,
    pub files: Files,
}

impl View for BridgePush {
    type V = BridgePushModel;

    open spec fn view(&self) -> BridgePushModel {
        BridgePushModel {
            commit: self.commit_oid@,
            packfile: self.packfile@,
            files: self.files@,
        }
    }
}

impl BridgeModel {
    /// What there is to push for a change, on top of what was fetched.
    pub open spec fn pending(
        self,
        head: Seq<u8>,
        objects: Map<Seq<u8>, Seq<u8>>,
        batch: BatchModel,
        message: Seq<u8>,
        seconds: int,
    ) -> Result<BridgePushModel, BridgeError> {
        match files_of(head, objects) {
            Err(e) => Err(e),
            Ok(before) => {
                let files = changed(before, batch);
                match change_commit(
                    files,
                    Some(head),
                    encode_utf8(self.author_name),
                    encode_utf8(self.author_email),
                    message,
                    seconds,
                ) {
                    Err(e) => Err(e),
                    Ok((commit, list)) => match pack_bytes(list) {
                        None => Err(BridgeError::Compression),
                        Some(packfile) => Ok(BridgePushModel { commit, packfile, files }),
                    },
                }
            },
        }
    }
}

impl BridgeModel {
    /// What there is to push to write one file, where its path is text.
    pub open spec fn write_pending(
        self,
        head: Seq<u8>,
        objects: Map<Seq<u8>, Seq<u8>>,
        path: Seq<u8>,
        data: Seq<u8>,
        seconds: int,
    ) -> Result<BridgePushModel, BridgeError> {
        if valid_utf8(path) {
            self.pending(
                head,
                objects,
                one_write(components_of(path), data),
                encode_utf8("update "@ + decode_utf8(path)),
                seconds,
            )
        } else {
            Err(BridgeError::NotUtf8)
        }
    }

    /// What there is to push to delete one file, where its path is text.
    pub open spec fn delete_pending(
        self,
        head: Seq<u8>,
        objects: Map<Seq<u8>, Seq<u8>>,
        path: Seq<u8>,
        seconds: int,
    ) -> Result<BridgePushModel, BridgeError> {
        if valid_utf8(path) {
            self.pending(
                head,
                objects,
                one_delete(components_of(path)),
                encode_utf8("delete "@ + decode_utf8(path)),
                seconds,
            )
        } else {
            Err(BridgeError::NotUtf8)
        }
    }

    /// The id that says that there are files.
    pub open spec fn head_sign(self) -> Option<Seq<u8>> {
        if self.files.len() == 0 {
            None
        } else {
            Some(Seq::new(20, |i: int| 1u8))
        }
    }

    /// Once a push was taken: the commit is the head, and its files are there.
    pub open spec fn after_push(self, p: BridgePushModel) -> BridgeModel {
        BridgeModel { head: Some(p.commit), files: p.files, ..self }
    }

    /// Where the author can be told in a commit, what is pushed reads back as
    /// the files that it was made of.
    pub open spec fn push_lasts(
        self,
        p: BridgePushModel,
        head: Seq<u8>,
        message: Seq<u8>,
        seconds: int,
    ) -> bool {
        let name = encode_utf8(self.author_name);
        let email = encode_utf8(self.author_email);
        plain_token(name) && plain_token(email) ==> pack_reads_back(
            p.files,
            p.commit,
            change_commit(p.files, Some(head), name, email, message, seconds)->Ok_0.1,
            p.packfile,
        )
    }
}

fn apply_batch(files: &mut FileMap, batch: &Batch)
    ensures
        final(files)@ == changed(old(files)@, batch@),
{
    let ghost s = files@;
    let ghost writes = batch@.writes;
    let ghost deletes = batch@.deletes;
    let mut i: usize = 0;
    assert(writes.take(0) =~= Seq::empty());
    while i < batch.writes.len()
        invariant
            i <= batch.writes@.len(),
            writes == batch@.writes,
            files@ == put_all(s, writes.take(i as int)),
        decreases batch.writes@.len() - i,
    {
        assert(writes.take(i + 1).drop_last() =~= writes.take(i as int));
        assert(writes.take(i + 1).last() == writes[i as int]);
        files.insert(&batch.writes[i].0, copy_bytes(batch.writes[i].1.as_slice()));
        i += 1;
    }
    assert(writes.take(i as int) =~= writes);
    let ghost t = files@;
    let mut k: usize = 0;
    assert(deletes.take(0) =~= Seq::empty());
    while k < batch.deletes.len()
        invariant
            k <= batch.deletes@.len(),
            deletes == batch@.deletes,
            files@ == take_all(t, deletes.take(k as int)),
        decreases batch.deletes@.len() - k,
    {
        assert(deletes.take(k + 1).drop_last() =~= deletes.take(k as int));
        assert(deletes.take(k + 1).last() == deletes[k as int]);
        files.remove(&batch.deletes[k]);
        k += 1;
    }
    assert(deletes.take(k as int) =~= deletes);
}

impl GitRepo {
    /// A repository of which nothing has been fetched yet. Who is not named
    /// makes commits as `davgit`, from `davgit@localhost`.
    pub fn new(
        remote_url: &str,
        branch: &str,
        ssh_key: Option<&str>,
        password: Option<&str>,
        author_name: &str,
        author_email: &str,
    ) -> (r: GitRepo)
        ensures
            r@ == fresh_bridge(
                RemoteModel {
                    url: remote_url@,
                    branch: branch@,
                    ssh_key: str_chars(ssh_key),
                    password: str_chars(password),
                },
                author_name@,
                author_email@,
            ),
    {
        GitRepo {
            remote_url: remote_url.to_owned(),
            branch: branch.to_owned(),
            author_name: text_or(author_name, "davgit"),
            author_email: text_or(author_email, "davgit@localhost"),
            ssh_key: owned(ssh_key),
            password: owned(password),
            head_oid: None,
            tree: PathMap::new(),
        }
    }

    /// A repository with what the first fetch brought, or an empty one where
    /// that failed.
    pub fn init_and_fetch(
        remote_url: &str,
        branch: &str,
        ssh_key: Option<&str>,
        password: Option<&str>,
        author_name: &str,
        author_email: &str,
        result: Option<&FetchResult>,
    ) -> (r: GitRepo)
        ensures
            r@ == fresh_bridge(
                RemoteModel {
                    url: remote_url@,
                    branch: branch@,
                    ssh_key: str_chars(ssh_key),
                    password: str_chars(password),
                },
                author_name@,
                author_email@,
            ).started(
                match result {
                    Some(f) => Some((f.head_commit_oid@, f.objects@)),
                    None => None,
                },
            ),
    {
        let mut repo = GitRepo::new(
            remote_url,
            branch,
            ssh_key,
            password,
            author_name,
            author_email,
        );
        if let Some(f) = result {
            repo.tree = match parse_fetch_to_map(f) {
                Ok(files) => files,
                Err(_) => PathMap::new(),
            };
            repo.head_oid = Some(f.head_commit_oid);
        }
        repo
    }

    /// Takes in a refresh. The files are returned where the branch leads to
    /// another commit than before.
    pub fn refresh_tree(&mut self, result: &FetchResult) -> (r: Result<
        Option<FileMap>,
        BridgeError,
    >)
        ensures
            match r {
                Ok(new) => old(self)@.refreshed(result.head_commit_oid@, result.objects@) == Ok::<
                    BridgeModel,
                    BridgeError,
                >(final(self)@) && match new {
                    Some(files) => old(self)@.head != Some(result.head_commit_oid@) && files@
                        == final(self)@.files,
                    None => old(self)@.head == Some(result.head_commit_oid@),
                },
                Err(e) => old(self)@.refreshed(result.head_commit_oid@, result.objects@) == Err::<
                    BridgeModel,
                    BridgeError,
                >(e) && final(self)@ == old(self)@,
            },
    {
        let files = match parse_fetch_to_map(result) {
            Ok(files) => files,
            Err(e) => {
                return Err(e);
            },
        };
        if let Some(head) = self.head_oid {
            if head.same(&result.head_commit_oid) {
                return Ok(None);
            }
        }
        let copy = copy_files(&files);
        self.head_oid = Some(result.head_commit_oid);
        self.tree = files;
        Ok(Some(copy))
    }

    /// An id where there are files, none where there are not. It says no more
    /// than that.
    pub fn resolve_head_tree(&self) -> (r: Option<ObjectId>)
        ensures
            match r {
                Some(oid) => self@.head_sign() == Some(oid@),
                None => self@.head_sign() is None,
            },
    {
        if self.tree.len() == 0 {
            return None;
        }
        let oid = ObjectId { bytes: [1u8; 20] };
        assert(oid@ =~= Seq::new(20, |i: int| 1u8));
        Some(oid)
    }

    /// The files.
    pub fn read_tree_to_memory(&self) -> (r: FileMap)
        ensures
            r@ == self@.files,
    {
        copy_files(&self.tree)
    }

    /// Prepares the commit that makes changes, on top of what was fetched.
    pub fn batch_paths(
        &self,
        result: &FetchResult,
        batch: &Batch,
        message: &str,
        seconds: u64,
    ) -> (r: Result<BridgePush, BridgeError>)
        ensures
            match r {
                Ok(p) => self@.pending(
                    result.head_commit_oid@,
                    result.objects@,
                    batch@,
                    text(message),
                    seconds as int,
                ) == Ok::<BridgePushModel, BridgeError>(p@) && self@.push_lasts(
                    p@,
                    result.head_commit_oid@,
                    text(message),
                    seconds as int,
                ),
                Err(e) => self@.pending(
                    result.head_commit_oid@,
                    result.objects@,
                    batch@,
                    text(message),
                    seconds as int,
                ) == Err::<BridgePushModel, BridgeError>(e),
            },
    {
        let mut files = match parse_fetch_to_map(result) {
            Ok(files) => files,
            Err(e) => {
                return Err(e);
            },
        };
        apply_batch(&mut files, batch);
        let (commit_oid, list): (ObjectId, ObjectList) = match build_change_commit(
            &files,
            Some(result.head_commit_oid),
            self.author_name.as_str(),
            self.author_email.as_str(),
            message,
            seconds,
        ) {
            Ok(x) => x,
            Err(e) => {
                return Err(e);
            },
        };
        match pack_list(&list) {
            Ok(packfile) => {
                proof {
                    let name = encode_utf8(self@.author_name);
                    let email = encode_utf8(self@.author_email);
                    if plain_token(name) && plain_token(email) {
                        lemma_pack_reads_back(
                            files@,
                            Some(result.head_commit_oid@),
                            name,
                            email,
                            text(message),
                            seconds as int,
                            packfile@,
                        );
                    }
                }
                Ok(BridgePush { commit_oid, packfile, files })
            },
            Err(_) => Err(BridgeError::Compression),
        }
    }

    /// Prepares the commit that writes one file.
    pub fn write_path(
        &self,
        result: &FetchResult,
        path: &RepoPath,
        data: &[u8],
        seconds: u64,
    ) -> (r: Result<BridgePush, BridgeError>)
        ensures
            ({
                let pending = self@.write_pending(
                    result.head_commit_oid@,
                    result.objects@,
                    path@,
                    data@,
                    seconds as int,
                );
                match r {
                    Ok(p) => pending == Ok::<BridgePushModel, BridgeError>(p@) && self@.push_lasts(
                        p@,
                        result.head_commit_oid@,
                        encode_utf8("update "@ + decode_utf8(path@)),
                        seconds as int,
                    ),
                    Err(e) => pending == Err::<BridgePushModel, BridgeError>(e),
                }
            }),
    {
        let message = match write_message(path) {
            Ok(s) => s,
            Err(e) => {
                return Err(e);
            },
        };
        self.batch_paths(result, &write_batch(path, data), message.as_str(), seconds)
    }

    /// Prepares the commit that deletes one file.
    pub fn delete_path(&self, result: &FetchResult, path: &RepoPath, seconds: u64) -> (r: Result<
        BridgePush,
        BridgeError,
    >)
        ensures
            ({
                let pending = self@.delete_pending(
                    result.head_commit_oid@,
                    result.objects@,
                    path@,
                    seconds as int,
                );
                match r {
                    Ok(p) => pending == Ok::<BridgePushModel, BridgeError>(p@) && self@.push_lasts(
                        p@,
                        result.head_commit_oid@,
                        encode_utf8("delete "@ + decode_utf8(path@)),
                        seconds as int,
                    ),
                    Err(e) => pending == Err::<BridgePushModel, BridgeError>(e),
                }
            }),
    {
        let message = match delete_message(path) {
            Ok(s) => s,
            Err(e) => {
                return Err(e);
            },
        };
        self.batch_paths(result, &delete_batch(path), message.as_str(), seconds)
    }

    /// Takes in that a push was taken.
    pub fn finish_push(&mut self, pushed: BridgePush)
        ensures
            final(self)@ == old(self)@.after_push(pushed@),
    {
        self.head_oid = Some(pushed.commit_oid);
        self.tree = pushed.files;
    }
}

/// What is said about writing a file, where its path is text.
fn write_message(path: &RepoPath) -> (r: Result<String, BridgeError>)
    ensures
        match r {
            Ok(s) => valid_utf8(path@) && s@ == "update "@ + decode_utf8(path@),
            Err(e) => !valid_utf8(path@) && e == BridgeError::NotUtf8,
        },
{
    match utf8_text(path.raw.as_slice()) {
        Some(shown) => {
            let mut s: String = "update ".to_owned();
            s.append(shown.as_str());
            Ok(s)
        },
        None => Err(BridgeError::NotUtf8),
    }
}

/// What is said about deleting a file, where its path is text.
fn delete_message(path: &RepoPath) -> (r: Result<String, BridgeError>)
    ensures
        match r {
            Ok(s) => valid_utf8(path@) && s@ == "delete "@ + decode_utf8(path@),
            Err(e) => !valid_utf8(path@) && e == BridgeError::NotUtf8,
        },
{
    match utf8_text(path.raw.as_slice()) {
        Some(shown) => {
            let mut s: String = "delete ".to_owned();
            s.append(shown.as_str());
            Ok(s)
        },
        None => Err(BridgeError::NotUtf8),
    }
}

/// What is to be committed to write one file.
pub open spec fn one_write(path: Seq<Seq<u8>>, data: Seq<u8>) -> BatchModel {
    BatchModel { writes: seq![(path, data)], deletes: Seq::empty() }
}

/// What is to be committed to delete one file.
pub open spec fn one_delete(path: Seq<Seq<u8>>) -> BatchModel {
    BatchModel { writes: Seq::empty(), deletes: seq![path] }
}

fn write_batch(path: &RepoPath, data: &[u8]) -> (r: Batch)
    ensures
        r@ == one_write(components_of(path@), data@),
{
    let mut writes: Vec<(Components, Vec<u8>)> = Vec::new();
    writes.push((path.components(), copy_bytes(data)));
    let r = Batch { writes, deletes: Vec::new() };
    assert(r@.writes =~= seq![(components_of(path@), data@)]);
    assert(r@.deletes =~= Seq::empty());
    r
}

fn delete_batch(path: &RepoPath) -> (r: Batch)
    ensures
        r@ == one_delete(components_of(path@)),
{
    let mut deletes: Vec<Components> = Vec::new();
    deletes.push(path.components());
    let r = Batch { writes: Vec::new(), deletes };
    assert(r@.writes =~= Seq::empty());
    assert(r@.deletes =~= seq![components_of(path@)]);
    r
}

/// What is said about changes to several files.
pub fn batch_message() -> (r: &'static str)
    ensures
        r@ == "batch update"@,
{
    "batch update"
}

} // verus!
