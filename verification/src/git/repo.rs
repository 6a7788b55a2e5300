//! A repository that is held in memory: reading it, taking in what was
//! fetched, and preparing the commits that change it.

use vstd::prelude::*;
use vstd::string::*;
use vstd::utf8::{decode_utf8, valid_utf8};

use crate::bytes::{copy_bytes, text};
use crate::git::entry::{EntryMode, EntryModel, file_mode, lemma_own_modes, tree_mode};
use crate::git::lists::{
    ObjectError, TargetModel, distinct_names, first_named, last_named, lemma_first_named_present,
    lemma_first_named_readable, lemma_pick_is, lemma_readable_present, readable,
};
use crate::git::objects::{
    ObjectList, Target, accounted, among, apart, build_commit_at, carries, change_holds,
    change_lasts, change_sound, child_tree, collect_all_oids, copied_entry, copy_tree_entry,
    entry_of, find_names, find_tree_entry, found, has_all, held_in, lemma_found_behind_file,
    lemma_found_below, lemma_found_extends, lemma_found_sound, lemma_found_utf8,
    lemma_modified_keeps, lemma_nothing_below, lemma_reached_child, lemma_sound_extends, list_model,
    modified, modify_tree_entry, no_collision, object_reached, read_entries, remove_tree_entry,
    sound_path, target_option, tree_chain, tree_reached, utf8_names, with_directory,
    with_empty_tree,
};
use crate::git::packfile::{
    OBJ_BLOB, OBJ_COMMIT, PackError, build_packfile, entry_views, hash_object, object_id,
    objects_of, pack_bytes, parse_packfile, plain_kind, plain_kinds, unpacked,
};
use crate::git::walk::plain_items;
use crate::git::transport::{FetchResult, MAX_RETRIES, Retry, after_attempt};
use crate::oid::{ObjectId, ObjectMap, OidSet};
use crate::outside::{
    commit_text, commit_tree, debug_path, path_debug, plain_token, present, read_commit_tree,
    tree_items, utf8_text,
};
use crate::path::{Components, RepoPath, components_of, joined, lemma_joined_components, under};

verus! {

/// Why a repository cannot be read or changed.
#[derive(Clone, Copy, PartialEq, Eq, Structural, Debug)]
pub enum RepoError {
    /// Nothing has been fetched yet.
    NoHead,
    /// The commit that the branch leads to is not there.
    MissingCommit,
    /// The commit that the branch leads to cannot be read.
    BadCommit,
    /// The trees cannot be walked or rewritten.
    Object(ObjectError),
    /// A pack cannot be read.
    Pack(PackError),
    /// The objects cannot be packed.
    Compression,
    /// A path that is not UTF-8.
    NotUtf8,
    /// An author whose name or address a commit cannot hold.
    BadAuthor,
}

/// Where a remote is, which branch is served, and how to log in.
#[verifier::ext_equal]
pub struct RemoteModel {
    pub url: Seq<char>,
    pub branch: Seq<char>,
    pub ssh_key: Option<Seq<char>>,
    pub password: Option<Seq<char>>,
}

/// A repository: the commit that its branch leads to, its objects, who makes
/// its commits, and its remote.
#[verifier::ext_equal]
pub struct RepoModel {
    pub head: Option<Seq<u8>>,
    pub objects: Map<Seq<u8>, Seq<u8>>,
    pub author_name: Seq<char>,
    pub author_email: Seq<char>,
    pub remote: RemoteModel,
}

/// A text that may be absent.
pub open spec fn chars_of(s: Option<String>) -> Option<Seq<char>> {
    match s {
        Some(x) => Some(x@),
        None => None,
    }
}

/// A text that may be absent.
pub open spec fn str_chars(s: Option<&str>) -> Option<Seq<char>> {
    match s {
        Some(x) => Some(x@),
        None => None,
    }
}

impl RepoModel {
    /// The commit that the branch leads to, and its tree.
    pub open spec fn head_tree(self) -> Result<(Seq<u8>, Seq<u8>), RepoError> {
        match self.head {
            None => Err(RepoError::NoHead),
            Some(head) => if !self.objects.contains_key(head) {
                Err(RepoError::MissingCommit)
            } else {
                match commit_tree(self.objects[head]) {
                    None => Err(RepoError::BadCommit),
                    Some(tree) => Ok((head, tree)),
                }
            },
        }
    }

    /// What a path leads to.
    pub open spec fn entry_at(self, names: Seq<Seq<u8>>) -> Result<Option<TargetModel>, RepoError> {
        match self.head_tree() {
            Err(e) => Err(e),
            Ok((_, tree)) => match found(self.objects, tree, names) {
                Err(e) => Err(RepoError::Object(e)),
                Ok(t) => Ok(t),
            },
        }
    }

    /// The content of the file at a path; none where the path leads to no file
    /// that is at hand.
    pub open spec fn file_at(self, names: Seq<Seq<u8>>) -> Result<Option<Seq<u8>>, RepoError> {
        match self.entry_at(names) {
            Err(RepoError::MissingCommit) => Ok(None),
            Err(e) => Err(e),
            Ok(Some((mode, oid))) if !tree_mode(mode) => if self.objects.contains_key(oid) {
                Ok(Some(self.objects[oid]))
            } else {
                Ok(None)
            },
            Ok(_) => Ok(None),
        }
    }

    /// Whether a path leads to a directory. The root always does.
    pub open spec fn directory_at(self, names: Seq<Seq<u8>>) -> bool {
        names.len() == 0 || match self.entry_at(names) {
            Ok(Some((mode, _))) => tree_mode(mode),
            _ => false,
        }
    }

    /// The names, kinds and sizes in a directory; none where the path leads to
    /// no directory that is at hand.
    pub open spec fn listing_at(self, names: Seq<Seq<u8>>) -> Result<
        Seq<(Seq<char>, bool, nat)>,
        RepoError,
    > {
        match self.entry_at(names) {
            Err(RepoError::NoHead) => Ok(Seq::empty()),
            Err(RepoError::MissingCommit) => Ok(Seq::empty()),
            Err(e) => Err(e),
            Ok(Some((mode, oid))) if tree_mode(mode) => if self.objects.contains_key(oid) {
                Ok(listed(self.objects, readable(tree_items(self.objects[oid]))))
            } else {
                Ok(Seq::empty())
            },
            Ok(_) => Ok(Seq::empty()),
        }
    }
}

/// What is told of the entries of a directory: the name of each that is UTF-8,
/// whether it is a directory, and the size of a file that is at hand.
pub open spec fn listed(objects: Map<Seq<u8>, Seq<u8>>, es: Seq<EntryModel>) -> Seq<
    (Seq<char>, bool, nat),
>
    decreases es.len(),
{
    if es.len() == 0 {
        Seq::empty()
    } else {
        let front = listed(objects, es.drop_last());
        let e = es.last();
        if valid_utf8(e.name) {
            front.push(
                (
                    decode_utf8(e.name),
                    tree_mode(e.octal),
                    if !tree_mode(e.octal) && objects.contains_key(e.oid) {
                        objects[e.oid].len()
                    } else {
                        0
                    },
                ),
            )
        } else {
            front
        }
    }
}

/// What a listing is.
pub open spec fn listing_model(list: Seq<(String, bool, u64)>) -> Seq<(Seq<char>, bool, nat)> {
    list.map_values(|e: (String, bool, u64)| (e.0@, e.1, e.2 as nat))
}

/// A repository that is held in memory.
pub struct GitRepo {
    pub remote_url: String,
    pub branch: String,
    pub author_name: String,
    pub author_email: String,
    pub ssh_key: Option<String>,
    pub password: Option<String>,
    pub head_oid: Option<ObjectId>,
    pub objects: ObjectMap,
}

impl View for GitRepo {
    type V = RepoModel;

    open spec fn view(&self) -> RepoModel {
        RepoModel {
            head: match self.head_oid {
                Some(oid) => Some(oid@),
                None => None,
            },
            objects: self.objects@,
            author_name: self.author_name@,
            author_email: self.author_email@,
            remote: RemoteModel {
                url: self.remote_url@,
                branch: self.branch@,
                ssh_key: chars_of(self.ssh_key),
                password: chars_of(self.password),
            },
        }
    }
}

/// A repository of which nothing has been fetched yet. Who is not named makes
/// commits as `davgit`, from `davgit@localhost`.
pub open spec fn fresh_repo(
    remote: RemoteModel,
    author_name: Seq<char>,
    author_email: Seq<char>,
) -> RepoModel {
    RepoModel {
        head: None,
        objects: Map::empty(),
        author_name: or_else(author_name, "davgit"@),
        author_email: or_else(author_email, "davgit@localhost"@),
        remote,
    }
}

/// The text itself, or `fallback` where it is empty.
pub open spec fn or_else(s: Seq<char>, fallback: Seq<char>) -> Seq<char> {
    if s.len() == 0 {
        fallback
    } else {
        s
    }
}

pub(crate) fn text_or(s: &str, fallback: &str) -> (r: String)
    ensures
        r@ == or_else(s@, fallback@),
{
    if s.unicode_len() == 0 {
        fallback.to_owned()
    } else {
        s.to_owned()
    }
}

pub(crate) fn owned(s: Option<&str>) -> (r: Option<String>)
    ensures
        chars_of(r) == str_chars(s),
{
    match s {
        Some(x) => Some(x.to_owned()),
        None => None,
    }
}

impl GitRepo {
    /// A repository of which nothing has been fetched yet. Who is not named
    /// makes commits as `davgit`, from `davgit@localhost`.
    pub fn new(
        remote_url: &str,
        branch: &str,
        ssh_key: Option<&str>,
        password: Option<&str>,
        author_name: &str,
        author_email: &str,
    ) -> (r: GitRepo)
        ensures
            r@ == fresh_repo(
                RemoteModel {
                    url: remote_url@,
                    branch: branch@,
                    ssh_key: str_chars(ssh_key),
                    password: str_chars(password),
                },
                author_name@,
                author_email@,
            ),
    {
        GitRepo {
            remote_url: remote_url.to_owned(),
            branch: branch.to_owned(),
            author_name: text_or(author_name, "davgit"),
            author_email: text_or(author_email, "davgit@localhost"),
            ssh_key: owned(ssh_key),
            password: owned(password),
            head_oid: None,
            objects: ObjectMap::new(),
        }
    }

    fn head_and_tree(&self) -> (r: Result<(ObjectId, ObjectId), RepoError>)
        ensures
            match r {
                Ok((head, tree)) => self@.head_tree() == Ok::<(Seq<u8>, Seq<u8>), RepoError>(
                    (head@, tree@),
                ),
                Err(e) => self@.head_tree() == Err::<(Seq<u8>, Seq<u8>), RepoError>(e),
            },
    {
        let head = match self.head_oid {
            Some(oid) => oid,
            None => {
                return Err(RepoError::NoHead);
            },
        };
        match self.objects.get(&head) {
            None => Err(RepoError::MissingCommit),
            Some(data) => match read_commit_tree(data.as_slice()) {
                None => Err(RepoError::BadCommit),
                Some(tree) => Ok((head, tree)),
            },
        }
    }

    fn find(&self, names: &Components) -> (r: Result<Option<Target>, RepoError>)
        ensures
            match r {
                Ok(t) => self@.entry_at(names@) == Ok::<Option<TargetModel>, RepoError>(
                    target_option(t),
                ),
                Err(e) => self@.entry_at(names@) == Err::<Option<TargetModel>, RepoError>(e),
            },
    {
        match self.head_and_tree() {
            Err(e) => Err(e),
            Ok((_, tree)) => match find_names(&self.objects, &tree, names) {
                Err(e) => Err(RepoError::Object(e)),
                Ok(t) => Ok(t),
            },
        }
    }

    /// The content of a file. There is none where the path leads to a
    /// directory or to nothing.
    pub fn read_file(&self, path: &RepoPath) -> (r: Result<Option<Vec<u8>>, RepoError>)
        ensures
            match r {
                Ok(Some(data)) => self@.file_at(components_of(path@)) == Ok::<
                    Option<Seq<u8>>,
                    RepoError,
                >(Some(data@)),
                Ok(None) => self@.file_at(components_of(path@)) == Ok::<
                    Option<Seq<u8>>,
                    RepoError,
                >(None),
                Err(e) => self@.file_at(components_of(path@)) == Err::<
                    Option<Seq<u8>>,
                    RepoError,
                >(e),
            },
    {
        match self.find(&path.components()) {
            Err(RepoError::MissingCommit) => Ok(None),
            Err(e) => Err(e),
            Ok(None) => Ok(None),
            Ok(Some((mode, oid))) => {
                if mode.is_tree() {
                    return Ok(None);
                }
                match self.objects.get(&oid) {
                    Some(data) => Ok(Some(copy_bytes(data.as_slice()))),
                    None => Ok(None),
                }
            },
        }
    }

    /// The names in a directory, with whether each is a directory and its
    /// size. There are none where the path leads to no directory.
    pub fn list_dir(&self, path: &RepoPath) -> (r: Result<Vec<(String, bool, u64)>, RepoError>)
        ensures
            match r {
                Ok(list) => self@.listing_at(components_of(path@)) == Ok::<
                    Seq<(Seq<char>, bool, nat)>,
                    RepoError,
                >(listing_model(list@)),
                Err(e) => self@.listing_at(components_of(path@)) == Err::<
                    Seq<(Seq<char>, bool, nat)>,
                    RepoError,
                >(e),
            },
    {
        let mut list: Vec<(String, bool, u64)> = Vec::new();
        assert(listing_model(list@) =~= Seq::empty());
        let oid = match self.find(&path.components()) {
            Err(RepoError::NoHead) => {
                return Ok(list);
            },
            Err(RepoError::MissingCommit) => {
                return Ok(list);
            },
            Err(e) => {
                return Err(e);
            },
            Ok(None) => {
                return Ok(list);
            },
            Ok(Some((mode, oid))) => {
                if !mode.is_tree() {
                    return Ok(list);
                }
                oid
            },
        };
        let entries = match self.objects.get(&oid) {
            Some(data) => read_entries(data.as_slice()),
            None => {
                return Ok(list);
            },
        };
        let ghost es = crate::git::entry::models(entries@);
        let mut i: usize = 0;
        assert(listing_model(list@) =~= listed(self.objects@, es.take(0)));
        while i < entries.len()
            invariant
                i <= entries@.len(),
                es == crate::git::entry::models(entries@),
                listing_model(list@) == listed(self.objects@, es.take(i as int)),
            decreases entries@.len() - i,
        {
            let ghost before = list@;
            assert(es.take(i + 1).drop_last() =~= es.take(i as int));
            assert(es.take(i + 1).last() == es[i as int]);
            let e = &entries[i];
            if let Some(name) = utf8_text(e.filename.as_slice()) {
                let is_dir = e.mode.is_tree();
                let len: u64 = if is_dir {
                    0
                } else {
                    match self.objects.get(&e.oid) {
                        Some(data) => data.len() as u64,
                        None => 0,
                    }
                };
                let ghost shown = (name@, is_dir, len as nat);
                list.push((name, is_dir, len));
                assert(listing_model(list@) =~= listing_model(before).push(shown));
            }
            i += 1;
        }
        assert(es.take(i as int) =~= es);
        Ok(list)
    }

    /// Whether the path leads to a directory.
    pub fn is_directory(&self, path: &RepoPath) -> (r: bool)
        ensures
            r == self@.directory_at(components_of(path@)),
    {
        self.is_directory_at(&path.components())
    }

    /// Whether these components lead to a directory.
    pub fn is_directory_at(&self, names: &Components) -> (r: bool)
        ensures
            r == self@.directory_at(names@),
    {
        if names.len() == 0 {
            return true;
        }
        match self.find(names) {
            Ok(Some((mode, _))) => mode.is_tree(),
            _ => false,
        }
    }

    /// The size of a file.
    pub fn file_size(&self, path: &RepoPath) -> (r: Option<u64>)
        ensures
            match r {
                Some(n) => self@.file_at(components_of(path@)) matches Ok(Some(data)) && data.len()
                    == n,
                None => !(self@.file_at(components_of(path@)) matches Ok(Some(_))),
            },
    {
        match self.find(&path.components()) {
            Ok(Some((mode, oid))) => {
                if mode.is_tree() {
                    return None;
                }
                match self.objects.get(&oid) {
                    Some(data) => Some(data.len() as u64),
                    None => None,
                }
            },
            _ => None,
        }
    }
}

// ---------------------------------------------------------------------------
// Fetching
// ---------------------------------------------------------------------------

/// The objects that are needed: those that are reached from the tree, and the
/// commit.
pub open spec fn pruned(
    objects: Map<Seq<u8>, Seq<u8>>,
    tree: Seq<u8>,
    head: Seq<u8>,
) -> Map<Seq<u8>, Seq<u8>> {
    objects.restrict(Set::new(|oid: Seq<u8>| object_reached(objects, tree, oid) || oid == head))
}

impl RepoModel {
    /// The repository after a fetch brought this commit and this pack. An
    /// empty pack brings nothing new.
    pub open spec fn fetched(self, head: Seq<u8>, pack: Seq<u8>) -> Result<RepoModel, RepoError> {
        if pack.len() == 0 {
            Ok(self)
        } else {
            match unpacked(pack) {
                Err(e) => Err(RepoError::Pack(e)),
                Ok(new) => {
                    let merged = self.objects.union_prefer_right(new);
                    if !merged.contains_key(head) {
                        Err(RepoError::MissingCommit)
                    } else {
                        match commit_tree(merged[head]) {
                            None => Err(RepoError::BadCommit),
                            Some(tree) => Ok(
                                RepoModel {
                                    head: Some(head),
                                    objects: pruned(merged, tree, head),
                                    ..self
                                },
                            ),
                        }
                    }
                },
            }
        }
    }
}

/// What is dropped is not missed: every path that could be looked up leads
/// where it led, and what it leads to is there if it was.
pub proof fn lemma_pruned_keeps(
    objects: Map<Seq<u8>, Seq<u8>>,
    tree: Seq<u8>,
    head: Seq<u8>,
    names: Seq<Seq<u8>>,
)
    requires
        found(objects, tree, names) is Ok,
    ensures
        found(pruned(objects, tree, head), tree, names) == found(objects, tree, names),
        found(objects, tree, names) matches Ok(Some(t)) ==> (objects.contains_key(t.1) ==> pruned(
            objects,
            tree,
            head,
        ).contains_key(t.1) && pruned(objects, tree, head)[t.1] == objects[t.1]),
{
    assert(tree_reached(objects, tree, tree)) by {
        assert(tree_chain(objects, tree, tree, seq![tree]));
    }
    lemma_pruned_found(objects, tree, head, tree, names);
}

proof fn lemma_pruned_found(
    objects: Map<Seq<u8>, Seq<u8>>,
    tree: Seq<u8>,
    head: Seq<u8>,
    oid: Seq<u8>,
    names: Seq<Seq<u8>>,
)
    requires
        found(objects, oid, names) is Ok,
        tree_reached(objects, tree, oid),
    ensures
        found(pruned(objects, tree, head), oid, names) == found(objects, oid, names),
        found(objects, oid, names) matches Ok(Some(t)) ==> object_reached(objects, tree, t.1),
    decreases names.len(),
{
    if names.len() > 0 {
        let items = tree_items(objects[oid]);
        match first_named(items, names[0]) {
            Ok(Some(e)) => {
                lemma_first_named_readable(items, names[0]);
                assert(entry_of(objects, oid, e));
                if names.len() > 1 && tree_mode(e.octal) {
                    assert(child_tree(objects, oid, e.oid));
                    lemma_reached_child(objects, tree, oid, e.oid);
                    lemma_pruned_found(objects, tree, head, e.oid, names.drop_first());
                }
            },
            _ => {},
        }
    }
}

fn prune_objects(objects: &mut ObjectMap, tree_oid: &ObjectId, head: &ObjectId)
    ensures
        final(objects)@ == pruned(old(objects)@, tree_oid@, head@),
{
    let mut needed = collect_all_oids(objects, tree_oid);
    needed.insert(head);
    objects.retain(&needed);
    assert(needed@ =~= Set::new(
        |oid: Seq<u8>| object_reached(old(objects)@, tree_oid@, oid) || oid == head@,
    ));
}

impl GitRepo {
    /// A repository with what the first fetch brought.
    pub fn init_and_fetch(
        remote_url: &str,
        branch: &str,
        ssh_key: Option<&str>,
        password: Option<&str>,
        author_name: &str,
        author_email: &str,
        result: &FetchResult,
    ) -> (r: Result<GitRepo, RepoError>)
        ensures
            ({
                let fresh = fresh_repo(
                    RemoteModel {
                        url: remote_url@,
                        branch: branch@,
                        ssh_key: str_chars(ssh_key),
                        password: str_chars(password),
                    },
                    author_name@,
                    author_email@,
                );
                let after = fresh.fetched(result.head_commit_oid@, result.packfile@);
                match r {
                    Ok(repo) => after == Ok::<RepoModel, RepoError>(repo@),
                    Err(e) => after == Err::<RepoModel, RepoError>(e),
                }
            }),
    {
        let mut repo = GitRepo::new(
            remote_url,
            branch,
            ssh_key,
            password,
            author_name,
            author_email,
        );
        match repo.apply_fetch(&result.head_commit_oid, result.packfile.as_slice()) {
            Ok(_) => Ok(repo),
            Err(e) => Err(e),
        }
    }

    /// Takes in what a fetch brought: the commit that the branch leads to, and
    /// a pack. What is no longer needed is dropped. Where the pack cannot be
    /// used nothing changes.
    pub fn apply_fetch(&mut self, head: &ObjectId, packfile: &[u8]) -> (r: Result<(), RepoError>)
        ensures
            match r {
                Ok(_) => old(self)@.fetched(head@, packfile@) == Ok::<RepoModel, RepoError>(
                    final(self)@,
                ),
                Err(e) => old(self)@.fetched(head@, packfile@) == Err::<RepoModel, RepoError>(e)
                    && final(self)@ == old(self)@,
            },
    {
        if packfile.len() == 0 {
            return Ok(());
        }
        let new_objects = match parse_packfile(packfile) {
            Ok(objects) => objects,
            Err(e) => {
                return Err(RepoError::Pack(e));
            },
        };
        let mut merged = self.objects.duplicate();
        merged.extend(&new_objects);
        let tree = match merged.get(head) {
            None => {
                return Err(RepoError::MissingCommit);
            },
            Some(data) => match read_commit_tree(data.as_slice()) {
                None => {
                    return Err(RepoError::BadCommit);
                },
                Some(tree) => tree,
            },
        };
        prune_objects(&mut merged, &tree, head);
        self.head_oid = Some(*head);
        self.objects = merged;
        assert(self@ =~= old(self)@.fetched(head@, packfile@)->Ok_0);
        Ok(())
    }
}

// ---------------------------------------------------------------------------
// Preparing a commit
// ---------------------------------------------------------------------------

/// The objects of the list whose ids have not been seen, each once.
pub open spec fn unseen(list: Seq<(u8, Seq<u8>)>, seen: Set<Seq<u8>>) -> Seq<(u8, Seq<u8>)>
    decreases list.len(),
{
    if list.len() == 0 {
        Seq::empty()
    } else {
        let oid = object_id(list[0].0, list[0].1);
        if seen.contains(oid) {
            unseen(list.drop_first(), seen)
        } else {
            seq![list[0]] + unseen(list.drop_first(), seen.insert(oid))
        }
    }
}

/// A change: the tree that it leads to, the objects that it writes, and what
/// is said about it.
#[verifier::ext_equal]
pub struct PlanModel {
    pub root: Seq<u8>,
    pub list: Seq<(u8, Seq<u8>)>,
    pub message: Seq<char>,
}

/// A commit that is ready to be pushed: its id, the objects to push, itself
/// the last of them, and the pack that holds them.
#[verifier::ext_equal]
pub struct PendingModel {
    pub commit: Seq<u8>,
    pub objects: Seq<(u8, Seq<u8>)>,
    pub packfile: Seq<u8>,
}

impl RepoModel {
    /// The commit of a plan, made at this time on top of `parent`.
    pub open spec fn commit_of(self, plan: PlanModel, parent: Seq<u8>, seconds: int) -> Seq<u8> {
        commit_text(
            plan.root,
            Some(parent),
            vstd::utf8::encode_utf8(self.author_name),
            vstd::utf8::encode_utf8(self.author_email),
            seconds,
            vstd::utf8::encode_utf8(plan.message),
        )
    }

    /// What a plan writes, the commit the last.
    pub open spec fn writes_of(self, plan: PlanModel, parent: Seq<u8>, seconds: int) -> Seq<
        (u8, Seq<u8>),
    > {
        plan.list.push((OBJ_COMMIT, self.commit_of(plan, parent, seconds)))
    }

    /// What there is to push for a plan, on top of the head.
    pub open spec fn pending(self, plan: Result<PlanModel, RepoError>, seconds: int) -> Result<
        PendingModel,
        RepoError,
    > {
        match (plan, self.head) {
            (Err(e), _) => Err(e),
            (Ok(_), None) => Err(RepoError::NoHead),
            (Ok(plan), Some(parent)) => if !plain_token(
                vstd::utf8::encode_utf8(self.author_name),
            ) || !plain_token(vstd::utf8::encode_utf8(self.author_email)) {
                Err(RepoError::BadAuthor)
            } else {
                let commit = self.commit_of(plan, parent, seconds);
                let oid = object_id(OBJ_COMMIT, commit);
                let objects = unseen(plan.list, set![oid]).push((OBJ_COMMIT, commit));
                match pack_bytes(objects) {
                    None => Err(RepoError::Compression),
                    Some(packfile) => Ok(PendingModel { commit: oid, objects, packfile }),
                }
            },
        }
    }

    /// The repository once a push was taken: the branch leads to the commit,
    /// and the objects are kept, but none in the place of another.
    pub open spec fn pushed(self, pending: PendingModel) -> RepoModel {
        RepoModel {
            head: Some(pending.commit),
            objects: kept_with(self.objects, pending.objects),
            ..self
        }
    }
}

/// The objects with those of the list whose ids are new.
pub open spec fn kept_with(objects: Map<Seq<u8>, Seq<u8>>, list: Seq<(u8, Seq<u8>)>) -> Map<
    Seq<u8>,
    Seq<u8>,
>
    decreases list.len(),
{
    if list.len() == 0 {
        objects
    } else {
        let front = kept_with(objects, list.drop_last());
        let oid = object_id(list.last().0, list.last().1);
        if front.contains_key(oid) {
            front
        } else {
            front.insert(oid, list.last().1)
        }
    }
}

/// A commit that is ready to be pushed.
pub struct PendingPush {
    pub commit_oid: ObjectId,
    pub objects: ObjectList,
    pub packfile: Vec<u8>,
}

impl View for PendingPush {
    type V = PendingModel;

    open spec fn view(&self) -> PendingModel {
        PendingModel {
            commit: self.commit_oid@,
            objects: list_model(self.objects@),
            packfile: self.packfile@,
        }
    }
}

struct Plan {
    root: ObjectId,
    list: ObjectList,
    message: String,
}

impl View for Plan {
    type V = PlanModel;

    closed spec fn view(&self) -> PlanModel {
        PlanModel { root: self.root@, list: list_model(self.list@), message: self.message@ }
    }
}

fn copy_unseen(list: &ObjectList, commit_oid: &ObjectId) -> (r: ObjectList)
    requires
        plain_kinds(list_model(list@)),
    ensures
        list_model(r@) == unseen(list_model(list@), set![commit_oid@]),
        plain_kinds(list_model(r@)),
{
    let ghost all = list_model(list@);
    let mut seen = OidSet::new();
    seen.insert(commit_oid);
    assert(seen@ =~= set![commit_oid@]);
    let mut r: ObjectList = Vec::new();
    let mut i: usize = 0;
    assert(all.skip(0) =~= all);
    assert(list_model(r@) + unseen(all, seen@) =~= unseen(all, seen@));
    while i < list.len()
        invariant
            i <= list@.len(),
            all == list_model(list@),
            plain_kinds(all),
            plain_kinds(list_model(r@)),
            list_model(r@) + unseen(all.skip(i as int), seen@) == unseen(all, set![commit_oid@]),
        decreases list@.len() - i,
    {
        let ghost before = list_model(r@);
        let ghost rest = all.skip(i as int);
        let ghost seen0 = seen@;
        assert(rest[0] == all[i as int]);
        assert(rest.drop_first() =~= all.skip(i + 1));
        assert(plain_kind(all[i as int].0));
        let kind: u8 = list[i].0;
        let oid = hash_object(kind, list[i].1.as_slice());
        if seen.insert(&oid) {
            let data = copy_bytes(list[i].1.as_slice());
            let ghost model = (kind, data@);
            r.push((kind, data));
            proof {
                assert(list_model(r@) =~= before.push(model));
                assert(before + unseen(rest, seen0) =~= list_model(r@) + unseen(
                    all.skip(i + 1),
                    seen@,
                ));
            }
        } else {
            assert(seen@ =~= seen0);
        }
        i += 1;
    }
    assert(all.skip(i as int) =~= Seq::empty());
    assert(list_model(r@) =~= unseen(all, set![commit_oid@]));
    r
}

pub(crate) fn pack_list(list: &ObjectList) -> (r: Result<Vec<u8>, PackError>)
    ensures
        match r {
            Ok(out) => pack_bytes(list_model(list@)) == Some(out@) && (plain_kinds(
                list_model(list@),
            ) && list@.len() < 0x1_0000_0000 ==> unpacked(out@) == Ok::<
                Map<Seq<u8>, Seq<u8>>,
                PackError,
            >(objects_of(list_model(list@)))),
            Err(_) => pack_bytes(list_model(list@)) is None,
        },
{
    let mut entries: Vec<(u8, &[u8])> = Vec::new();
    let mut i: usize = 0;
    while i < list.len()
        invariant
            i <= list@.len(),
            entries@.len() == i,
            forall|k: int|
                0 <= k < i ==> (#[trigger] entries@[k]).0 == list@[k].0 && entries@[k].1@
                    == list@[k].1@,
        decreases list@.len() - i,
    {
        entries.push((list[i].0, list[i].1.as_slice()));
        i += 1;
    }
    assert(entry_views(entries@) =~= list_model(list@));
    build_packfile(entries.as_slice())
}

impl GitRepo {
    /// Makes a plan ready to be pushed.
    fn prepare(&self, plan: &Plan, seconds: i64) -> (r: Result<PendingPush, RepoError>)
        requires
            plain_kinds(plan@.list),
        ensures
            match r {
                Ok(p) => self@.pending(Ok(plan@), seconds as int) == Ok::<PendingModel, RepoError>(
                    p@,
                ) && plain_kinds(p@.objects) && pack_holds(p@) && commit_tree(
                    self@.commit_of(plan@, self@.head->0, seconds as int),
                ) == Some(plan@.root),
                Err(e) => self@.pending(Ok(plan@), seconds as int) == Err::<
                    PendingModel,
                    RepoError,
                >(e),
            },
    {
        let parent = match self.head_oid {
            Some(oid) => oid,
            None => {
                return Err(RepoError::NoHead);
            },
        };
        if !is_plain_token(self.author_name.as_str()) || !is_plain_token(
            self.author_email.as_str(),
        ) {
            return Err(RepoError::BadAuthor);
        }
        let commit = build_commit_at(
            &plan.root,
            Some(&parent),
            self.author_name.as_str(),
            self.author_email.as_str(),
            plan.message.as_str(),
            seconds,
        );
        let ghost content = commit@;
        let commit_oid = hash_object(OBJ_COMMIT, commit.as_slice());
        let mut objects = copy_unseen(&plan.list, &commit_oid);
        let ghost before = list_model(objects@);
        objects.push((OBJ_COMMIT, commit));
        assert(list_model(objects@) =~= before.push((OBJ_COMMIT, content)));
        match pack_list(&objects) {
            Ok(packfile) => {
                let p = PendingPush { commit_oid, objects, packfile };
                assert(p@ =~= self@.pending(Ok(plan@), seconds as int)->Ok_0);
                Ok(p)
            },
            Err(_) => Err(RepoError::Compression),
        }
    }

    /// Takes in that a push was taken.
    pub fn finish_push(&mut self, pending: &PendingPush)
        requires
            plain_kinds(pending@.objects),
        ensures
            final(self)@ == old(self)@.pushed(pending@),
    {
        let mut objects = self.objects.duplicate();
        let ghost all = pending@.objects;
        let mut i: usize = 0;
        assert(all.take(0) =~= Seq::empty());
        while i < pending.objects.len()
            invariant
                *self == *old(self),
                i <= pending.objects@.len(),
                all == list_model(pending.objects@),
                plain_kinds(all),
                objects@ == kept_with(old(self)@.objects, all.take(i as int)),
            decreases pending.objects@.len() - i,
        {
            assert(all.take(i + 1).drop_last() =~= all.take(i as int));
            assert(all.take(i + 1).last() == all[i as int]);
            assert(plain_kind(all[i as int].0));
            let data = &pending.objects[i].1;
            let oid = hash_object(pending.objects[i].0, data.as_slice());
            if !objects.contains(&oid) {
                objects.insert(&oid, copy_bytes(data.as_slice()));
            }
            i += 1;
        }
        assert(all.take(i as int) =~= all);
        self.objects = objects;
        self.head_oid = Some(pending.commit_oid);
        assert(self@ =~= old(self)@.pushed(pending@));
    }
}

/// The pack holds the objects, as long as their number fits into its header.
pub open spec fn pack_holds(pending: PendingModel) -> bool {
    pending.objects.len() < 0x1_0000_0000 ==> unpacked(pending.packfile) == Ok::<
        Map<Seq<u8>, Seq<u8>>,
        PackError,
    >(objects_of(pending.objects))
}

fn is_plain_token(s: &str) -> (r: bool)
    ensures
        r == plain_token(text(s)),
{
    let bytes = s.as_bytes();
    crate::bytes::find_byte(bytes, 60).is_none() && crate::bytes::find_byte(bytes, 62).is_none()
        && crate::bytes::find_byte(bytes, 10).is_none()
}

// ---------------------------------------------------------------------------
// Changes
// ---------------------------------------------------------------------------

/// The path of the marker file that a directory is made with.
pub open spec fn marker_path(raw: Seq<u8>) -> Seq<u8> {
    joined(raw, text(".DAV"))
}

/// What is said about moving or copying.
pub open spec fn transfer_message(word: Seq<char>, src: Seq<u8>, dest: Seq<u8>) -> Seq<char> {
    word + path_debug(decode_utf8(src)) + " -> "@ + path_debug(decode_utf8(dest))
}

/// The error of a change to trees, as one of the repository.
pub open spec fn tree_change(
    r: Result<(Seq<u8>, Seq<(u8, Seq<u8>)>), ObjectError>,
    message: Seq<char>,
) -> Result<PlanModel, RepoError> {
    match r {
        Err(e) => Err(RepoError::Object(e)),
        Ok((root, list)) => Ok(PlanModel { root, list, message }),
    }
}

/// The objects of `list` ahead of those of the plan.
pub open spec fn after_list(
    list: Seq<(u8, Seq<u8>)>,
    plan: Result<PlanModel, RepoError>,
) -> Result<PlanModel, RepoError> {
    match plan {
        Ok(p) => Ok(PlanModel { list: list + p.list, ..p }),
        Err(e) => Err(e),
    }
}

impl RepoModel {
    /// The plan that puts `data` at a path. The file itself is written last.
    pub open spec fn file_plan(self, raw: Seq<u8>, data: Seq<u8>, message: Seq<char>) -> Result<
        PlanModel,
        RepoError,
    > {
        match self.head_tree() {
            Err(e) => Err(e),
            Ok((_, tree)) => {
                let blob = object_id(OBJ_BLOB, data);
                match tree_change(
                    modified(
                        self.objects.insert(blob, data),
                        tree,
                        components_of(raw),
                        Some((file_mode(), blob)),
                    ).1,
                    message,
                ) {
                    Err(e) => Err(e),
                    Ok(plan) => Ok(PlanModel { list: plan.list.push((OBJ_BLOB, data)), ..plan }),
                }
            },
        }
    }

    /// The plan that takes a path out.
    pub open spec fn removal_plan(self, raw: Seq<u8>, message: Seq<char>) -> Result<
        PlanModel,
        RepoError,
    > {
        match self.head_tree() {
            Err(e) => Err(e),
            Ok((_, tree)) => tree_change(
                modified(self.objects, tree, components_of(raw), None).1,
                message,
            ),
        }
    }

    /// The plan that writes a file.
    pub open spec fn write_plan(self, raw: Seq<u8>, data: Seq<u8>) -> Result<PlanModel, RepoError> {
        if !valid_utf8(raw) {
            Err(RepoError::NotUtf8)
        } else {
            self.file_plan(raw, data, "update "@ + decode_utf8(raw))
        }
    }

    /// The plan that deletes a file.
    pub open spec fn delete_plan(self, raw: Seq<u8>) -> Result<PlanModel, RepoError> {
        if !valid_utf8(raw) {
            Err(RepoError::NotUtf8)
        } else {
            self.removal_plan(raw, "delete "@ + decode_utf8(raw))
        }
    }

    /// The plan that deletes a file or a directory.
    pub open spec fn delete_subtree_plan(self, raw: Seq<u8>) -> Result<PlanModel, RepoError> {
        if !valid_utf8(raw) {
            Err(RepoError::NotUtf8)
        } else {
            self.removal_plan(raw, "delete "@ + path_debug(decode_utf8(raw)))
        }
    }

    /// The plan that makes a directory: with an empty marker file in it.
    pub open spec fn create_dir_plan(self, raw: Seq<u8>) -> Result<PlanModel, RepoError> {
        if !valid_utf8(raw) {
            Err(RepoError::NotUtf8)
        } else {
            self.file_plan(
                marker_path(raw),
                Seq::empty(),
                "create dir "@ + path_debug(decode_utf8(raw)),
            )
        }
    }

    /// The plan that copies a file or a directory, or moves it: what is at the
    /// destination is taken out first, and on a move the source last.
    pub open spec fn transfer_plan(self, src: Seq<u8>, dest: Seq<u8>, is_move: bool) -> Result<
        PlanModel,
        RepoError,
    > {
        let from = components_of(src);
        let to = components_of(dest);
        let message = transfer_message(
            if is_move {
                "move "@
            } else {
                "copy "@
            },
            src,
            dest,
        );
        if !valid_utf8(src) || !valid_utf8(dest) {
            Err(RepoError::NotUtf8)
        } else {
            match self.head_tree() {
                Err(e) => Err(e),
                Ok((_, tree)) => match found(self.objects, tree, to) {
                    Err(e) => Err(RepoError::Object(e)),
                    Ok(None) => transfer_into(self.objects, tree, from, to, is_move, message),
                    Ok(Some(_)) => {
                        let (cleared, r) = modified(self.objects, tree, to, None);
                        match r {
                            Err(e) => Err(RepoError::Object(e)),
                            Ok((root, list)) => after_list(
                                list,
                                transfer_into(cleared, root, from, to, is_move, message),
                            ),
                        }
                    },
                },
            }
        }
    }
}

/// The plan that copies or moves to where nothing is.
pub open spec fn transfer_into(
    objects: Map<Seq<u8>, Seq<u8>>,
    tree: Seq<u8>,
    from: Seq<Seq<u8>>,
    to: Seq<Seq<u8>>,
    is_move: bool,
    message: Seq<char>,
) -> Result<PlanModel, RepoError> {
    let (after, r) = copied_entry(objects, tree, from, to);
    match r {
        Err(e) => Err(RepoError::Object(e)),
        Ok((root, list)) => if is_move {
            after_list(list, tree_change(modified(after, root, from, None).1, message))
        } else {
            Ok(PlanModel { root, list, message })
        },
    }
}

fn concat_list(a: ObjectList, b: &ObjectList) -> (r: ObjectList)
    ensures
        list_model(r@) == list_model(a@) + list_model(b@),
{
    let mut r = a;
    let ghost start = list_model(r@);
    let mut i: usize = 0;
    assert(start + list_model(b@).take(0) =~= start);
    while i < b.len()
        invariant
            i <= b@.len(),
            list_model(r@) == start + list_model(b@).take(i as int),
        decreases b@.len() - i,
    {
        let ghost before = list_model(r@);
        let data = copy_bytes(b[i].1.as_slice());
        let ghost model = (b@[i as int].0, data@);
        r.push((b[i].0, data));
        assert(list_model(r@) =~= before.push(model));
        i += 1;
        assert(list_model(r@) =~= start + list_model(b@).take(i as int));
    }
    assert(list_model(b@).take(i as int) =~= list_model(b@));
    r
}

fn path_text(path: &RepoPath) -> (r: Result<String, RepoError>)
    ensures
        match r {
            Ok(s) => valid_utf8(path@) && s@ == decode_utf8(path@),
            Err(e) => !valid_utf8(path@) && e == RepoError::NotUtf8,
        },
{
    match utf8_text(path.raw.as_slice()) {
        Some(s) => Ok(s),
        None => Err(RepoError::NotUtf8),
    }
}

/// All trees.
proof fn lemma_modified_kinds(
    objects: Map<Seq<u8>, Seq<u8>>,
    oid: Seq<u8>,
    names: Seq<Seq<u8>>,
    target: Option<TargetModel>,
)
    ensures
        modified(objects, oid, names, target).1 matches Ok((_, list)) ==> plain_kinds(list),
    decreases names.len(),
{
    let es = readable(tree_items(objects[oid]));
    if names.len() > 1 {
        let (start, all) = crate::git::objects::with_directory(objects, es, names[0]);
        lemma_modified_kinds(
            start,
            crate::git::lists::last_named(all, names[0])->0,
            names.drop_first(),
            target,
        );
    }
}

impl GitRepo {
    fn plan_file(&self, path: &RepoPath, data: &[u8], message: String) -> (r: Result<
        Plan,
        RepoError,
    >)
        ensures
            match r {
                Ok(plan) => self@.file_plan(path@, data@, message@) == Ok::<PlanModel, RepoError>(
                    plan@,
                ) && plain_kinds(plan@.list) && file_lands(self@, path@, data@, plan@)
                    && plan@.list.len() > 0 && plan@.list.last() == (OBJ_BLOB, data@),
                Err(e) => self@.file_plan(path@, data@, message@) == Err::<PlanModel, RepoError>(e),
            },
    {
        let tree = match self.head_and_tree() {
            Ok((_, tree)) => tree,
            Err(e) => {
                return Err(e);
            },
        };
        let blob = hash_object(OBJ_BLOB, data);
        let mut objects = self.objects.duplicate();
        objects.insert(&blob, copy_bytes(data));
        let ghost before = objects@;
        proof {
            lemma_own_modes();
            lemma_modified_kinds(
                before,
                tree@,
                components_of(path@),
                Some((file_mode(), blob@)),
            );
        }
        match modify_tree_entry(&mut objects, &tree, path, Some((EntryMode::blob(), blob))) {
            Ok((root, list)) => {
                let mut list: ObjectList = list;
                let ghost trees = list_model(list@);
                let content = copy_bytes(data);
                list.push((OBJ_BLOB, content));
                assert(list_model(list@) =~= trees.push((OBJ_BLOB, data@)));
                let plan = Plan { root, list, message };
                proof {
                    assert(plan@ =~= self@.file_plan(path@, data@, message@)->Ok_0);
                    assert(plan@.list.drop_last() =~= trees);
                }
                Ok(plan)
            },
            Err(e) => Err(RepoError::Object(e)),
        }
    }

    fn plan_removal(&self, path: &RepoPath, message: String) -> (r: Result<Plan, RepoError>)
        ensures
            match r {
                Ok(plan) => self@.removal_plan(path@, message@) == Ok::<PlanModel, RepoError>(plan@)
                    && plain_kinds(plan@.list) && removal_lands(self@, path@, plan@),
                Err(e) => self@.removal_plan(path@, message@) == Err::<PlanModel, RepoError>(e),
            },
    {
        let tree = match self.head_and_tree() {
            Ok((_, tree)) => tree,
            Err(e) => {
                return Err(e);
            },
        };
        let mut objects = self.objects.duplicate();
        proof {
            lemma_modified_kinds(objects@, tree@, components_of(path@), None);
        }
        match remove_tree_entry(&mut objects, &tree, path) {
            Ok((root, list)) => Ok(Plan { root, list, message }),
            Err(e) => Err(RepoError::Object(e)),
        }
    }

}

/// The trees that a file is put into lead to it, whichever objects they are
/// found among.
pub open spec fn file_lands(m: RepoModel, raw: Seq<u8>, data: Seq<u8>, plan: PlanModel) -> bool {
    let blob = object_id(OBJ_BLOB, data);
    m.head_tree() matches Ok((_, tree)) ==> change_lasts(
        m.objects.insert(blob, data),
        tree,
        plan.root,
        plan.list.drop_last(),
        components_of(raw),
        Some((file_mode(), blob)),
    ) && blob.len() == 20
}

/// The trees that a path is taken out of lead there to nothing.
pub open spec fn removal_lands(m: RepoModel, raw: Seq<u8>, plan: PlanModel) -> bool {
    m.head_tree() matches Ok((_, tree)) ==> change_lasts(
        m.objects,
        tree,
        plan.root,
        plan.list,
        components_of(raw),
        None,
    )
}

// ---------------------------------------------------------------------------
// What a change comes to
// ---------------------------------------------------------------------------

/// All of `part` is among `all`.
pub open spec fn part_of(part: Seq<(u8, Seq<u8>)>, all: Seq<(u8, Seq<u8>)>) -> bool {
    forall|i: int| 0 <= i < part.len() ==> all.contains(#[trigger] part[i])
}

proof fn lemma_no_collision_part(
    objects: Map<Seq<u8>, Seq<u8>>,
    all: Seq<(u8, Seq<u8>)>,
    part: Seq<(u8, Seq<u8>)>,
)
    requires
        no_collision(objects, all),
        part_of(part, all),
    ensures
        no_collision(objects, part),
{
    let big = with_empty_tree(all);
    let small = with_empty_tree(part);
    assert forall|i: int| 0 <= i < small.len() implies big.contains(#[trigger] small[i]) by {
        if i < part.len() {
            assert(all.contains(part[i]));
            let k = choose|k: int| 0 <= k < all.len() && all[k] == part[i];
            assert(big[k] == small[i]);
        } else {
            assert(big[all.len() as int] == small[i]);
        }
    }
    assert forall|i: int|
        0 <= i < small.len() && objects.contains_key(
            object_id((#[trigger] small[i]).0, small[i].1),
        ) implies objects[object_id(small[i].0, small[i].1)] == small[i].1 by {
        let k = choose|k: int| 0 <= k < big.len() && big[k] == small[i];
        assert(objects.contains_key(object_id(big[k].0, big[k].1)));
    }
    assert forall|i: int, j: int|
        0 <= i < small.len() && 0 <= j < small.len() && object_id((#[trigger] small[i]).0, small[i].1)
            == object_id((#[trigger] small[j]).0, small[j].1) implies small[i].1 == small[j].1 by {
        let x = choose|x: int| 0 <= x < big.len() && big[x] == small[i];
        let y = choose|y: int| 0 <= y < big.len() && big[y] == small[j];
        assert(big[x].1 == big[y].1);
    }
}

/// What has been written once more does not collide with what else is written.
proof fn lemma_no_collision_after(
    objects: Map<Seq<u8>, Seq<u8>>,
    all: Seq<(u8, Seq<u8>)>,
    first: Seq<(u8, Seq<u8>)>,
    after: Map<Seq<u8>, Seq<u8>>,
)
    requires
        no_collision(objects, all),
        part_of(first, all),
        accounted(objects, after, first),
    ensures
        no_collision(after, all),
{
    let big = with_empty_tree(all);
    let few = with_empty_tree(first);
    assert forall|i: int|
        0 <= i < big.len() && after.contains_key(object_id((#[trigger] big[i]).0, big[i].1)) implies
        after[object_id(big[i].0, big[i].1)] == big[i].1 by {
        let k = object_id(big[i].0, big[i].1);
        if objects.contains_key(k) && objects[k] == after[k] {
        } else {
            assert(among(few, k, after[k]));
            let j = choose|j: int|
                0 <= j < few.len() && object_id((#[trigger] few[j]).0, few[j].1) == k && few[j].1
                    == after[k];
            if j < first.len() {
                assert(few[j] == first[j]);
                assert(all.contains(first[j]));
                let x = choose|x: int| 0 <= x < all.len() && all[x] == first[j];
                assert(big[x] == first[j]);
                assert(big[x].1 == big[i].1);
            } else {
                assert(big[all.len() as int] == few[j]);
                assert(big[all.len() as int].1 == big[i].1);
            }
        }
    }
}

/// The objects that two maps have in common.
spec fn shared(a: Map<Seq<u8>, Seq<u8>>, b: Map<Seq<u8>, Seq<u8>>) -> Map<Seq<u8>, Seq<u8>> {
    a.restrict(Set::new(|k: Seq<u8>| b.contains_key(k) && b[k] == a[k]))
}

proof fn lemma_shared(
    a: Map<Seq<u8>, Seq<u8>>,
    b: Map<Seq<u8>, Seq<u8>>,
    known: Map<Seq<u8>, Seq<u8>>,
    list: Seq<(u8, Seq<u8>)>,
)
    requires
        carries(known, list, a),
        carries(known, list, b),
    ensures
        held_in(shared(a, b), a),
        held_in(shared(a, b), b),
        carries(known, list, shared(a, b)),
{
    let c = shared(a, b);
    assert forall|i: int| 0 <= i < list.len() implies c.contains_key(
        object_id((#[trigger] list[i]).0, list[i].1),
    ) && c[object_id(list[i].0, list[i].1)] == list[i].1 by {
        assert(a.contains_key(object_id(list[i].0, list[i].1)));
        assert(b.contains_key(object_id(list[i].0, list[i].1)));
    }
}

proof fn lemma_held_chain(
    a: Map<Seq<u8>, Seq<u8>>,
    b: Map<Seq<u8>, Seq<u8>>,
    c: Map<Seq<u8>, Seq<u8>>,
)
    requires
        held_in(a, b),
        held_in(b, c),
    ensures
        held_in(a, c),
{
}

proof fn lemma_apart_symmetric(a: Seq<Seq<u8>>, b: Seq<Seq<u8>>)
    requires
        apart(a, b),
    ensures
        apart(b, a),
{
    let i = choose|i: int| 0 <= i < a.len() && i < b.len() && #[trigger] a[i] != #[trigger] b[i];
    assert(b[i] != a[i]);
}

/// What copying or moving comes to: the destination leads to what the source
/// led to, the source after a move to nothing, and every path that parts ways
/// with them, and that could be looked up before, leads where it led.
pub open spec fn transferred(
    objects: Map<Seq<u8>, Seq<u8>>,
    tree: Seq<u8>,
    after: Map<Seq<u8>, Seq<u8>>,
    root: Seq<u8>,
    from: Seq<Seq<u8>>,
    to: Seq<Seq<u8>>,
    is_move: bool,
) -> bool {
    &&& found(after, root, to) == found(objects, tree, from)
    &&& is_move ==> found(after, root, from) == Ok::<Option<TargetModel>, ObjectError>(None)
    &&& forall|other: Seq<Seq<u8>>|
        apart(to, other) && (is_move ==> apart(from, other)) && utf8_names(other) && found(
            objects,
            tree,
            other,
        ) is Ok ==> #[trigger] found(after, root, other) == found(objects, tree, other)
}

/// What copying or moving needs to come to that: a source, a destination that
/// parts ways with it, and sound trees on the way to both.
pub open spec fn transfer_sound(
    objects: Map<Seq<u8>, Seq<u8>>,
    tree: Seq<u8>,
    from: Seq<Seq<u8>>,
    to: Seq<Seq<u8>>,
) -> bool {
    &&& sound_path(objects, tree, from)
    &&& sound_path(objects, tree, to)
    &&& apart(to, from)
    &&& found(objects, tree, from) matches Ok(Some(_))
}

/// The trees that something is copied or moved in lead where they should,
/// whichever objects they are found among.
pub open spec fn transfer_lands(
    m: RepoModel,
    from: Seq<Seq<u8>>,
    to: Seq<Seq<u8>>,
    is_move: bool,
    plan: PlanModel,
) -> bool {
    m.head_tree() matches Ok((_, tree)) ==> (transfer_sound(m.objects, tree, from, to)
        && no_collision(m.objects, plan.list) ==> forall|after: Map<Seq<u8>, Seq<u8>>| #[trigger]
        carries(m.objects, plan.list, after) ==> transferred(
            m.objects,
            tree,
            after,
            plan.root,
            from,
            to,
            is_move,
        ))
}

/// The state of a transfer before the copy: the destination is clear, and all
/// else is as it was.
spec fn cleared_well(
    objects: Map<Seq<u8>, Seq<u8>>,
    tree: Seq<u8>,
    cleared: Map<Seq<u8>, Seq<u8>>,
    root: Seq<u8>,
    list: Seq<(u8, Seq<u8>)>,
    to: Seq<Seq<u8>>,
) -> bool {
    ||| cleared == objects && root == tree && list.len() == 0
    ||| change_lasts(objects, tree, root, list, to, None)
}

/// A change with nothing changed, or one that took the destination out, leaves
/// every other path.
proof fn lemma_cleared(
    objects: Map<Seq<u8>, Seq<u8>>,
    tree: Seq<u8>,
    cleared: Map<Seq<u8>, Seq<u8>>,
    root: Seq<u8>,
    list: Seq<(u8, Seq<u8>)>,
    to: Seq<Seq<u8>>,
    other: Seq<Seq<u8>>,
    after: Map<Seq<u8>, Seq<u8>>,
)
    requires
        cleared_well(objects, tree, cleared, root, list, to),
        sound_path(objects, tree, to),
        carries(objects, list, after),
    ensures
        sound_path(after, root, to),
        apart(to, other) && utf8_names(other) && found(objects, tree, other) is Ok ==> found(
            after,
            root,
            other,
        ) == found(objects, tree, other) && (sound_path(objects, tree, other) ==> sound_path(
            after,
            root,
            other,
        )),
{
    if cleared == objects && root == tree && list.len() == 0 {
        lemma_sound_extends(objects, after, tree, to);
        if found(objects, tree, other) is Ok {
            lemma_found_extends(objects, after, tree, other);
            if sound_path(objects, tree, other) {
                lemma_sound_extends(objects, after, tree, other);
            }
        }
    } else {
        assert(change_sound(objects, tree, to, None));
        assert(held_in(objects, objects));
        assert(change_holds(objects, tree, after, root, to, None));
    }
}

/// Copying to where nothing is, and what the copy leaves as it was.
proof fn lemma_copied(
    objects: Map<Seq<u8>, Seq<u8>>,
    tree: Seq<u8>,
    cleared: Map<Seq<u8>, Seq<u8>>,
    root1: Seq<u8>,
    list1: Seq<(u8, Seq<u8>)>,
    root2: Seq<u8>,
    list2: Seq<(u8, Seq<u8>)>,
    from: Seq<Seq<u8>>,
    to: Seq<Seq<u8>>,
    after: Map<Seq<u8>, Seq<u8>>,
)
    requires
        transfer_sound(objects, tree, from, to),
        cleared_well(objects, tree, cleared, root1, list1, to),
        carries(objects, list1, cleared),
        found(cleared, root1, from) is Ok ==> change_lasts(
            cleared,
            root1,
            root2,
            list2,
            to,
            found(cleared, root1, from)->Ok_0,
        ),
        carries(objects, list1, after),
        has_all(list2, after),
    ensures
        transferred(objects, tree, after, root2, from, to, false),
        sound_path(after, root2, from),
        sound_path(after, root2, to),
{
    let t = found(objects, tree, from)->Ok_0;
    lemma_found_utf8(objects, tree, from);
    lemma_cleared(objects, tree, cleared, root1, list1, to, from, cleared);
    assert(found(cleared, root1, from) == found(objects, tree, from));
    assert(from.len() > 0) by {
        let i = choose|i: int|
            0 <= i < to.len() && i < from.len() && #[trigger] to[i] != #[trigger] from[i];
    }
    lemma_found_sound(objects, tree, from);
    let known = shared(cleared, after);
    lemma_shared(cleared, after, objects, list1);
    assert(change_sound(cleared, root1, to, t));
    assert(carries(known, list2, after));
    assert(change_holds(known, root1, after, root2, to, t));
    assert forall|other: Seq<Seq<u8>>|
        apart(to, other) && utf8_names(other) && found(objects, tree, other) is Ok implies
        #[trigger] found(after, root2, other) == found(objects, tree, other) by {
        lemma_cleared(objects, tree, cleared, root1, list1, to, other, known);
    }
    lemma_cleared(objects, tree, cleared, root1, list1, to, from, known);
    assert(found(after, root2, from) == found(known, root1, from));
}

/// Taking the source out, after it was copied.
proof fn lemma_moved(
    objects: Map<Seq<u8>, Seq<u8>>,
    tree: Seq<u8>,
    cleared: Map<Seq<u8>, Seq<u8>>,
    root1: Seq<u8>,
    list1: Seq<(u8, Seq<u8>)>,
    copied: Map<Seq<u8>, Seq<u8>>,
    root2: Seq<u8>,
    list2: Seq<(u8, Seq<u8>)>,
    root3: Seq<u8>,
    list3: Seq<(u8, Seq<u8>)>,
    from: Seq<Seq<u8>>,
    to: Seq<Seq<u8>>,
    after: Map<Seq<u8>, Seq<u8>>,
)
    requires
        transfer_sound(objects, tree, from, to),
        cleared_well(objects, tree, cleared, root1, list1, to),
        carries(objects, list1, cleared),
        found(cleared, root1, from) is Ok ==> change_lasts(
            cleared,
            root1,
            root2,
            list2,
            to,
            found(cleared, root1, from)->Ok_0,
        ),
        carries(cleared, list2, copied),
        change_lasts(copied, root2, root3, list3, from, None),
        carries(objects, list1, after),
        has_all(list2, after),
        has_all(list3, after),
    ensures
        transferred(objects, tree, after, root3, from, to, true),
{
    assert(carries(objects, list1, copied)) by {
        lemma_held_chain(objects, cleared, copied);
        assert forall|i: int| 0 <= i < list1.len() implies copied.contains_key(
            object_id((#[trigger] list1[i]).0, list1[i].1),
        ) && copied[object_id(list1[i].0, list1[i].1)] == list1[i].1 by {
            assert(cleared.contains_key(object_id(list1[i].0, list1[i].1)));
        }
    }
    lemma_copied(objects, tree, cleared, root1, list1, root2, list2, from, to, copied);
    let known = shared(copied, after);
    lemma_shared(copied, after, objects, list1);
    assert(has_all(list2, known)) by {
        assert forall|i: int| 0 <= i < list2.len() implies known.contains_key(
            object_id((#[trigger] list2[i]).0, list2[i].1),
        ) && known[object_id(list2[i].0, list2[i].1)] == list2[i].1 by {
            assert(copied.contains_key(object_id(list2[i].0, list2[i].1)));
            assert(after.contains_key(object_id(list2[i].0, list2[i].1)));
        }
    }
    lemma_copied(objects, tree, cleared, root1, list1, root2, list2, from, to, known);
    assert(change_sound(copied, root2, from, None));
    assert(carries(known, list3, after));
    assert(change_holds(known, root2, after, root3, from, None));
    lemma_apart_symmetric(to, from);
    lemma_found_utf8(known, root2, to);
    assert(found(after, root3, to) == found(known, root2, to));
    assert forall|other: Seq<Seq<u8>>|
        apart(to, other) && apart(from, other) && utf8_names(other) && found(
            objects,
            tree,
            other,
        ) is Ok implies #[trigger] found(after, root3, other) == found(objects, tree, other) by {
        assert(found(known, root2, other) == found(objects, tree, other));
    }
}

proof fn lemma_part_front(a: Seq<(u8, Seq<u8>)>, b: Seq<(u8, Seq<u8>)>)
    ensures
        part_of(a, a + b),
        part_of(b, a + b),
{
    assert forall|i: int| 0 <= i < a.len() implies (a + b).contains(#[trigger] a[i]) by {
        assert((a + b)[i] == a[i]);
    }
    assert forall|i: int| 0 <= i < b.len() implies (a + b).contains(#[trigger] b[i]) by {
        assert((a + b)[a.len() + i] == b[i]);
    }
}

proof fn lemma_has_all_parts(
    a: Seq<(u8, Seq<u8>)>,
    b: Seq<(u8, Seq<u8>)>,
    after: Map<Seq<u8>, Seq<u8>>,
)
    requires
        has_all(a + b, after),
    ensures
        has_all(a, after),
        has_all(b, after),
{
    assert forall|i: int| 0 <= i < a.len() implies after.contains_key(
        object_id((#[trigger] a[i]).0, a[i].1),
    ) && after[object_id(a[i].0, a[i].1)] == a[i].1 by {
        assert((a + b)[i] == a[i]);
    }
    assert forall|i: int| 0 <= i < b.len() implies after.contains_key(
        object_id((#[trigger] b[i]).0, b[i].1),
    ) && after[object_id(b[i].0, b[i].1)] == b[i].1 by {
        assert((a + b)[a.len() + i] == b[i]);
    }
}

proof fn lemma_plain_parts(a: Seq<(u8, Seq<u8>)>, b: Seq<(u8, Seq<u8>)>)
    requires
        plain_kinds(a),
        plain_kinds(b),
    ensures
        plain_kinds(a + b),
{
    assert forall|i: int| 0 <= i < (a + b).len() implies plain_kind((#[trigger] (a + b)[i]).0) by {
        if i < a.len() {
            assert((a + b)[i] == a[i]);
        } else {
            assert((a + b)[i] == b[i - a.len()]);
        }
    }
}

impl GitRepo {
    fn plan_transfer(&self, src: &RepoPath, dest: &RepoPath, is_move: bool) -> (r: Result<
        Plan,
        RepoError,
    >)
        ensures
            match r {
                Ok(plan) => self@.transfer_plan(src@, dest@, is_move) == Ok::<PlanModel, RepoError>(
                    plan@,
                ) && plain_kinds(plan@.list) && transfer_lands(
                    self@,
                    components_of(src@),
                    components_of(dest@),
                    is_move,
                    plan@,
                ),
                Err(e) => self@.transfer_plan(src@, dest@, is_move) == Err::<PlanModel, RepoError>(
                    e,
                ),
            },
    {
        let ghost from = components_of(src@);
        let ghost to = components_of(dest@);
        let src_text = match path_text(src) {
            Ok(s) => s,
            Err(e) => {
                return Err(e);
            },
        };
        let dest_text = match path_text(dest) {
            Ok(s) => s,
            Err(e) => {
                return Err(e);
            },
        };
        let mut message: String = if is_move {
            "move ".to_owned()
        } else {
            "copy ".to_owned()
        };
        message.append(debug_path(src_text.as_str()).as_str());
        message.append(" -> ");
        message.append(debug_path(dest_text.as_str()).as_str());
        let tree = match self.head_and_tree() {
            Ok((_, tree)) => tree,
            Err(e) => {
                return Err(e);
            },
        };
        let mut objects = self.objects.duplicate();
        let mut root: ObjectId = tree;
        let mut list: ObjectList = Vec::new();
        assert(list_model(list@) =~= Seq::empty());
        let occupied = match find_tree_entry(&objects, &tree, dest) {
            Ok(t) => t.is_some(),
            Err(e) => {
                return Err(RepoError::Object(e));
            },
        };
        if occupied {
            proof {
                lemma_modified_kinds(objects@, tree@, to, None);
            }
            match remove_tree_entry(&mut objects, &tree, dest) {
                Ok((r, l)) => {
                    root = r;
                    list = l;
                },
                Err(e) => {
                    return Err(RepoError::Object(e));
                },
            }
        }
        let ghost cleared = objects@;
        let ghost root1 = root@;
        let ghost list1 = list_model(list@);
        assert(cleared_well(self@.objects, tree@, cleared, root1, list1, to));
        proof {
            lemma_modified_kinds(cleared, root1, to, found(cleared, root1, from)->Ok_0);
        }
        let list2 = match copy_tree_entry(&mut objects, &root, src, dest) {
            Ok((r, l)) => {
                root = r;
                l
            },
            Err(e) => {
                return Err(RepoError::Object(e));
            },
        };
        let ghost copied = objects@;
        let ghost root2 = root@;
        let ghost second = list_model(list2@);
        proof {
            lemma_plain_parts(list1, second);
        }
        if is_move {
            proof {
                lemma_modified_kinds(copied, root2, from, None);
            }
            match remove_tree_entry(&mut objects, &root, src) {
                Ok((r, list3)) => {
                    let ghost third = list_model(list3@);
                    let list23 = concat_list(list2, &list3);
                    let whole = concat_list(list, &list23);
                    let plan = Plan { root: r, list: whole, message };
                    proof {
                        lemma_plain_parts(second, third);
                        lemma_plain_parts(list1, second + third);
                        assert(list1 + (second + third) =~= plan@.list);
                        if occupied {
                        } else {
                            assert(plan@.list =~= second + third);
                        }
                        assert(Ok::<PlanModel, RepoError>(plan@) =~= self@.transfer_plan(
                            src@,
                            dest@,
                            is_move,
                        ));
                        let objects0 = self@.objects;
                        if transfer_sound(objects0, tree@, from, to) && no_collision(
                            objects0,
                            plan@.list,
                        ) {
                            lemma_part_front(list1, second + third);
                            lemma_part_front(second, third);
                            assert(part_of(second, plan@.list)) by {
                                assert forall|i: int| 0 <= i < second.len() implies
                                    plan@.list.contains(#[trigger] second[i]) by {
                                    assert(plan@.list[list1.len() + i] == second[i]);
                                }
                            }
                            lemma_no_collision_part(objects0, plan@.list, list1);
                            if !occupied {
                                assert(accounted(objects0, cleared, list1));
                            }
                            lemma_no_collision_after(objects0, plan@.list, list1, cleared);
                            lemma_no_collision_part(cleared, plan@.list, second);
                            assert forall|after: Map<Seq<u8>, Seq<u8>>| #[trigger]
                                carries(objects0, plan@.list, after) implies transferred(
                                objects0,
                                tree@,
                                after,
                                plan@.root,
                                from,
                                to,
                                is_move,
                            ) by {
                                lemma_has_all_parts(list1, second + third, after);
                                lemma_has_all_parts(second, third, after);
                                lemma_moved(
                                    objects0,
                                    tree@,
                                    cleared,
                                    root1,
                                    list1,
                                    copied,
                                    root2,
                                    second,
                                    r@,
                                    third,
                                    from,
                                    to,
                                    after,
                                );
                            }
                        }
                    }
                    Ok(plan)
                },
                Err(e) => Err(RepoError::Object(e)),
            }
        } else {
            let whole = concat_list(list, &list2);
            let plan = Plan { root, list: whole, message };
            proof {
                if !occupied {
                    assert(plan@.list =~= second);
                }
                assert(Ok::<PlanModel, RepoError>(plan@) =~= self@.transfer_plan(
                    src@,
                    dest@,
                    is_move,
                ));
                let objects0 = self@.objects;
                if transfer_sound(objects0, tree@, from, to) && no_collision(
                    objects0,
                    plan@.list,
                ) {
                    lemma_part_front(list1, second);
                    lemma_no_collision_part(objects0, plan@.list, list1);
                    assert forall|after: Map<Seq<u8>, Seq<u8>>| #[trigger]
                        carries(objects0, plan@.list, after) implies transferred(
                        objects0,
                        tree@,
                        after,
                        plan@.root,
                        from,
                        to,
                        is_move,
                    ) by {
                        lemma_has_all_parts(list1, second, after);
                        lemma_copied(
                            objects0,
                            tree@,
                            cleared,
                            root1,
                            list1,
                            root2,
                            second,
                            from,
                            to,
                            after,
                        );
                    }
                }
            }
            Ok(plan)
        }
    }
}

// ---------------------------------------------------------------------------
// What a push comes to
// ---------------------------------------------------------------------------

/// Nothing that the commit of a plan writes has the id of another content.
pub open spec fn settled(m: RepoModel, plan: Result<PlanModel, RepoError>, seconds: int) -> bool {
    match (plan, m.head) {
        (Ok(p), Some(head)) => no_collision(m.objects, m.writes_of(p, head, seconds)),
        _ => false,
    }
}

/// The trees on the way to a path are sound.
pub open spec fn sound_at(m: RepoModel, names: Seq<Seq<u8>>) -> bool {
    m.head_tree() matches Ok((_, tree)) && sound_path(m.objects, tree, names)
}

/// Files and directories stay, where their path parts ways with this one.
pub open spec fn others_stay(m: RepoModel, after: RepoModel, names: Seq<Seq<u8>>) -> bool {
    forall|other: Seq<Seq<u8>>| #[trigger]
        apart(names, other) && utf8_names(other) ==> stays(m, after, other)
}

/// A file at this path has its content still, a directory is there still, and
/// the path leads where it led, or to nothing as it did.
pub open spec fn stays(m: RepoModel, after: RepoModel, names: Seq<Seq<u8>>) -> bool {
    &&& m.file_at(names) matches Ok(Some(data)) ==> after.file_at(names) == Ok::<
        Option<Seq<u8>>,
        RepoError,
    >(Some(data))
    &&& m.entry_at(names) matches Ok(Some(t)) ==> tree_mode(t.0) ==> after.directory_at(names)
    &&& m.entry_at(names) is Ok ==> after.entry_at(names) == m.entry_at(names)
}

/// What was written is read, as a plain file, and all else stays.
pub open spec fn write_holds(
    m: RepoModel,
    after: RepoModel,
    names: Seq<Seq<u8>>,
    data: Seq<u8>,
) -> bool {
    &&& after.file_at(names) == Ok::<Option<Seq<u8>>, RepoError>(Some(data))
    &&& after.entry_at(names) == Ok::<Option<TargetModel>, RepoError>(
        Some((file_mode(), object_id(OBJ_BLOB, data))),
    )
    &&& others_stay(m, after, names)
}

/// What was deleted is gone, and all else stays.
pub open spec fn removal_holds(m: RepoModel, after: RepoModel, names: Seq<Seq<u8>>) -> bool {
    after.entry_at(names) == Ok::<Option<TargetModel>, RepoError>(None) && others_stay(
        m,
        after,
        names,
    )
}

/// The destination has what the source had, with all that is below it; after a
/// move the source is gone; all else stays.
pub open spec fn transfer_holds(
    m: RepoModel,
    after: RepoModel,
    from: Seq<Seq<u8>>,
    to: Seq<Seq<u8>>,
    is_move: bool,
) -> bool {
    &&& after.entry_at(to) == m.entry_at(from)
    &&& is_move ==> after.entry_at(from) == Ok::<Option<TargetModel>, RepoError>(None)
    &&& forall|rest: Seq<Seq<u8>>|
        m.file_at(#[trigger] (from + rest)) matches Ok(Some(data)) ==> after.file_at(to + rest)
            == Ok::<Option<Seq<u8>>, RepoError>(Some(data))
    &&& forall|other: Seq<Seq<u8>>| #[trigger]
        apart(to, other) && (is_move ==> apart(from, other)) && utf8_names(other) ==> stays(
            m,
            after,
            other,
        )
}

proof fn lemma_unseen(list: Seq<(u8, Seq<u8>)>, seen: Set<Seq<u8>>)
    ensures
        part_of(unseen(list, seen), list),
        forall|i: int|
            0 <= i < list.len() ==> seen.contains(object_id((#[trigger] list[i]).0, list[i].1))
                || has_id(unseen(list, seen), object_id(list[i].0, list[i].1)),
    decreases list.len(),
{
    if list.len() > 0 {
        let rest = list.drop_first();
        let oid = object_id(list[0].0, list[0].1);
        let next = if seen.contains(oid) {
            seen
        } else {
            seen.insert(oid)
        };
        lemma_unseen(rest, next);
        let u = unseen(list, seen);
        let v = unseen(rest, next);
        assert forall|i: int| 0 <= i < u.len() implies list.contains(#[trigger] u[i]) by {
            if seen.contains(oid) {
                assert(rest.contains(v[i]));
                let k = choose|k: int| 0 <= k < rest.len() && rest[k] == v[i];
                assert(list[k + 1] == u[i]);
            } else if i == 0 {
                assert(list[0] == u[0]);
            } else {
                assert(u[i] == v[i - 1]);
                assert(rest.contains(v[i - 1]));
                let k = choose|k: int| 0 <= k < rest.len() && rest[k] == v[i - 1];
                assert(list[k + 1] == u[i]);
            }
        }
        assert forall|i: int| 0 <= i < list.len() implies seen.contains(
            object_id((#[trigger] list[i]).0, list[i].1),
        ) || has_id(u, object_id(list[i].0, list[i].1)) by {
            if !seen.contains(oid) {
                assert(u[0] == list[0]);
            }
            if i > 0 {
                let x = object_id(list[i].0, list[i].1);
                assert(rest[i - 1] == list[i]);
                if has_id(v, x) {
                    let k = choose|k: int|
                        0 <= k < v.len() && object_id((#[trigger] v[k]).0, v[k].1) == x;
                    if seen.contains(oid) {
                        assert(u[k] == v[k]);
                    } else {
                        assert(u[k + 1] == v[k]);
                    }
                } else if x == oid && !seen.contains(oid) {
                    assert(object_id(u[0].0, u[0].1) == x);
                }
            } else if !seen.contains(oid) {
                assert(object_id(u[0].0, u[0].1) == oid);
            }
        }
    }
}

spec fn has_id(list: Seq<(u8, Seq<u8>)>, oid: Seq<u8>) -> bool {
    exists|k: int| 0 <= k < list.len() && object_id((#[trigger] list[k]).0, list[k].1) == oid
}

proof fn lemma_kept_with(
    objects: Map<Seq<u8>, Seq<u8>>,
    list: Seq<(u8, Seq<u8>)>,
    all: Seq<(u8, Seq<u8>)>,
)
    requires
        no_collision(objects, all),
        part_of(list, all),
    ensures
        carries(objects, list, kept_with(objects, list)),
        accounted(objects, kept_with(objects, list), list),
    decreases list.len(),
{
    if list.len() > 0 {
        let front = list.drop_last();
        let last = list.last();
        let oid = object_id(last.0, last.1);
        assert(part_of(front, all)) by {
            assert forall|i: int| 0 <= i < front.len() implies all.contains(#[trigger] front[i]) by {
                assert(front[i] == list[i]);
            }
        }
        lemma_kept_with(objects, front, all);
        let before = kept_with(objects, front);
        let after = kept_with(objects, list);
        let big = with_empty_tree(all);
        let small = with_empty_tree(list);
        let few = with_empty_tree(front);
        assert(list[list.len() - 1] == last);
        assert(all.contains(last));
        let x = choose|x: int| 0 <= x < all.len() && all[x] == last;
        assert(big[x] == last);
        if before.contains_key(oid) {
            if !(objects.contains_key(oid) && objects[oid] == before[oid]) {
                assert(among(few, oid, before[oid]));
                let j = choose|j: int|
                    0 <= j < few.len() && object_id((#[trigger] few[j]).0, few[j].1) == oid
                        && few[j].1 == before[oid];
                if j < front.len() {
                    assert(few[j] == list[j]);
                    assert(all.contains(list[j]));
                    let y = choose|y: int| 0 <= y < all.len() && all[y] == list[j];
                    assert(big[y] == list[j]);
                    assert(big[y].1 == big[x].1);
                } else {
                    assert(big[all.len() as int] == few[j]);
                    assert(big[all.len() as int].1 == big[x].1);
                }
            } else {
                assert(objects.contains_key(object_id(big[x].0, big[x].1)));
            }
            assert(before[oid] == last.1);
        }
        assert forall|i: int| 0 <= i < list.len() implies after.contains_key(
            object_id((#[trigger] list[i]).0, list[i].1),
        ) && after[object_id(list[i].0, list[i].1)] == list[i].1 by {
            if i < front.len() {
                assert(front[i] == list[i]);
            }
        }
        assert forall|k: Seq<u8>| #[trigger] after.contains_key(k) implies (objects.contains_key(k)
            && objects[k] == after[k]) || among(small, k, after[k]) by {
            if before.contains_key(k) {
                if !(objects.contains_key(k) && objects[k] == before[k]) {
                    assert(among(few, k, before[k]));
                    let j = choose|j: int|
                        0 <= j < few.len() && object_id((#[trigger] few[j]).0, few[j].1) == k
                            && few[j].1 == before[k];
                    if j < front.len() {
                        assert(small[j] == few[j]);
                    } else {
                        assert(small[list.len() as int] == few[j]);
                    }
                }
            } else {
                assert(small[front.len() as int] == last);
            }
        }
    }
}

/// A push that was taken leads to the tree of the plan, and the repository has
/// all that it had, and all that was written.
proof fn lemma_pushed(m: RepoModel, plan: PlanModel, seconds: int, p: PendingModel)
    requires
        m.pending(Ok(plan), seconds) == Ok::<PendingModel, RepoError>(p),
        settled(m, Ok(plan), seconds),
        commit_tree(m.commit_of(plan, m.head->0, seconds)) == Some(plan.root),
    ensures
        carries(m.objects, plan.list, m.pushed(p).objects),
        no_collision(m.objects, plan.list),
        m.pushed(p).head_tree() == Ok::<(Seq<u8>, Seq<u8>), RepoError>((p.commit, plan.root)),
{
    let commit = m.commit_of(plan, m.head->0, seconds);
    let oid = object_id(OBJ_COMMIT, commit);
    let all = m.writes_of(plan, m.head->0, seconds);
    let after = m.pushed(p).objects;
    let fresh = unseen(plan.list, set![oid]);
    lemma_unseen(plan.list, set![oid]);
    assert(all[plan.list.len() as int] == (OBJ_COMMIT, commit));
    assert(part_of(plan.list, all)) by {
        assert forall|i: int| 0 <= i < plan.list.len() implies all.contains(
            #[trigger] plan.list[i],
        ) by {
            assert(all[i] == plan.list[i]);
        }
    }
    assert(part_of(p.objects, all)) by {
        assert forall|i: int| 0 <= i < p.objects.len() implies all.contains(
            #[trigger] p.objects[i],
        ) by {
            if i < fresh.len() {
                assert(p.objects[i] == fresh[i]);
                assert(plan.list.contains(fresh[i]));
                let k = choose|k: int| 0 <= k < plan.list.len() && plan.list[k] == fresh[i];
                assert(all[k] == fresh[i]);
            }
        }
    }
    lemma_no_collision_part(m.objects, all, plan.list);
    lemma_kept_with(m.objects, p.objects, all);
    assert(p.objects[fresh.len() as int] == (OBJ_COMMIT, commit));
    assert(after.contains_key(oid) && after[oid] == commit);
    let big = with_empty_tree(all);
    assert forall|i: int| 0 <= i < plan.list.len() implies after.contains_key(
        object_id((#[trigger] plan.list[i]).0, plan.list[i].1),
    ) && after[object_id(plan.list[i].0, plan.list[i].1)] == plan.list[i].1 by {
        let x = object_id(plan.list[i].0, plan.list[i].1);
        assert(big[i] == plan.list[i]);
        if set![oid].contains(x) {
            assert(x == oid);
            assert(big[plan.list.len() as int] == (OBJ_COMMIT, commit));
            assert(big[i].1 == big[plan.list.len() as int].1);
        } else {
            assert(has_id(fresh, x));
            let k = choose|k: int|
                0 <= k < fresh.len() && object_id((#[trigger] fresh[k]).0, fresh[k].1) == x;
            assert(p.objects[k] == fresh[k]);
            assert(plan.list.contains(fresh[k]));
            let y = choose|y: int| 0 <= y < plan.list.len() && plan.list[y] == fresh[k];
            assert(big[y] == fresh[k]);
            assert(big[y].1 == big[i].1);
        }
    }
}

proof fn lemma_stays(m: RepoModel, after: RepoModel, names: Seq<Seq<u8>>)
    requires
        m.head_tree() is Ok,
        after.head_tree() is Ok,
        held_in(m.objects, after.objects),
        found(m.objects, m.head_tree()->Ok_0.1, names) is Ok ==> found(
            after.objects,
            after.head_tree()->Ok_0.1,
            names,
        ) == found(m.objects, m.head_tree()->Ok_0.1, names),
    ensures
        stays(m, after, names),
{
}

proof fn lemma_write_holds(
    m: RepoModel,
    raw: Seq<u8>,
    data: Seq<u8>,
    plan: PlanModel,
    seconds: int,
    p: PendingModel,
)
    requires
        m.pending(Ok(plan), seconds) == Ok::<PendingModel, RepoError>(p),
        settled(m, Ok(plan), seconds),
        commit_tree(m.commit_of(plan, m.head->0, seconds)) == Some(plan.root),
        file_lands(m, raw, data, plan),
        sound_at(m, components_of(raw)),
        plan.list.len() > 0,
        plan.list.last() == (OBJ_BLOB, data),
    ensures
        write_holds(m, m.pushed(p), components_of(raw), data),
{
    let names = components_of(raw);
    let tree = m.head_tree()->Ok_0.1;
    let blob = object_id(OBJ_BLOB, data);
    let before = m.objects.insert(blob, data);
    let after = m.pushed(p);
    let trees = plan.list.drop_last();
    lemma_pushed(m, plan, seconds, p);
    let big = with_empty_tree(plan.list);
    let n = plan.list.len() - 1;
    assert(big[n] == (OBJ_BLOB, data));
    assert(plan.list[n] == (OBJ_BLOB, data));
    assert(held_in(m.objects, before)) by {
        if m.objects.contains_key(blob) {
            assert(m.objects.contains_key(object_id(big[n].0, big[n].1)));
        }
    }
    lemma_sound_extends(m.objects, before, tree, names);
    lemma_own_modes();
    assert(change_sound(before, tree, names, Some((file_mode(), blob))));
    assert(has_all(trees, after.objects)) by {
        assert(plan.list =~= trees + seq![plan.list.last()]);
        lemma_has_all_parts(trees, seq![plan.list.last()], after.objects);
    }
    assert(carries(m.objects, trees, after.objects));
    assert(change_holds(
        m.objects,
        tree,
        after.objects,
        plan.root,
        names,
        Some((file_mode(), blob)),
    ));
    assert(after.objects.contains_key(blob) && after.objects[blob] == data);
    assert forall|other: Seq<Seq<u8>>| #[trigger]
        apart(names, other) && utf8_names(other) implies stays(m, after, other) by {
        if found(m.objects, tree, other) is Ok {
            assert(found(after.objects, plan.root, other) == found(m.objects, tree, other));
        }
        lemma_stays(m, after, other);
    }
}

proof fn lemma_removal_holds(
    m: RepoModel,
    raw: Seq<u8>,
    plan: PlanModel,
    seconds: int,
    p: PendingModel,
)
    requires
        m.pending(Ok(plan), seconds) == Ok::<PendingModel, RepoError>(p),
        settled(m, Ok(plan), seconds),
        commit_tree(m.commit_of(plan, m.head->0, seconds)) == Some(plan.root),
        removal_lands(m, raw, plan),
        sound_at(m, components_of(raw)),
    ensures
        removal_holds(m, m.pushed(p), components_of(raw)),
{
    let names = components_of(raw);
    let tree = m.head_tree()->Ok_0.1;
    let after = m.pushed(p);
    lemma_pushed(m, plan, seconds, p);
    assert(change_sound(m.objects, tree, names, None));
    assert(held_in(m.objects, m.objects));
    assert(change_holds(m.objects, tree, after.objects, plan.root, names, None));
    assert forall|other: Seq<Seq<u8>>| #[trigger]
        apart(names, other) && utf8_names(other) implies stays(m, after, other) by {
        if found(m.objects, tree, other) is Ok {
            assert(found(after.objects, plan.root, other) == found(m.objects, tree, other));
        }
        lemma_stays(m, after, other);
    }
}

proof fn lemma_transfer_holds(
    m: RepoModel,
    from: Seq<Seq<u8>>,
    to: Seq<Seq<u8>>,
    is_move: bool,
    plan: PlanModel,
    seconds: int,
    p: PendingModel,
)
    requires
        m.pending(Ok(plan), seconds) == Ok::<PendingModel, RepoError>(p),
        settled(m, Ok(plan), seconds),
        commit_tree(m.commit_of(plan, m.head->0, seconds)) == Some(plan.root),
        transfer_lands(m, from, to, is_move, plan),
        m.head_tree() matches Ok((_, tree)) && transfer_sound(m.objects, tree, from, to),
    ensures
        transfer_holds(m, m.pushed(p), from, to, is_move),
{
    let tree = m.head_tree()->Ok_0.1;
    let after = m.pushed(p);
    lemma_pushed(m, plan, seconds, p);
    assert(transferred(m.objects, tree, after.objects, plan.root, from, to, is_move));
    let t = found(m.objects, tree, from)->Ok_0->0;
    assert forall|rest: Seq<Seq<u8>>|
        m.file_at(#[trigger] (from + rest)) matches Ok(Some(data)) implies after.file_at(to + rest)
        == m.file_at(from + rest) by {
        if rest.len() == 0 {
            assert(from + rest =~= from);
            assert(to + rest =~= to);
        } else if tree_mode(t.0) {
            lemma_found_below(m.objects, tree, from, rest);
            lemma_found_below(after.objects, plan.root, to, rest);
            lemma_found_extends(m.objects, after.objects, t.1, rest);
        } else {
            lemma_found_behind_file(m.objects, tree, from, rest);
        }
    }
    assert forall|other: Seq<Seq<u8>>| #[trigger]
        apart(to, other) && (is_move ==> apart(from, other)) && utf8_names(other) implies stays(
        m,
        after,
        other,
    ) by {
        if found(m.objects, tree, other) is Ok {
            assert(found(after.objects, plan.root, other) == found(m.objects, tree, other));
        }
        lemma_stays(m, after, other);
    }
}

// ---------------------------------------------------------------------------
// Public changes
// ---------------------------------------------------------------------------

impl GitRepo {
    /// Prepares the commit that writes a file.
    ///
    /// Once it is pushed the file reads as `data`, and all else stays, as long as
    /// the trees on the way are sound and no id stands for two contents.
    pub fn write_path(&self, path: &RepoPath, data: &[u8], seconds: i64) -> (r: Result<PendingPush, RepoError>)
        ensures
            match r {
                Ok(p) => self@.pending(self@.write_plan(path@, data@), seconds as int) == Ok::<PendingModel, RepoError>(p@)
                    && plain_kinds(p@.objects) && pack_holds(p@) && (settled(
                    self@,
                    self@.write_plan(path@, data@),
                    seconds as int,
                ) && sound_at(self@, components_of(path@)) ==> write_holds(
                    self@,
                    self@.pushed(p@),
                    components_of(path@),
                    data@,
                )),
                Err(e) => self@.pending(self@.write_plan(path@, data@), seconds as int) == Err::<PendingModel, RepoError>(
                    e,
                ),
            },
    {
        let shown = match path_text(path) {
            Ok(s) => s,
            Err(e) => {
                return Err(e);
            },
        };
        let mut message: String = "update ".to_owned();
        message.append(shown.as_str());
        let plan = match self.plan_file(path, data, message) {
            Ok(plan) => plan,
            Err(e) => {
                return Err(e);
            },
        };
        let r = self.prepare(&plan, seconds);
        proof {
            if r is Ok && settled(self@, Ok(plan@), seconds as int) {
                let p = self@.pending(Ok(plan@), seconds as int)->Ok_0;
                if sound_at(self@, components_of(path@)) {
                    lemma_write_holds(self@, path@, data@, plan@, seconds as int, p);
                }
            }
        }
        r
    }

    /// Prepares the commit that deletes a file.
    ///
    /// Once it is pushed nothing is at the path, and all else stays.
    pub fn delete_path(&self, path: &RepoPath, seconds: i64) -> (r: Result<PendingPush, RepoError>)
        ensures
            match r {
                Ok(p) => self@.pending(self@.delete_plan(path@), seconds as int) == Ok::<PendingModel, RepoError>(p@)
                    && plain_kinds(p@.objects) && pack_holds(p@) && (settled(
                    self@,
                    self@.delete_plan(path@),
                    seconds as int,
                ) && sound_at(self@, components_of(path@)) ==> removal_holds(
                    self@,
                    self@.pushed(p@),
                    components_of(path@),
                )),
                Err(e) => self@.pending(self@.delete_plan(path@), seconds as int) == Err::<PendingModel, RepoError>(
                    e,
                ),
            },
    {
        let shown = match path_text(path) {
            Ok(s) => s,
            Err(e) => {
                return Err(e);
            },
        };
        let mut message: String = "delete ".to_owned();
        message.append(shown.as_str());
        let plan = match self.plan_removal(path, message) {
            Ok(plan) => plan,
            Err(e) => {
                return Err(e);
            },
        };
        let r = self.prepare(&plan, seconds);
        proof {
            if r is Ok && settled(self@, Ok(plan@), seconds as int) {
                let p = self@.pending(Ok(plan@), seconds as int)->Ok_0;
                if sound_at(self@, components_of(path@)) {
                    lemma_removal_holds(self@, path@, plan@, seconds as int, p);
                }
            }
        }
        r
    }

    /// Prepares the commit that deletes a file or a whole directory.
    ///
    /// Once it is pushed nothing is at the path, and all else stays.
    pub fn delete_subtree(&self, path: &RepoPath, seconds: i64) -> (r: Result<PendingPush, RepoError>)
        ensures
            match r {
                Ok(p) => self@.pending(self@.delete_subtree_plan(path@), seconds as int) == Ok::<PendingModel, RepoError>(p@)
                    && plain_kinds(p@.objects) && pack_holds(p@) && (settled(
                    self@,
                    self@.delete_subtree_plan(path@),
                    seconds as int,
                ) && sound_at(self@, components_of(path@)) ==> removal_holds(
                    self@,
                    self@.pushed(p@),
                    components_of(path@),
                )),
                Err(e) => self@.pending(self@.delete_subtree_plan(path@), seconds as int) == Err::<PendingModel, RepoError>(
                    e,
                ),
            },
    {
        let shown = match path_text(path) {
            Ok(s) => s,
            Err(e) => {
                return Err(e);
            },
        };
        let mut message: String = "delete ".to_owned();
        message.append(debug_path(shown.as_str()).as_str());
        let plan = match self.plan_removal(path, message) {
            Ok(plan) => plan,
            Err(e) => {
                return Err(e);
            },
        };
        let r = self.prepare(&plan, seconds);
        proof {
            if r is Ok && settled(self@, Ok(plan@), seconds as int) {
                let p = self@.pending(Ok(plan@), seconds as int)->Ok_0;
                if sound_at(self@, components_of(path@)) {
                    lemma_removal_holds(self@, path@, plan@, seconds as int, p);
                }
            }
        }
        r
    }

    /// Prepares the commit that makes a directory, with an empty marker file
    /// `.DAV` in it.
    ///
    /// Once it is pushed the marker is there, and all else stays.
    pub fn create_dir(&self, path: &RepoPath, seconds: i64) -> (r: Result<PendingPush, RepoError>)
        ensures
            match r {
                Ok(p) => self@.pending(self@.create_dir_plan(path@), seconds as int) == Ok::<PendingModel, RepoError>(p@)
                    && plain_kinds(p@.objects) && pack_holds(p@) && (settled(
                    self@,
                    self@.create_dir_plan(path@),
                    seconds as int,
                ) && sound_at(self@, components_of(marker_path(path@))) ==> write_holds(
                    self@,
                    self@.pushed(p@),
                    components_of(marker_path(path@)),
                    Seq::empty(),
                )),
                Err(e) => self@.pending(self@.create_dir_plan(path@), seconds as int) == Err::<PendingModel, RepoError>(
                    e,
                ),
            },
    {
        let shown = match path_text(path) {
            Ok(s) => s,
            Err(e) => {
                return Err(e);
            },
        };
        let mut message: String = "create dir ".to_owned();
        message.append(debug_path(shown.as_str()).as_str());
        let marker = path.join(".DAV".as_bytes());
        let empty: Vec<u8> = Vec::new();
        assert(empty@ =~= Seq::empty());
        let plan = match self.plan_file(&marker, empty.as_slice(), message) {
            Ok(plan) => plan,
            Err(e) => {
                return Err(e);
            },
        };
        let r = self.prepare(&plan, seconds);
        proof {
            if r is Ok && settled(self@, Ok(plan@), seconds as int) {
                let p = self@.pending(Ok(plan@), seconds as int)->Ok_0;
                if sound_at(self@, components_of(marker@)) {
                    lemma_write_holds(self@, marker@, Seq::empty(), plan@, seconds as int, p);
                }
            }
        }
        r
    }

    /// Prepares the commit that copies a file or a whole directory.
    ///
    /// Once it is pushed the destination has what the source has, and all else
    /// stays.
    pub fn copy_subtree(&self, src: &RepoPath, dest: &RepoPath, seconds: i64) -> (r: Result<PendingPush, RepoError>)
        ensures
            match r {
                Ok(p) => self@.pending(self@.transfer_plan(src@, dest@, false), seconds as int) == Ok::<PendingModel, RepoError>(p@)
                    && plain_kinds(p@.objects) && pack_holds(p@) && (settled(
                    self@,
                    self@.transfer_plan(src@, dest@, false),
                    seconds as int,
                ) && transfer_sound_at(self@, components_of(src@), components_of(dest@))
                    ==> transfer_holds(
                    self@,
                    self@.pushed(p@),
                    components_of(src@),
                    components_of(dest@),
                    false,
                )),
                Err(e) => self@.pending(self@.transfer_plan(src@, dest@, false), seconds as int) == Err::<PendingModel, RepoError>(
                    e,
                ),
            },
    {
        let plan = match self.plan_transfer(src, dest, false) {
            Ok(plan) => plan,
            Err(e) => {
                return Err(e);
            },
        };
        let r = self.prepare(&plan, seconds);
        proof {
            if r is Ok && settled(self@, Ok(plan@), seconds as int) {
                let p = self@.pending(Ok(plan@), seconds as int)->Ok_0;
                let from = components_of(src@);
                let to = components_of(dest@);
                if transfer_sound_at(self@, from, to) {
                    lemma_transfer_holds(self@, from, to, false, plan@, seconds as int, p);
                }
            }
        }
        r
    }

    /// Prepares the commit that moves a file or a whole directory.
    ///
    /// Once it is pushed the destination has what the source had, nothing is at
    /// the source, and all else stays.
    pub fn move_subtree(&self, src: &RepoPath, dest: &RepoPath, seconds: i64) -> (r: Result<PendingPush, RepoError>)
        ensures
            match r {
                Ok(p) => self@.pending(self@.transfer_plan(src@, dest@, true), seconds as int) == Ok::<PendingModel, RepoError>(p@)
                    && plain_kinds(p@.objects) && pack_holds(p@) && (settled(
                    self@,
                    self@.transfer_plan(src@, dest@, true),
                    seconds as int,
                ) && transfer_sound_at(self@, components_of(src@), components_of(dest@))
                    ==> transfer_holds(
                    self@,
                    self@.pushed(p@),
                    components_of(src@),
                    components_of(dest@),
                    true,
                )),
                Err(e) => self@.pending(self@.transfer_plan(src@, dest@, true), seconds as int) == Err::<PendingModel, RepoError>(
                    e,
                ),
            },
    {
        let plan = match self.plan_transfer(src, dest, true) {
            Ok(plan) => plan,
            Err(e) => {
                return Err(e);
            },
        };
        let r = self.prepare(&plan, seconds);
        proof {
            if r is Ok && settled(self@, Ok(plan@), seconds as int) {
                let p = self@.pending(Ok(plan@), seconds as int)->Ok_0;
                let from = components_of(src@);
                let to = components_of(dest@);
                if transfer_sound_at(self@, from, to) {
                    lemma_transfer_holds(self@, from, to, true, plan@, seconds as int, p);
                }
            }
        }
        r
    }

}

/// What copying or moving needs to come to what it should.
pub open spec fn transfer_sound_at(m: RepoModel, from: Seq<Seq<u8>>, to: Seq<Seq<u8>>) -> bool {
    m.head_tree() matches Ok((_, tree)) && transfer_sound(m.objects, tree, from, to)
}

// ---------------------------------------------------------------------------
// Listings
// ---------------------------------------------------------------------------

/// The items of a directory that can be listed whole: all can be read, and
/// have names of their own, which are UTF-8.
pub open spec fn listable(items: Seq<Option<EntryModel>>) -> bool {
    &&& plain_items(items)
    &&& forall|i: int|
        0 <= i < items.len() ==> #[trigger] items[i] is Some && valid_utf8(items[i]->0.name)
}

proof fn lemma_listed(objects: Map<Seq<u8>, Seq<u8>>, es: Seq<EntryModel>, i: int)
    requires
        forall|k: int| 0 <= k < es.len() ==> valid_utf8((#[trigger] es[k]).name),
        0 <= i < es.len(),
    ensures
        listed(objects, es).len() == es.len(),
        listed(objects, es)[i] == (
            decode_utf8(es[i].name),
            tree_mode(es[i].octal),
            if !tree_mode(es[i].octal) && objects.contains_key(es[i].oid) {
                objects[es[i].oid].len()
            } else {
                0
            },
        ),
    decreases es.len(),
{
    let front = es.drop_last();
    assert(valid_utf8(es[es.len() - 1].name));
    assert forall|k: int| 0 <= k < front.len() implies valid_utf8((#[trigger] front[k]).name) by {
        assert(front[k] == es[k]);
    }
    if front.len() > 0 {
        lemma_listed(objects, front, 0);
    } else {
        assert(listed(objects, front).len() == 0);
    }
    if i < front.len() {
        lemma_listed(objects, front, i);
        assert(front[i] == es[i]);
    }
}

/// A listing agrees with the lookups at the paths of the entries: it tells of
/// each, in the order of the tree, whether it is a directory, and how large
/// the file is where it is at hand.
pub proof fn lemma_listing_agrees(m: RepoModel, path: Seq<u8>, i: int)
    requires
        m.entry_at(components_of(path)) matches Ok(Some(t)) && (tree_mode(t.0)
            && m.objects.contains_key(t.1) && listable(tree_items(m.objects[t.1])) && 0 <= i
            < tree_items(m.objects[t.1]).len()),
    ensures
        ({
            let items = tree_items(m.objects[(m.entry_at(components_of(path))->Ok_0->0).1]);
            let e = items[i]->0;
            let at = components_of(joined(path, e.name));
            let list = m.listing_at(components_of(path))->Ok_0;
            &&& m.listing_at(components_of(path)) is Ok
            &&& list.len() == items.len()
            &&& list[i].0 == decode_utf8(e.name)
            &&& list[i].1 == m.directory_at(at)
            &&& list[i].1 ==> list[i].2 == 0
            &&& !list[i].1 && m.objects.contains_key(e.oid) ==> m.file_at(at) == Ok::<
                Option<Seq<u8>>,
                RepoError,
            >(Some(m.objects[e.oid])) && list[i].2 == m.objects[e.oid].len()
        }),
{
    let names = components_of(path);
    let oid = (m.entry_at(names)->Ok_0->0).1;
    let items = tree_items(m.objects[oid]);
    let es = readable(items);
    let tree = m.head_tree()->Ok_0.1;
    lemma_readable_present(items);
    assert(present(es).len() == es.len());
    assert forall|k: int| 0 <= k < es.len() implies valid_utf8((#[trigger] es[k]).name) by {
        assert(present(es)[k] == Some(es[k]));
        assert(items[k] is Some);
    }
    lemma_listed(m.objects, es, i);
    let e = es[i];
    assert(present(es)[i] == Some(e));
    assert(items[i] == Some(e));
    assert(distinct_names(es)) by {
        assert forall|a: int, b: int| 0 <= a < b < es.len() implies (#[trigger] es[a]).name != (
        #[trigger] es[b]).name by {
            assert(present(es)[a] == Some(es[a]) && present(es)[b] == Some(es[b]));
            assert(items[a]->0.name != items[b]->0.name);
        }
    }
    assert(es.contains(e));
    lemma_pick_is(es, e);
    lemma_first_named_present(es, e.name);
    lemma_joined_components(path, e.name);
    let rest = seq![e.name];
    assert(names + rest =~= names.push(e.name));
    lemma_found_below(m.objects, tree, names, rest);
}

/// A path that leads to nothing or to a file has an empty listing.
pub proof fn lemma_only_directories_are_listed(m: RepoModel, names: Seq<Seq<u8>>)
    requires
        m.entry_at(names) matches Ok(t) && (t matches Some(x) ==> !tree_mode(x.0)),
    ensures
        m.listing_at(names) == Ok::<Seq<(Seq<char>, bool, nat)>, RepoError>(Seq::empty()),
{
}

// ---------------------------------------------------------------------------
// Several changes at once
// ---------------------------------------------------------------------------

/// One of several changes: a file with its content is put at a path, or what
/// is there is taken out.
#[verifier::ext_equal]
pub struct EditModel {
    pub names: Seq<Seq<u8>>,
    pub data: Option<Seq<u8>>,
}

impl EditModel {
    /// What the path is to lead to.
    pub open spec fn target(self) -> Option<TargetModel> {
        match self.data {
            Some(data) => Some((file_mode(), object_id(OBJ_BLOB, data))),
            None => None,
        }
    }

    /// The file as an object.
    pub open spec fn blobs(self) -> Seq<(u8, Seq<u8>)> {
        match self.data {
            Some(data) => seq![(OBJ_BLOB, data)],
            None => Seq::empty(),
        }
    }
}

/// What a list of files to write is.
pub open spec fn write_models(writes: Seq<(RepoPath, Vec<u8>)>) -> Seq<EditModel> {
    writes.map_values(
        |w: (RepoPath, Vec<u8>)| EditModel { names: components_of(w.0@), data: Some(w.1@) },
    )
}

/// What a list of paths to delete is.
pub open spec fn delete_models(paths: Seq<RepoPath>) -> Seq<EditModel> {
    paths.map_values(|p: RepoPath| EditModel { names: components_of(p@), data: None })
}

/// Several changes: what is written first, and then what is deleted.
pub open spec fn changes_of(
    writes: Seq<(RepoPath, Vec<u8>)>,
    deletes: Seq<RepoPath>,
) -> Seq<EditModel> {
    write_models(writes) + delete_models(deletes)
}

/// Trees on the way to a commit: the objects, the root, and what was written.
#[verifier::ext_equal]
pub struct Progress {
    pub objects: Map<Seq<u8>, Seq<u8>>,
    pub root: Seq<u8>,
    pub list: Seq<(u8, Seq<u8>)>,
}

impl Progress {
    /// The objects that the trees are changed among.
    pub open spec fn before(self, c: EditModel) -> Map<Seq<u8>, Seq<u8>> {
        match c.data {
            Some(data) => self.objects.insert(object_id(OBJ_BLOB, data), data),
            None => self.objects,
        }
    }

    /// After one change.
    pub open spec fn stepped(self, c: EditModel) -> Result<Progress, RepoError> {
        let (objects, r) = modified(self.before(c), self.root, c.names, c.target());
        match r {
            Err(e) => Err(RepoError::Object(e)),
            Ok((root, list)) => Ok(Progress { objects, root, list: self.list + list + c.blobs() }),
        }
    }

    /// After several changes, one after the other.
    pub open spec fn after(self, cs: Seq<EditModel>) -> Result<Progress, RepoError>
        decreases cs.len(),
    {
        if cs.len() == 0 {
            Ok(self)
        } else {
            match self.after(cs.drop_last()) {
                Err(e) => Err(e),
                Ok(now) => now.stepped(cs.last()),
            }
        }
    }

    spec fn step_lasts(self, c: EditModel) -> bool {
        modified(self.before(c), self.root, c.names, c.target()).1 matches Ok((root, list))
            && change_lasts(self.before(c), self.root, root, list, c.names, c.target())
    }

    spec fn all_last(self, cs: Seq<EditModel>) -> bool
        decreases cs.len(),
    {
        cs.len() > 0 ==> self.all_last(cs.drop_last()) && (self.after(cs.drop_last()) matches Ok(
            now,
        ) && now.step_lasts(cs.last()))
    }
}

impl RepoModel {
    /// What several changes begin with.
    pub open spec fn progress(self) -> Progress {
        Progress {
            objects: self.objects,
            root: self.head_tree()->Ok_0.1,
            list: Seq::empty(),
        }
    }

    /// The plan that makes several changes.
    pub open spec fn batch_plan(self, cs: Seq<EditModel>, message: Seq<char>) -> Result<
        PlanModel,
        RepoError,
    > {
        match self.head_tree() {
            Err(e) => Err(e),
            Ok(_) => match self.progress().after(cs) {
                Err(e) => Err(e),
                Ok(end) => Ok(PlanModel { root: end.root, list: end.list, message }),
            },
        }
    }
}

proof fn lemma_after_fails(p: Progress, cs: Seq<EditModel>, k: int)
    requires
        0 <= k <= cs.len(),
        p.after(cs.take(k)) is Err,
    ensures
        p.after(cs) == p.after(cs.take(k)),
    decreases cs.len(),
{
    if k < cs.len() {
        assert(cs.drop_last().take(k) =~= cs.take(k));
        lemma_after_fails(p, cs.drop_last(), k);
    } else {
        assert(cs.take(k) =~= cs);
    }
}

/// The changes from `from` up to `to` part ways with a path.
pub open spec fn parted(
    cs: Seq<EditModel>,
    from: int,
    to: int,
    names: Seq<Seq<u8>>,
) -> bool {
    forall|j: int| from <= j < to ==> apart((#[trigger] cs[j]).names, names)
}

/// What several changes need to come to what they should: sound trees on all
/// paths, and no path that goes on behind one that was changed before.
pub open spec fn batch_sound_at(m: RepoModel, cs: Seq<EditModel>) -> bool {
    &&& forall|i: int| 0 <= i < cs.len() ==> sound_at(m, (#[trigger] cs[i]).names)
    &&& in_turn(cs)
}

/// No path goes on behind one that was changed before.
pub open spec fn in_turn(cs: Seq<EditModel>) -> bool {
    forall|i: int, j: int|
        0 <= i < j < cs.len() ==> !((#[trigger] cs[j]).names.len() > (#[trigger] cs[i]).names.len()
            && under(cs[j].names, cs[i].names))
}

/// What was written is read, where no later change meets its path; what was
/// deleted is gone; and all that parts ways with every change stays.
pub open spec fn batch_holds(m: RepoModel, after: RepoModel, cs: Seq<EditModel>) -> bool {
    &&& forall|i: int|
        0 <= i < cs.len() && (#[trigger] cs[i]).data is Some && parted(
            cs,
            i + 1,
            cs.len() as int,
            cs[i].names,
        ) ==> after.file_at(cs[i].names) == Ok::<Option<Seq<u8>>, RepoError>(cs[i].data)
    &&& forall|i: int|
        0 <= i < cs.len() && (#[trigger] cs[i]).data is None ==> after.entry_at(cs[i].names)
            == Ok::<Option<TargetModel>, RepoError>(None)
    &&& forall|other: Seq<Seq<u8>>| #[trigger]
        parted(cs, 0, cs.len() as int, other) && utf8_names(other) ==> stays(m, after, other)
}

proof fn lemma_modified_utf8(
    objects: Map<Seq<u8>, Seq<u8>>,
    oid: Seq<u8>,
    names: Seq<Seq<u8>>,
    target: Option<TargetModel>,
)
    requires
        modified(objects, oid, names, target).1 is Ok,
    ensures
        utf8_names(names),
    decreases names.len(),
{
    let es = readable(tree_items(objects[oid]));
    let rest = names.drop_first();
    if names.len() > 1 {
        let (start, all) = with_directory(objects, es, names[0]);
        lemma_modified_utf8(start, last_named(all, names[0])->0, rest, target);
    }
    assert forall|i: int| 0 <= i < names.len() implies valid_utf8(#[trigger] names[i]) by {
        if i > 0 {
            assert(rest[i - 1] == names[i]);
        }
    }
}

proof fn lemma_sound_found(objects: Map<Seq<u8>, Seq<u8>>, oid: Seq<u8>, names: Seq<Seq<u8>>)
    requires
        sound_path(objects, oid, names),
        utf8_names(names),
    ensures
        found(objects, oid, names) is Ok,
    decreases names.len(),
{
    if names.len() > 0 {
        let items = tree_items(objects[oid]);
        let rest = names.drop_first();
        assert(valid_utf8(names[0]));
        lemma_readable_present(items);
        lemma_first_named_present(readable(items), names[0]);
        match first_named(items, names[0]) {
            Ok(Some(e)) => {
                if names.len() > 1 {
                    assert forall|i: int| 0 <= i < rest.len() implies valid_utf8(
                        #[trigger] rest[i],
                    ) by {
                        assert(rest[i] == names[i + 1]);
                    }
                    lemma_sound_found(objects, e.oid, rest);
                }
            },
            _ => {},
        }
    }
}

proof fn lemma_sound_above(
    objects: Map<Seq<u8>, Seq<u8>>,
    oid: Seq<u8>,
    names: Seq<Seq<u8>>,
    upper: Seq<Seq<u8>>,
)
    requires
        sound_path(objects, oid, names),
        under(names, upper),
    ensures
        sound_path(objects, oid, upper),
    decreases upper.len(),
{
    if upper.len() > 0 {
        assert(names.take(upper.len() as int)[0] == names[0]);
        if upper.len() > 1 {
            match first_named(tree_items(objects[oid]), names[0]) {
                Ok(Some(e)) => {
                    let rest = names.drop_first();
                    assert(rest.take(upper.len() - 1) =~= names.take(
                        upper.len() as int,
                    ).drop_first());
                    lemma_sound_above(objects, e.oid, rest, upper.drop_first());
                },
                _ => {},
            }
        }
    }
}

/// Paths that do not part ways are one below the other.
proof fn lemma_not_apart(a: Seq<Seq<u8>>, b: Seq<Seq<u8>>)
    requires
        !apart(a, b),
    ensures
        a.len() <= b.len() ==> under(b, a),
        b.len() <= a.len() ==> under(a, b),
{
    assert forall|i: int| 0 <= i < a.len() && i < b.len() implies a[i] == b[i] by {
        if a[i] != b[i] {
            assert(apart(a, b));
        }
    }
    if a.len() <= b.len() {
        assert(b.take(a.len() as int) =~= a);
    }
    if b.len() <= a.len() {
        assert(a.take(b.len() as int) =~= b);
    }
}

proof fn lemma_among_part(
    part: Seq<(u8, Seq<u8>)>,
    all: Seq<(u8, Seq<u8>)>,
    k: Seq<u8>,
    content: Seq<u8>,
)
    requires
        part_of(part, all),
        among(with_empty_tree(part), k, content),
    ensures
        among(with_empty_tree(all), k, content),
{
    let few = with_empty_tree(part);
    let big = with_empty_tree(all);
    let i = choose|i: int|
        0 <= i < few.len() && object_id((#[trigger] few[i]).0, few[i].1) == k && few[i].1
            == content;
    if i < part.len() {
        assert(few[i] == part[i]);
        assert(all.contains(part[i]));
        let x = choose|x: int| 0 <= x < all.len() && all[x] == part[i];
        assert(big[x] == few[i]);
    } else {
        assert(big[all.len() as int] == few[i]);
    }
}

spec fn in_store(objects: Map<Seq<u8>, Seq<u8>>, now: Progress) -> bool {
    &&& held_in(objects, now.objects)
    &&& accounted(objects, now.objects, now.list)
    &&& has_all(now.list, now.objects)
}

/// A change keeps what was there, and has what it wrote.
proof fn lemma_step_stores(
    objects: Map<Seq<u8>, Seq<u8>>,
    now: Progress,
    c: EditModel,
    all: Seq<(u8, Seq<u8>)>,
)
    requires
        no_collision(objects, all),
        in_store(objects, now),
        now.stepped(c) is Ok,
        part_of(now.stepped(c)->Ok_0.list, all),
    ensures
        part_of(now.list, all),
        in_store(objects, now.stepped(c)->Ok_0),
        held_in(now.objects, now.before(c)),
        held_in(now.objects, now.stepped(c)->Ok_0.objects),
        has_all(
            modified(now.before(c), now.root, c.names, c.target()).1->Ok_0.1,
            now.stepped(c)->Ok_0.objects,
        ),
        c.data matches Some(data) ==> now.stepped(c)->Ok_0.list.contains((OBJ_BLOB, data)),
{
    let next = now.stepped(c)->Ok_0;
    let before = now.before(c);
    let (root, made) = modified(before, now.root, c.names, c.target()).1->Ok_0;
    lemma_part_front(now.list + made, c.blobs());
    lemma_part_front(now.list, made);
    assert(part_of(now.list, all) && part_of(made, all) && part_of(c.blobs(), all)) by {
        assert forall|i: int| 0 <= i < now.list.len() implies all.contains(
            #[trigger] now.list[i],
        ) by {
            assert(next.list[i] == now.list[i]);
        }
        assert forall|i: int| 0 <= i < made.len() implies all.contains(#[trigger] made[i]) by {
            assert(next.list[now.list.len() + i] == made[i]);
        }
        assert forall|i: int| 0 <= i < c.blobs().len() implies all.contains(
            #[trigger] c.blobs()[i],
        ) by {
            assert(next.list[now.list.len() + made.len() + i] == c.blobs()[i]);
        }
    }
    let some = now.list + c.blobs();
    lemma_part_front(now.list, c.blobs());
    assert(part_of(some, all)) by {
        assert forall|i: int| 0 <= i < some.len() implies all.contains(#[trigger] some[i]) by {
            if i < now.list.len() {
                assert(some[i] == now.list[i]);
            } else {
                assert(some[i] == c.blobs()[i - now.list.len()]);
            }
        }
    }
    lemma_no_collision_after(objects, all, now.list, now.objects);
    let big = with_empty_tree(all);
    assert(held_in(now.objects, before)) by {
        if c.data is Some {
            let blob = (OBJ_BLOB, c.data->0);
            assert(c.blobs()[0] == blob);
            let x = choose|x: int| 0 <= x < all.len() && all[x] == blob;
            assert(big[x] == blob);
        }
    }
    assert(accounted(objects, before, some)) by {
        assert forall|k: Seq<u8>| #[trigger] before.contains_key(k) implies (objects.contains_key(k)
            && objects[k] == before[k]) || among(with_empty_tree(some), k, before[k]) by {
            if c.data is Some && k == object_id(OBJ_BLOB, c.data->0) {
                let few = with_empty_tree(some);
                assert(few[now.list.len() as int] == (OBJ_BLOB, c.data->0));
            } else {
                assert(now.objects.contains_key(k));
                if !(objects.contains_key(k) && objects[k] == before[k]) {
                    lemma_among_part(now.list, some, k, before[k]);
                }
            }
        }
    }
    lemma_no_collision_after(objects, all, some, before);
    lemma_no_collision_part(before, all, made);
    lemma_modified_keeps(before, now.root, c.names, c.target());
    lemma_held_chain(now.objects, before, next.objects);
    lemma_held_chain(objects, now.objects, next.objects);
    assert(accounted(objects, next.objects, next.list)) by {
        assert(part_of(some, next.list)) by {
            assert forall|i: int| 0 <= i < some.len() implies next.list.contains(
                #[trigger] some[i],
            ) by {
                if i < now.list.len() {
                    assert(next.list[i] == some[i]);
                } else {
                    assert(next.list[i + made.len()] == some[i]);
                }
            }
        }
        assert(part_of(made, next.list)) by {
            assert forall|i: int| 0 <= i < made.len() implies next.list.contains(
                #[trigger] made[i],
            ) by {
                assert(next.list[now.list.len() + i] == made[i]);
            }
        }
        assert forall|k: Seq<u8>| #[trigger] next.objects.contains_key(k) implies (
        objects.contains_key(k) && objects[k] == next.objects[k]) || among(
            with_empty_tree(next.list),
            k,
            next.objects[k],
        ) by {
            if before.contains_key(k) && before[k] == next.objects[k] {
                if !(objects.contains_key(k) && objects[k] == before[k]) {
                    lemma_among_part(some, next.list, k, before[k]);
                }
            } else {
                lemma_among_part(made, next.list, k, next.objects[k]);
            }
        }
    }
    assert(has_all(next.list, next.objects)) by {
        assert forall|i: int| 0 <= i < next.list.len() implies next.objects.contains_key(
            object_id((#[trigger] next.list[i]).0, next.list[i].1),
        ) && next.objects[object_id(next.list[i].0, next.list[i].1)] == next.list[i].1 by {
            let n = now.list.len() as int;
            if i < n {
                assert(next.list[i] == now.list[i]);
                assert(now.objects.contains_key(object_id(now.list[i].0, now.list[i].1)));
            } else if i < n + made.len() {
                assert(next.list[i] == made[i - n]);
            } else {
                assert(next.list[i] == c.blobs()[i - n - made.len()]);
                assert(before.contains_key(object_id(OBJ_BLOB, c.data->0)));
            }
        }
    }
    if c.data is Some {
        assert(next.list[now.list.len() as int + made.len()] == (OBJ_BLOB, c.data->0));
    }
}

spec fn so_far(
    objects: Map<Seq<u8>, Seq<u8>>,
    tree: Seq<u8>,
    cs: Seq<EditModel>,
    k: int,
    now: Progress,
    known: Map<Seq<u8>, Seq<u8>>,
) -> bool {
    &&& forall|j: int|
        k <= j < cs.len() ==> sound_path(known, now.root, (#[trigger] cs[j]).names)
    &&& forall|other: Seq<Seq<u8>>|
        utf8_names(other) && parted(cs, 0, k, other) && found(objects, tree, other) is Ok
            ==> #[trigger] found(known, now.root, other) == found(objects, tree, other)
    &&& forall|i: int|
        0 <= i < k && (#[trigger] cs[i]).data is Some ==> now.list.contains(
            (OBJ_BLOB, cs[i].data->0),
        ) && (parted(cs, i + 1, k, cs[i].names) ==> found(known, now.root, cs[i].names) == Ok::<
            Option<TargetModel>,
            ObjectError,
        >(cs[i].target()))
    &&& forall|i: int|
        0 <= i < k && (#[trigger] cs[i]).data is None ==> found(known, now.root, cs[i].names)
            == Ok::<Option<TargetModel>, ObjectError>(None)
}

spec fn batch_fits(
    objects: Map<Seq<u8>, Seq<u8>>,
    tree: Seq<u8>,
    cs: Seq<EditModel>,
) -> bool {
    &&& forall|i: int| 0 <= i < cs.len() ==> sound_path(objects, tree, (#[trigger] cs[i]).names)
    &&& forall|i: int| 0 <= i < cs.len() ==> utf8_names((#[trigger] cs[i]).names)
    &&& in_turn(cs)
    &&& forall|i: int, j: int|
        0 <= i < j < cs.len() && (#[trigger] cs[i]).data is None ==> (#[trigger] cs[j]).data is None
}

proof fn lemma_so_far_step(
    objects: Map<Seq<u8>, Seq<u8>>,
    tree: Seq<u8>,
    cs: Seq<EditModel>,
    k: int,
    now: Progress,
    next: Progress,
    known: Map<Seq<u8>, Seq<u8>>,
    wider: Map<Seq<u8>, Seq<u8>>,
)
    requires
        batch_fits(objects, tree, cs),
        0 <= k < cs.len(),
        so_far(objects, tree, cs, k, now, known),
        change_holds(known, now.root, wider, next.root, cs[k].names, cs[k].target()),
        part_of(now.list, next.list),
        cs[k].data matches Some(data) ==> next.list.contains((OBJ_BLOB, data)),
    ensures
        so_far(objects, tree, cs, k + 1, next, wider),
{
    let c = cs[k];
    assert forall|j: int| k + 1 <= j < cs.len() implies sound_path(
        wider,
        next.root,
        (#[trigger] cs[j]).names,
    ) by {
        let q = cs[j].names;
        assert(sound_path(known, now.root, q));
        if apart(c.names, q) {
            lemma_sound_found(known, now.root, q);
            assert(found(wider, next.root, q) == found(known, now.root, q));
        } else {
            lemma_not_apart(c.names, q);
            lemma_sound_above(wider, next.root, c.names, q);
        }
    }
    assert forall|other: Seq<Seq<u8>>|
        utf8_names(other) && parted(cs, 0, k + 1, other) && found(objects, tree, other) is Ok
            implies #[trigger] found(wider, next.root, other) == found(objects, tree, other) by {
        assert(parted(cs, 0, k, other));
        assert(apart(cs[k].names, other));
        assert(found(known, now.root, other) == found(objects, tree, other));
    }
    assert forall|i: int| 0 <= i < k + 1 && (#[trigger] cs[i]).data is Some implies next.list.contains(
        (OBJ_BLOB, cs[i].data->0),
    ) && (parted(cs, i + 1, k + 1, cs[i].names) ==> found(wider, next.root, cs[i].names) == Ok::<
        Option<TargetModel>,
        ObjectError,
    >(cs[i].target())) by {
        if i < k {
            let blob = (OBJ_BLOB, cs[i].data->0);
            assert(now.list.contains(blob));
            let x = choose|x: int| 0 <= x < now.list.len() && now.list[x] == blob;
            assert(next.list.contains(now.list[x]));
            if parted(cs, i + 1, k + 1, cs[i].names) {
                assert(parted(cs, i + 1, k, cs[i].names));
                assert(apart(cs[k].names, cs[i].names));
                assert(found(known, now.root, cs[i].names) == Ok::<
                    Option<TargetModel>,
                    ObjectError,
                >(cs[i].target()));
            }
        }
    }
    assert forall|i: int| 0 <= i < k + 1 && (#[trigger] cs[i]).data is None implies found(
        wider,
        next.root,
        cs[i].names,
    ) == Ok::<Option<TargetModel>, ObjectError>(None) by {
        if i < k {
            assert(found(known, now.root, cs[i].names) == Ok::<
                Option<TargetModel>,
                ObjectError,
            >(None));
            if !apart(c.names, cs[i].names) {
                lemma_not_apart(c.names, cs[i].names);
                assert(c.data is None);
                lemma_nothing_below(wider, next.root, c.names, cs[i].names);
            }
        }
    }
}

proof fn lemma_so_far(
    m: Progress,
    cs: Seq<EditModel>,
    k: int,
    all: Seq<(u8, Seq<u8>)>,
    end: Map<Seq<u8>, Seq<u8>>,
)
    requires
        m.list.len() == 0,
        batch_fits(m.objects, m.root, cs),
        0 <= k <= cs.len(),
        m.after(cs.take(k)) is Ok,
        m.all_last(cs.take(k)),
        no_collision(m.objects, all),
        part_of(m.after(cs.take(k))->Ok_0.list, all),
        carries(m.objects, all, end),
    ensures
        ({
            let now = m.after(cs.take(k))->Ok_0;
            &&& in_store(m.objects, now)
            &&& so_far(m.objects, m.root, cs, k, now, shared(now.objects, end))
        }),
    decreases k,
{
    if k == 0 {
        assert(cs.take(0) =~= Seq::empty());
        let known = shared(m.objects, end);
        assert(known =~= m.objects);
    } else {
        assert(cs.take(k).drop_last() =~= cs.take(k - 1));
        assert(cs.take(k).last() == cs[k - 1]);
        let c = cs[k - 1];
        let now = m.after(cs.take(k - 1))->Ok_0;
        let next = m.after(cs.take(k))->Ok_0;
        assert(now.stepped(c) == Ok::<Progress, RepoError>(next));
        assert(part_of(now.list, all)) by {
            assert forall|i: int| 0 <= i < now.list.len() implies all.contains(
                #[trigger] now.list[i],
            ) by {
                assert(next.list[i] == now.list[i]);
            }
        }
        lemma_so_far(m, cs, k - 1, all, end);
        lemma_step_stores(m.objects, now, c, all);
        let (root, made) = modified(now.before(c), now.root, c.names, c.target()).1->Ok_0;
        let known = shared(now.objects, end);
        let wider = shared(next.objects, end);
        assert(held_in(known, now.before(c)));
        assert(sound_path(known, now.root, cs[k - 1].names));
        lemma_sound_extends(known, now.before(c), now.root, c.names);
        lemma_own_modes();
        assert(change_sound(now.before(c), now.root, c.names, c.target()));
        assert(carries(known, made, wider)) by {
            assert(held_in(known, wider));
            assert forall|i: int| 0 <= i < made.len() implies wider.contains_key(
                object_id((#[trigger] made[i]).0, made[i].1),
            ) && wider[object_id(made[i].0, made[i].1)] == made[i].1 by {
                assert(next.objects.contains_key(object_id(made[i].0, made[i].1)));
                assert(next.list[now.list.len() + i] == made[i]);
                assert(all.contains(next.list[now.list.len() + i]));
                let x = choose|x: int| 0 <= x < all.len() && all[x] == made[i];
                assert(end.contains_key(object_id(all[x].0, all[x].1)));
            }
        }
        assert(change_holds(known, now.root, wider, root, c.names, c.target()));
        assert(part_of(now.list, next.list)) by {
            assert forall|i: int| 0 <= i < now.list.len() implies next.list.contains(
                #[trigger] now.list[i],
            ) by {
                assert(next.list[i] == now.list[i]);
            }
        }
        lemma_so_far_step(m.objects, m.root, cs, k - 1, now, next, known, wider);
    }
}

proof fn lemma_all_utf8(m: Progress, cs: Seq<EditModel>, k: int, i: int)
    requires
        0 <= i < k <= cs.len(),
        m.after(cs.take(k)) is Ok,
    ensures
        utf8_names(cs[i].names),
    decreases k,
{
    assert(cs.take(k).drop_last() =~= cs.take(k - 1));
    assert(cs.take(k).last() == cs[k - 1]);
    let now = m.after(cs.take(k - 1))->Ok_0;
    if i == k - 1 {
        lemma_modified_utf8(now.before(cs[i]), now.root, cs[i].names, cs[i].target());
    } else {
        lemma_all_utf8(m, cs, k - 1, i);
    }
}

proof fn lemma_batch_holds(
    m: RepoModel,
    cs: Seq<EditModel>,
    plan: PlanModel,
    seconds: int,
    p: PendingModel,
)
    requires
        m.pending(Ok(plan), seconds) == Ok::<PendingModel, RepoError>(p),
        settled(m, Ok(plan), seconds),
        commit_tree(m.commit_of(plan, m.head->0, seconds)) == Some(plan.root),
        m.head_tree() is Ok,
        m.progress().after(cs) matches Ok(end) && end.root == plan.root && end.list == plan.list,
        m.progress().all_last(cs),
        batch_sound_at(m, cs),
        forall|i: int, j: int|
            0 <= i < j < cs.len() && (#[trigger] cs[i]).data is None ==> (
            #[trigger] cs[j]).data is None,
    ensures
        batch_holds(m, m.pushed(p), cs),
{
    let n = cs.len() as int;
    let start = m.progress();
    let after = m.pushed(p);
    lemma_pushed(m, plan, seconds, p);
    assert(cs.take(n) =~= cs);
    let now = start.after(cs)->Ok_0;
    assert(batch_fits(m.objects, start.root, cs)) by {
        assert forall|i: int| 0 <= i < cs.len() implies utf8_names((#[trigger] cs[i]).names) by {
            lemma_all_utf8(start, cs, n, i);
        }
        assert forall|i: int| 0 <= i < cs.len() implies sound_path(
            m.objects,
            start.root,
            (#[trigger] cs[i]).names,
        ) by {
            assert(sound_at(m, cs[i].names));
        }
    }
    assert(part_of(plan.list, plan.list));
    lemma_so_far(start, cs, n, plan.list, after.objects);
    let known = shared(now.objects, after.objects);
    assert forall|i: int|
        0 <= i < cs.len() && (#[trigger] cs[i]).data is Some && parted(cs, i + 1, n, cs[i].names)
            implies after.file_at(cs[i].names) == Ok::<Option<Seq<u8>>, RepoError>(cs[i].data) by {
        lemma_found_extends(known, after.objects, plan.root, cs[i].names);
        lemma_own_modes();
        let blob = (OBJ_BLOB, cs[i].data->0);
        assert(now.list.contains(blob));
        let x = choose|x: int| 0 <= x < now.list.len() && now.list[x] == blob;
        assert(after.objects.contains_key(object_id(now.list[x].0, now.list[x].1)));
    }
    assert forall|i: int| 0 <= i < cs.len() && (#[trigger] cs[i]).data is None implies after.entry_at(
        cs[i].names,
    ) == Ok::<Option<TargetModel>, RepoError>(None) by {
        lemma_found_extends(known, after.objects, plan.root, cs[i].names);
    }
    assert forall|other: Seq<Seq<u8>>| #[trigger]
        parted(cs, 0, n, other) && utf8_names(other) implies stays(m, after, other) by {
        if found(m.objects, start.root, other) is Ok {
            assert(found(known, plan.root, other) == found(m.objects, start.root, other));
            lemma_found_extends(known, after.objects, plan.root, other);
        }
        lemma_stays(m, after, other);
    }
}

impl GitRepo {
    fn plan_batch(
        &self,
        writes: &[(RepoPath, Vec<u8>)],
        deletes: &[RepoPath],
        message: String,
    ) -> (r: Result<Plan, RepoError>)
        ensures
            match r {
                Ok(plan) => self@.batch_plan(changes_of(writes@, deletes@), message@) == Ok::<
                    PlanModel,
                    RepoError,
                >(plan@) && plain_kinds(plan@.list) && self@.progress().all_last(
                    changes_of(writes@, deletes@),
                ),
                Err(e) => self@.batch_plan(changes_of(writes@, deletes@), message@) == Err::<
                    PlanModel,
                    RepoError,
                >(e),
            },
    {
        let tree = match self.head_and_tree() {
            Ok((_, tree)) => tree,
            Err(e) => {
                return Err(e);
            },
        };
        let mut objects = self.objects.duplicate();
        let mut root: ObjectId = tree;
        let mut list: ObjectList = Vec::new();
        let ghost start = self@.progress();
        let ghost cs = changes_of(writes@, deletes@);
        assert(list_model(list@) =~= Seq::empty());
        let mut i: usize = 0;
        assert(cs.take(0) =~= Seq::empty());
        while i < writes.len()
            invariant
                i <= writes@.len(),
                cs == changes_of(writes@, deletes@),
                start.after(cs.take(i as int)) == Ok::<Progress, RepoError>(
                    (Progress { objects: objects@, root: root@, list: list_model(list@) }),
                ),
                start.all_last(cs.take(i as int)),
                plain_kinds(list_model(list@)),
                self@.head_tree() is Ok,
                start == self@.progress(),
            decreases writes@.len() - i,
        {
            assert(cs.take(i + 1).drop_last() =~= cs.take(i as int));
            assert(cs.take(i + 1).last() == cs[i as int]);
            assert(cs[i as int] == write_models(writes@)[i as int]);
            let path = &writes[i].0;
            let data = writes[i].1.as_slice();
            let blob = hash_object(OBJ_BLOB, data);
            objects.insert(&blob, copy_bytes(data));
            proof {
                lemma_own_modes();
                lemma_modified_kinds(
                    objects@,
                    root@,
                    components_of(path@),
                    Some((file_mode(), blob@)),
                );
            }
            match modify_tree_entry(&mut objects, &root, path, Some((EntryMode::blob(), blob))) {
                Ok((r, trees)) => {
                    let ghost before = list_model(list@);
                    let ghost made = list_model(trees@);
                    root = r;
                    list = concat_list(list, &trees);
                    let content = copy_bytes(data);
                    list.push((OBJ_BLOB, content));
                    proof {
                        lemma_plain_parts(before, made);
                        assert(list_model(list@) =~= before + made + seq![(OBJ_BLOB, data@)]);
                    }
                },
                Err(e) => {
                    proof {
                        lemma_after_fails(start, cs, i + 1);
                    }
                    return Err(RepoError::Object(e));
                },
            }
            i += 1;
        }
        let mut k: usize = 0;
        let ghost n = writes@.len() as int;
        while k < deletes.len()
            invariant
                k <= deletes@.len(),
                n == writes@.len(),
                cs == changes_of(writes@, deletes@),
                start.after(cs.take(n + k)) == Ok::<Progress, RepoError>(
                    (Progress { objects: objects@, root: root@, list: list_model(list@) }),
                ),
                start.all_last(cs.take(n + k)),
                plain_kinds(list_model(list@)),
                self@.head_tree() is Ok,
                start == self@.progress(),
            decreases deletes@.len() - k,
        {
            assert(cs.take(n + k + 1).drop_last() =~= cs.take(n + k));
            assert(cs.take(n + k + 1).last() == cs[n + k]);
            assert(cs[n + k] == delete_models(deletes@)[k as int]);
            proof {
                lemma_modified_kinds(objects@, root@, components_of(deletes@[k as int]@), None);
            }
            match remove_tree_entry(&mut objects, &root, &deletes[k]) {
                Ok((r, trees)) => {
                    let ghost before = list_model(list@);
                    let ghost made = list_model(trees@);
                    root = r;
                    list = concat_list(list, &trees);
                    proof {
                        lemma_plain_parts(before, made);
                        assert(list_model(list@) =~= before + made + Seq::empty());
                    }
                },
                Err(e) => {
                    proof {
                        lemma_after_fails(start, cs, n + k + 1);
                    }
                    return Err(RepoError::Object(e));
                },
            }
            k += 1;
        }
        assert(cs.take(n + k) =~= cs);
        let plan = Plan { root, list, message };
        assert(plan@ =~= self@.batch_plan(cs, message@)->Ok_0);
        Ok(plan)
    }

    /// Prepares the commit that makes several changes: what is written first,
    /// and then what is deleted.
    ///
    /// Once it is pushed the files that were written are read, what was deleted
    /// is gone, and all else stays.
    pub fn commit_changes(
        &self,
        writes: &[(RepoPath, Vec<u8>)],
        deletes: &[RepoPath],
        message: &str,
        seconds: i64,
    ) -> (r: Result<PendingPush, RepoError>)
        ensures
            ({
                let cs = changes_of(writes@, deletes@);
                let plan = self@.batch_plan(cs, message@);
                match r {
                    Ok(p) => self@.pending(plan, seconds as int) == Ok::<PendingModel, RepoError>(
                        p@,
                    ) && plain_kinds(p@.objects) && pack_holds(p@) && (settled(
                        self@,
                        plan,
                        seconds as int,
                    ) && batch_sound_at(self@, cs) ==> batch_holds(self@, self@.pushed(p@), cs)),
                    Err(e) => self@.pending(plan, seconds as int) == Err::<
                        PendingModel,
                        RepoError,
                    >(e),
                }
            }),
    {
        let plan = match self.plan_batch(writes, deletes, message.to_owned()) {
            Ok(plan) => plan,
            Err(e) => {
                return Err(e);
            },
        };
        let r = self.prepare(&plan, seconds);
        proof {
            let cs = changes_of(writes@, deletes@);
            if r is Ok && settled(self@, Ok(plan@), seconds as int) && batch_sound_at(self@, cs) {
                let n = writes@.len() as int;
                assert forall|i: int, j: int|
                    0 <= i < j < cs.len() && (#[trigger] cs[i]).data is None implies (
                #[trigger] cs[j]).data is None by {
                    if i < n {
                        assert(cs[i] == write_models(writes@)[i]);
                    } else {
                        assert(cs[j] == delete_models(deletes@)[j - n]);
                    }
                }
                let p = self@.pending(Ok(plan@), seconds as int)->Ok_0;
                lemma_batch_holds(self@, cs, plan@, seconds as int, p);
            }
        }
        r
    }
}

// ---------------------------------------------------------------------------
// Attempts
// ---------------------------------------------------------------------------

/// What to do after a commit was pushed.
#[derive(Clone, Copy, PartialEq, Eq, Structural, Debug)]
pub enum PushStep {
    /// The change is made.
    Done,
    /// The branch has moved on meanwhile: fetch and prepare once more, as the
    /// attempt of this number.
    Again(u32),
    /// It has been tried often enough.
    GiveUp,
}

/// What to do after the attempt of this number, counted from one, was taken or
/// not: there are three at most.
pub open spec fn push_step(attempt: u32, pushed: bool) -> PushStep {
    if pushed {
        PushStep::Done
    } else if attempt < MAX_RETRIES {
        PushStep::Again((attempt + 1) as u32)
    } else {
        PushStep::GiveUp
    }
}

/// What to do after the attempt of this number was taken or not.
pub fn after_push(attempt: u32, pushed: bool) -> (r: PushStep)
    ensures
        r == push_step(attempt, pushed),
{
    if pushed {
        return PushStep::Done;
    }
    match after_attempt(attempt, true) {
        Retry::Again(n) => PushStep::Again(n),
        Retry::Stop => PushStep::GiveUp,
    }
}

} // verus!
