use davgit::git::entry::{EntryMode, TreeEntry, sort_entries};
use davgit::git::lists::ObjectError;
use davgit::git::objects::{
    build_commit, build_commit_at, build_index_and_contents, collect_all_oids, collect_tree_oids,
    commit_seconds, copy_tree_entry, find_tree_entry, modify_tree_entry, remove_tree_entry,
};
use davgit::git::packfile::{OBJ_BLOB, OBJ_COMMIT, OBJ_TREE, build_packfile, hash_object, parse_packfile};
use davgit::git::repo::{GitRepo, PendingPush, PushStep, RepoError, after_push};
use davgit::git::transport::FetchResult;
use davgit::oid::{ObjectId, ObjectMap};
use davgit::path::RepoPath;

fn path(s: &str) -> RepoPath {
    RepoPath::new(s)
}

fn put_blob(objects: &mut ObjectMap, data: &[u8]) -> ObjectId {
    let oid = hash_object(OBJ_BLOB, data);
    objects.insert(&oid, data.to_vec());
    oid
}

fn empty_tree(objects: &mut ObjectMap) -> ObjectId {
    let oid = hash_object(OBJ_TREE, b"");
    objects.insert(&oid, Vec::new());
    oid
}

fn add(objects: &mut ObjectMap, root: ObjectId, at: &str, data: &[u8]) -> ObjectId {
    let blob = put_blob(objects, data);
    modify_tree_entry(objects, &root, &path(at), Some((EntryMode::blob(), blob))).ok().unwrap().0
}

fn content(objects: &ObjectMap, root: &ObjectId, at: &str) -> Option<Vec<u8>> {
    match find_tree_entry(objects, root, &path(at)) {
        Ok(Some((mode, oid))) if !mode.is_tree() => objects.get(&oid).cloned(),
        _ => None,
    }
}

#[test]
fn entries_are_put_and_found() {
    let mut objects = ObjectMap::new();
    let root = empty_tree(&mut objects);
    let root = add(&mut objects, root, "README.md", b"hi");
    let root = add(&mut objects, root, "docs/guide/one.txt", b"1");
    let root = add(&mut objects, root, "docs/two.txt", b"2");
    assert_eq!(content(&objects, &root, "README.md"), Some(b"hi".to_vec()));
    assert_eq!(content(&objects, &root, "docs/guide/one.txt"), Some(b"1".to_vec()));
    assert_eq!(content(&objects, &root, "docs//./two.txt"), Some(b"2".to_vec()));
    let (mode, _) = find_tree_entry(&objects, &root, &path("docs/guide")).ok().unwrap().unwrap();
    assert!(mode.is_tree());
    assert_eq!(mode.octal, b"40000".to_vec());
    assert!(find_tree_entry(&objects, &root, &path("README.md/x")).ok().unwrap().is_none());
    assert!(find_tree_entry(&objects, &root, &path("nothing")).ok().unwrap().is_none());
    let (mode, oid) = find_tree_entry(&objects, &root, &path("")).ok().unwrap().unwrap();
    assert!(mode.is_tree());
    assert_eq!(oid, root);
}

#[test]
fn trees_have_the_known_bytes() {
    let mut objects = ObjectMap::new();
    let root = empty_tree(&mut objects);
    let blob = put_blob(&mut objects, b"hello\n");
    let (root, list) =
        modify_tree_entry(&mut objects, &root, &path("a"), Some((EntryMode::blob(), blob)))
            .ok()
            .unwrap();
    let mut expected = b"100644 a\0".to_vec();
    expected.extend_from_slice(&blob.bytes);
    assert_eq!(list.len(), 1);
    assert_eq!(list[0], (OBJ_TREE, expected));
    assert_eq!(hex::encode(root.bytes), "0976950c1fdbcb52435a433913017bf044b3a58f");
}

#[test]
fn new_trees_come_deepest_first() {
    let mut objects = ObjectMap::new();
    let root = empty_tree(&mut objects);
    let blob = put_blob(&mut objects, b"x");
    let (root, list) =
        modify_tree_entry(&mut objects, &root, &path("a/b/c"), Some((EntryMode::blob(), blob)))
            .ok()
            .unwrap();
    assert_eq!(list.len(), 3);
    assert!(list[0].1.starts_with(b"100644 c\0"));
    assert!(list[1].1.starts_with(b"40000 b\0"));
    assert!(list[2].1.starts_with(b"40000 a\0"));
    assert_eq!(hash_object(OBJ_TREE, &list[2].1), root);
}

#[test]
fn entries_are_replaced_and_removed() {
    let mut objects = ObjectMap::new();
    let root = empty_tree(&mut objects);
    let root = add(&mut objects, root, "d/a", b"1");
    let root = add(&mut objects, root, "d/b", b"2");
    let root = add(&mut objects, root, "d/a", b"3");
    assert_eq!(content(&objects, &root, "d/a"), Some(b"3".to_vec()));
    let (root, list) = remove_tree_entry(&mut objects, &root, &path("d/a")).ok().unwrap();
    assert_eq!(list.len(), 2);
    assert_eq!(content(&objects, &root, "d/a"), None);
    assert_eq!(content(&objects, &root, "d/b"), Some(b"2".to_vec()));
    let (root, _) = remove_tree_entry(&mut objects, &root, &path("d")).ok().unwrap();
    assert_eq!(root, hash_object(OBJ_TREE, b""));
}

#[test]
fn changes_that_cannot_be_made() {
    let mut objects = ObjectMap::new();
    let root = empty_tree(&mut objects);
    let root = add(&mut objects, root, "a", b"1");
    let err = |r: Result<_, ObjectError>| match r {
        Ok(_) => panic!("the change was made"),
        Err(e) => e,
    };
    assert_eq!(err(remove_tree_entry(&mut objects, &root, &path(""))), ObjectError::EmptyPath);
    assert_eq!(err(remove_tree_entry(&mut objects, &root, &path("b"))), ObjectError::NotFound);
    assert_eq!(err(remove_tree_entry(&mut objects, &root, &path("b/c"))), ObjectError::NotFound);
    let bad = RepoPath::from_bytes(b"\xff");
    assert_eq!(err(remove_tree_entry(&mut objects, &root, &bad)), ObjectError::NotUtf8);
    let missing = ObjectId { bytes: [5; 20] };
    assert_eq!(err(remove_tree_entry(&mut objects, &missing, &path("a"))), ObjectError::MissingTree);
    let blob = put_blob(&mut objects, b"x");
    let nul = RepoPath::from_bytes(b"n\0l");
    assert_eq!(
        err(modify_tree_entry(&mut objects, &root, &nul, Some((EntryMode::blob(), blob)))),
        ObjectError::BadName
    );
    assert_eq!(
        err(copy_tree_entry(&mut objects, &root, &path("nothing"), &path("x"))),
        ObjectError::NotFound
    );
    let broken = hash_object(OBJ_TREE, b"100644 x");
    objects.insert(&broken, b"100644 x".to_vec());
    assert_eq!(
        find_tree_entry(&objects, &broken, &path("x")).err(),
        Some(ObjectError::BadTree)
    );
    let mut clashing = b"40000 d\0".to_vec();
    clashing.extend_from_slice(&root.bytes);
    clashing.extend_from_slice(b"100644 d/e\0");
    clashing.extend_from_slice(&blob.bytes);
    let one = hash_object(OBJ_TREE, &clashing);
    objects.insert(&one, clashing.clone());
    clashing.extend_from_slice(b"100644 d/f\0");
    clashing.extend_from_slice(&blob.bytes);
    let two = hash_object(OBJ_TREE, &clashing);
    objects.insert(&two, clashing);
    assert_eq!(
        err(modify_tree_entry(&mut objects, &two, &path("z"), Some((EntryMode::blob(), blob)))),
        ObjectError::NameClash
    );
    let put = modify_tree_entry(&mut objects, &one, &path("z"), Some((EntryMode::blob(), blob)));
    let (root, _) = put.ok().unwrap();
    let data = objects.get(&root).unwrap().clone();
    let mut expected = objects.get(&one).unwrap().clone();
    expected.extend_from_slice(b"100644 z\0");
    expected.extend_from_slice(&blob.bytes);
    assert_eq!(data, expected);
    let (back, _) = remove_tree_entry(&mut objects, &root, &path("z")).ok().unwrap();
    assert_eq!(back, one);
}

#[test]
fn all_modes_of_trees_are_sorted_as_trees() {
    let blob = hash_object(OBJ_BLOB, b"");
    for digits in ["40000", "040000", "140000", "345676"] {
        let mut objects = ObjectMap::new();
        let root = empty_tree(&mut objects);
        let root = add(&mut objects, root, "a.b", b"1");
        let mode = EntryMode { octal: digits.as_bytes().to_vec() };
        let (root, _) =
            modify_tree_entry(&mut objects, &root, &path("a"), Some((mode, blob))).ok().unwrap();
        let (mode, _) = find_tree_entry(&objects, &root, &path("a")).ok().unwrap().unwrap();
        assert!(mode.is_tree());
        let data = objects.get(&root).unwrap();
        assert!(data.starts_with(b"100644 a.b\0"));
    }
}

#[test]
fn directories_are_copied_whole() {
    let mut objects = ObjectMap::new();
    let root = empty_tree(&mut objects);
    let root = add(&mut objects, root, "src/a", b"1");
    let root = add(&mut objects, root, "src/b/c", b"2");
    let (root, _) = copy_tree_entry(&mut objects, &root, &path("src"), &path("new/dir")).ok().unwrap();
    assert_eq!(content(&objects, &root, "new/dir/a"), Some(b"1".to_vec()));
    assert_eq!(content(&objects, &root, "new/dir/b/c"), Some(b"2".to_vec()));
    assert_eq!(content(&objects, &root, "src/b/c"), Some(b"2".to_vec()));
}

#[test]
fn entries_are_sorted_as_git_sorts_them() {
    let entry = |mode: EntryMode, name: &str| TreeEntry {
        mode,
        filename: name.as_bytes().to_vec(),
        oid: ObjectId { bytes: [0; 20] },
    };
    let entries = vec![
        entry(EntryMode::tree(), "a"),
        entry(EntryMode::blob(), "b"),
        entry(EntryMode::blob(), "a.txt"),
        entry(EntryMode::blob(), "a0"),
        entry(EntryMode::blob(), "A"),
    ];
    let sorted = sort_entries(&entries);
    let names: Vec<&[u8]> = sorted.iter().map(|e| e.filename.as_slice()).collect();
    assert_eq!(names, vec![b"A" as &[u8], b"a.txt", b"a", b"a0", b"b"]);
}

#[test]
fn walks_find_all_files() {
    let mut objects = ObjectMap::new();
    let root = empty_tree(&mut objects);
    let root = add(&mut objects, root, "a", b"1");
    let root = add(&mut objects, root, "d/e/f", b"2");
    let (index, contents) = build_index_and_contents(&objects, &root).ok().unwrap();
    assert_eq!(index.len(), 2);
    assert_eq!(contents.len(), 2);
    for name in ["a", "d/e/f"] {
        let found = find_tree_entry(&objects, &root, &path(name)).ok().unwrap().unwrap();
        assert_eq!(index.get(&path(name).components()).unwrap().bytes, found.1.bytes);
    }
    assert_eq!(contents.get(&path("d/e/f").components()).unwrap().as_slice(), b"2");
    assert_eq!(
        index.get(&path("a").components()).unwrap().bytes,
        hash_object(OBJ_BLOB, b"1").bytes
    );
    let trees = collect_tree_oids(&objects, &root);
    let all = collect_all_oids(&objects, &root);
    assert!(trees.contains(&root));
    assert!(!trees.contains(&hash_object(OBJ_BLOB, b"2")));
    assert!(all.contains(&root));
    assert!(all.contains(&hash_object(OBJ_BLOB, b"2")));
    assert!(!all.contains(&hash_object(OBJ_BLOB, b"other")));
}

#[test]
fn broken_walks_are_refused() {
    let mut objects = ObjectMap::new();
    let missing = ObjectId { bytes: [9; 20] };
    assert_eq!(
        build_index_and_contents(&objects, &missing).err(),
        Some(ObjectError::MissingTree)
    );
    let mut looped = b"40000 d\0".to_vec();
    looped.extend_from_slice(&missing.bytes);
    objects.insert(&missing, looped);
    assert_eq!(build_index_and_contents(&objects, &missing).err(), Some(ObjectError::Cycle));
    assert!(collect_tree_oids(&objects, &missing).contains(&missing));
    let odd = ObjectId { bytes: [8; 20] };
    let mut bytes = b"100644 \xff\0".to_vec();
    bytes.extend_from_slice(&[1; 20]);
    objects.insert(&odd, bytes);
    assert_eq!(build_index_and_contents(&objects, &odd).err(), Some(ObjectError::NotUtf8));
    objects.insert(&odd, b"junk".to_vec());
    assert_eq!(build_index_and_contents(&objects, &odd).err(), Some(ObjectError::BadTree));
}

#[test]
fn commits_have_the_known_text() {
    let tree = hash_object(OBJ_TREE, b"");
    let parent = ObjectId { bytes: [0xcd; 20] };
    let text = build_commit_at(&tree, Some(&parent), "A U Thor", "a@b", "say\nit", 1234567890);
    let expected = format!(
        "tree 4b825dc642cb6eb9a060e54bf8d69288fbee4904\nparent {}\nauthor A U Thor <a@b> 1234567890 +0000\ncommitter A U Thor <a@b> 1234567890 +0000\n\nsay\nit",
        "cd".repeat(20)
    );
    assert_eq!(String::from_utf8(text).unwrap(), expected);
    let early = build_commit_at(&tree, None, "", "", "", -5);
    assert!(String::from_utf8(early).unwrap().contains("author  <> -5 +0000\n"));
    let now = String::from_utf8(build_commit(&tree, None, "n", "e", "m")).unwrap();
    assert!(now.starts_with("tree 4b825dc642cb6eb9a060e54bf8d69288fbee4904\nauthor n <e> "));
}

fn repo_with(files: &[(&str, &[u8])]) -> GitRepo {
    let mut objects = ObjectMap::new();
    let mut root = empty_tree(&mut objects);
    let mut list: Vec<(u8, Vec<u8>)> = vec![(OBJ_TREE, Vec::new())];
    for (at, data) in files {
        let blob = put_blob(&mut objects, data);
        let (next, trees) =
            modify_tree_entry(&mut objects, &root, &path(at), Some((EntryMode::blob(), blob)))
                .ok()
                .unwrap();
        root = next;
        list.extend(trees);
        list.push((OBJ_BLOB, data.to_vec()));
    }
    let commit = build_commit_at(&root, None, "n", "e", "first", 1);
    let head = hash_object(OBJ_COMMIT, &commit);
    list.push((OBJ_COMMIT, commit));
    let entries: Vec<(u8, &[u8])> = list.iter().map(|(k, d)| (*k, d.as_slice())).collect();
    let pack = build_packfile(&entries).unwrap();
    let mut repo = GitRepo::new("host:p", "main", None, None, "", "");
    repo.apply_fetch(&head, &pack).unwrap();
    repo
}

fn read(repo: &GitRepo, at: &str) -> Option<Vec<u8>> {
    repo.read_file(&path(at)).unwrap()
}

fn push(repo: &mut GitRepo, pending: Result<PendingPush, RepoError>) -> PendingPush {
    let pending = pending.ok().unwrap();
    repo.finish_push(&pending);
    pending
}

#[test]
fn repositories_have_defaults() {
    let repo = GitRepo::new("u", "b", Some("k"), None, "", "");
    assert_eq!(repo.author_name, "davgit");
    assert_eq!(repo.author_email, "davgit@localhost");
    assert_eq!(repo.ssh_key.as_deref(), Some("k"));
    assert_eq!(repo.read_file(&path("a")).err(), Some(RepoError::NoHead));
    assert_eq!(repo.list_dir(&path("")).unwrap(), vec![]);
    assert!(repo.is_directory(&path("")));
    assert!(!repo.is_directory(&path("a")));
    assert_eq!(repo.file_size(&path("a")), None);
    assert_eq!(repo.write_path(&path("a"), b"1", 0).err(), Some(RepoError::NoHead));
}

#[test]
fn files_are_read() {
    let repo = repo_with(&[("a.txt", b"hello"), ("d/b", b"")]);
    assert_eq!(read(&repo, "a.txt"), Some(b"hello".to_vec()));
    assert_eq!(read(&repo, "d"), None);
    assert_eq!(read(&repo, "x"), None);
    assert_eq!(repo.file_size(&path("a.txt")), Some(5));
    assert_eq!(repo.file_size(&path("d")), None);
    assert!(repo.is_directory(&path("d")));
    assert!(!repo.is_directory(&path("a.txt")));
    let list = repo.list_dir(&path("")).unwrap();
    assert_eq!(list, vec![("a.txt".to_string(), false, 5), ("d".to_string(), true, 0)]);
    assert_eq!(repo.list_dir(&path("a.txt")).unwrap(), vec![]);
}

#[test]
fn writes_are_read_back() {
    let mut repo = repo_with(&[("keep", b"k")]);
    let head = repo.head_oid.unwrap();
    let pending = repo.write_path(&path("n/e/w"), b"data", 7);
    let pending = push(&mut repo, pending);
    assert_eq!(read(&repo, "n/e/w"), Some(b"data".to_vec()));
    assert_eq!(read(&repo, "keep"), Some(b"k".to_vec()));
    assert_eq!(repo.head_oid, Some(pending.commit_oid));
    let (kind, commit) = pending.objects.last().unwrap();
    assert_eq!(*kind, OBJ_COMMIT);
    let text = String::from_utf8(commit.clone()).unwrap();
    assert!(text.contains(&format!("parent {}\n", hex::encode(head.bytes))));
    assert!(text.ends_with("davgit <davgit@localhost> 7 +0000\n\nupdate n/e/w"));
    let packed = parse_packfile(&pending.packfile).ok().unwrap();
    assert_eq!(packed.get(&pending.commit_oid).unwrap(), commit);
}

#[test]
fn objects_are_pushed_once() {
    let repo = repo_with(&[("keep", b"k")]);
    let pending = repo.write_path(&path("empty"), b"", 7).ok().unwrap();
    assert_eq!(pending.objects.len(), 3);
    let same = repo.copy_subtree(&path("keep"), &path("keep2"), 7).ok().unwrap();
    assert_eq!(same.objects.len(), 2);
}

#[test]
fn deletes_leave_the_rest() {
    let mut repo = repo_with(&[("a", b"1"), ("d/b", b"2"), ("d/c", b"3")]);
    let pending = repo.delete_path(&path("a"), 1);
    let p = push(&mut repo, pending);
    assert!(String::from_utf8(p.objects.last().unwrap().1.clone()).unwrap().ends_with("\n\ndelete a"));
    assert_eq!(read(&repo, "a"), None);
    assert_eq!(read(&repo, "d/b"), Some(b"2".to_vec()));
    let pending = repo.delete_subtree(&path("d"), 1);
    let p = push(&mut repo, pending);
    assert!(
        String::from_utf8(p.objects.last().unwrap().1.clone()).unwrap().ends_with("delete \"d\"")
    );
    assert!(!repo.is_directory(&path("d")));
    assert_eq!(
        repo.delete_path(&path("a"), 1).err(),
        Some(RepoError::Object(ObjectError::NotFound))
    );
    assert_eq!(
        repo.delete_path(&RepoPath::from_bytes(b"\xff"), 1).err(),
        Some(RepoError::NotUtf8)
    );
}

#[test]
fn directories_are_made_with_a_marker() {
    let mut repo = repo_with(&[("a", b"1")]);
    let pending = repo.create_dir(&path("a\tb"), 1);
    let p = push(&mut repo, pending);
    assert!(repo.is_directory(&path("a\tb")));
    assert_eq!(read(&repo, "a\tb/.DAV"), Some(Vec::new()));
    let text = String::from_utf8(p.objects.last().unwrap().1.clone()).unwrap();
    assert!(text.ends_with("\n\ncreate dir \"a\\tb\""));
}

#[test]
fn copies_and_moves() {
    let mut repo = repo_with(&[("s/a", b"1"), ("s/b/c", b"2"), ("t/old", b"3"), ("u", b"4")]);
    let pending = repo.copy_subtree(&path("s"), &path("t"), 1);
    let p = push(&mut repo, pending);
    assert!(
        String::from_utf8(p.objects.last().unwrap().1.clone())
            .unwrap()
            .ends_with("\n\ncopy \"s\" -> \"t\"")
    );
    assert_eq!(read(&repo, "t/b/c"), Some(b"2".to_vec()));
    assert_eq!(read(&repo, "s/a"), Some(b"1".to_vec()));
    assert_eq!(read(&repo, "t/old"), None);
    let pending = repo.move_subtree(&path("s"), &path("v/w"), 1);
    push(&mut repo, pending);
    assert_eq!(read(&repo, "v/w/a"), Some(b"1".to_vec()));
    assert_eq!(read(&repo, "v/w/b/c"), Some(b"2".to_vec()));
    assert!(!repo.is_directory(&path("s")));
    assert_eq!(read(&repo, "u"), Some(b"4".to_vec()));
    assert_eq!(read(&repo, "t/a"), Some(b"1".to_vec()));
    assert_eq!(
        repo.move_subtree(&path("nothing"), &path("x"), 1).err(),
        Some(RepoError::Object(ObjectError::NotFound))
    );
}

#[test]
fn fetches_drop_what_is_not_needed() {
    let mut repo = repo_with(&[("a", b"1")]);
    let old = hash_object(OBJ_BLOB, b"1");
    assert!(repo.objects.contains(&old));
    let next = repo_with(&[("b", b"2")]);
    let head = next.head_oid.unwrap();
    let mut list: Vec<(u8, Vec<u8>)> = Vec::new();
    let tree = {
        let mut objects = ObjectMap::new();
        let root = empty_tree(&mut objects);
        let root = add(&mut objects, root, "b", b"2");
        (objects.get(&root).unwrap().clone(), root)
    };
    list.push((OBJ_TREE, tree.0));
    list.push((OBJ_BLOB, b"2".to_vec()));
    list.push((OBJ_COMMIT, next.objects.get(&head).unwrap().clone()));
    let entries: Vec<(u8, &[u8])> = list.iter().map(|(k, d)| (*k, d.as_slice())).collect();
    let pack = build_packfile(&entries).unwrap();
    repo.apply_fetch(&head, &pack).unwrap();
    assert_eq!(read(&repo, "b"), Some(b"2".to_vec()));
    assert!(!repo.objects.contains(&old));
    assert!(repo.apply_fetch(&ObjectId { bytes: [1; 20] }, &[]).is_ok());
    assert_eq!(repo.head_oid, Some(head));
    assert_eq!(
        repo.apply_fetch(&ObjectId { bytes: [1; 20] }, &pack).err(),
        Some(RepoError::MissingCommit)
    );
    let blob = hash_object(OBJ_BLOB, b"2");
    assert_eq!(repo.apply_fetch(&blob, &pack).err(), Some(RepoError::BadCommit));
    assert!(matches!(repo.apply_fetch(&head, b"junk"), Err(RepoError::Pack(_))));
    assert_eq!(read(&repo, "b"), Some(b"2".to_vec()));
}

#[test]
fn authors_that_a_commit_cannot_hold() {
    let mut repo = repo_with(&[("a", b"1")]);
    repo.author_name = "a <b".to_string();
    assert_eq!(repo.write_path(&path("x"), b"1", 0).err(), Some(RepoError::BadAuthor));
}

#[test]
fn pushes_are_tried_three_times() {
    assert_eq!(after_push(1, true), PushStep::Done);
    assert_eq!(after_push(1, false), PushStep::Again(2));
    assert_eq!(after_push(2, false), PushStep::Again(3));
    assert_eq!(after_push(3, false), PushStep::GiveUp);
}

#[test]
fn several_changes_in_one_commit() {
    let mut repo = repo_with(&[("a", b"1"), ("d/b", b"2")]);
    let writes = vec![(path("a"), b"new".to_vec()), (path("e/f"), b"3".to_vec())];
    let deletes = vec![path("d/b"), path("e/f")];
    let pending = repo.commit_changes(&writes, &deletes, "several", 1);
    push(&mut repo, pending);
    assert_eq!(read(&repo, "a"), Some(b"new".to_vec()));
    assert_eq!(read(&repo, "d/b"), None);
    assert_eq!(read(&repo, "e/f"), None);
    assert_eq!(
        repo.commit_changes(&writes, &[path("zzz")], "m", 1).err(),
        Some(RepoError::Object(ObjectError::NotFound))
    );
    assert_eq!(
        repo.commit_changes(&[(path(""), Vec::new())], &[], "m", 1).err(),
        Some(RepoError::Object(ObjectError::EmptyPath))
    );
}

#[test]
fn repositories_start_with_a_fetch() {
    let repo = repo_with(&[("a", b"1")]);
    let head = repo.head_oid.unwrap();
    let list: Vec<(u8, Vec<u8>)> = vec![(OBJ_COMMIT, repo.objects.get(&head).unwrap().clone())];
    let entries: Vec<(u8, &[u8])> = list.iter().map(|(k, d)| (*k, d.as_slice())).collect();
    let result = FetchResult { head_commit_oid: head, packfile: build_packfile(&entries).unwrap() };
    let fresh =
        GitRepo::init_and_fetch("u", "b", None, None, "N", "", &result).ok().unwrap();
    assert_eq!(fresh.head_oid, Some(head));
    assert_eq!(fresh.author_name, "N");
    assert_eq!(
        fresh.read_file(&path("a")).err(),
        Some(RepoError::Object(ObjectError::MissingTree))
    );
    let bad = FetchResult { head_commit_oid: head, packfile: b"junk".to_vec() };
    assert!(GitRepo::init_and_fetch("u", "b", None, None, "N", "", &bad).is_err());
}

#[test]
fn commit_times_are_signed() {
    assert_eq!(commit_seconds(0), 0);
    assert_eq!(commit_seconds(1_700_000_000), 1_700_000_000);
    assert_eq!(commit_seconds(9_223_372_036_854_775_807), i64::MAX);
    assert_eq!(commit_seconds(9_223_372_036_854_775_808), i64::MIN);
    assert_eq!(commit_seconds(18_446_744_073_709_551_615), -1);
}

#[test]
fn removal_undoes_insertion() {
    let mut objects = ObjectMap::new();
    let root = empty_tree(&mut objects);
    let root = add(&mut objects, root, "d/e/a", b"1");
    let root = add(&mut objects, root, "d.txt", b"2");
    for at in ["new", "d/0", "d/e/b"] {
        let put = add(&mut objects, root, at, b"x");
        assert!(put != root);
        let (back, _) = remove_tree_entry(&mut objects, &put, &path(at)).ok().unwrap();
        assert_eq!(back, root);
    }
}

#[test]
fn listings_agree_with_lookups() {
    let repo = repo_with(&[("d/a", b"123"), ("d/e/f", b"4"), ("g", b"")]);
    for dir in ["", "d", "d/"] {
        let list = repo.list_dir(&path(dir)).ok().unwrap();
        assert_eq!(list.len(), 2);
        for (name, is_dir, len) in list {
            let at = path(dir).join(name.as_bytes());
            assert_eq!(repo.is_directory(&at), is_dir);
            assert_eq!(repo.file_size(&at), if is_dir { None } else { Some(len) });
        }
    }
    assert!(repo.list_dir(&path("g")).ok().unwrap().is_empty());
    assert!(repo.list_dir(&path("none")).ok().unwrap().is_empty());
}

#[test]
fn settings_are_kept() {
    let repo = repo_with(&[("a", b"1")]);
    let head = repo.head_oid.unwrap();
    let commit = repo.objects.get(&head).unwrap().clone();
    let entries: Vec<(u8, &[u8])> = vec![(OBJ_COMMIT, commit.as_slice())];
    let result = FetchResult { head_commit_oid: head, packfile: build_packfile(&entries).unwrap() };
    let fresh = GitRepo::init_and_fetch("u", "b", Some("k"), Some("p"), "", "", &result);
    let fresh = fresh.ok().unwrap();
    assert_eq!(fresh.remote_url, "u");
    assert_eq!(fresh.branch, "b");
    assert_eq!(fresh.ssh_key.as_deref(), Some("k"));
    assert_eq!(fresh.password.as_deref(), Some("p"));
}

#[test]
fn modes_are_written_back_as_they_were_read() {
    let blob = hash_object(OBJ_BLOB, b"");
    let modes =
        [("140000", "040000"), ("145001", "045001"), ("045001", "45001"), ("040000", "040000")];
    for (read, written) in modes {
        let mut objects = ObjectMap::new();
        let mut data = format!("{read} d\0").into_bytes();
        data.extend_from_slice(&blob.bytes);
        let root = hash_object(OBJ_TREE, &data);
        objects.insert(&root, data);
        let root = add(&mut objects, root, "x", b"1");
        let expected = format!("{written} d\0").into_bytes();
        assert!(objects.get(&root).unwrap().starts_with(&expected));
    }
}

#[test]
fn sound_changes_succeed() {
    let mut objects = ObjectMap::new();
    let root = empty_tree(&mut objects);
    let root = add(&mut objects, root, "d/a", b"1");
    let blob = put_blob(&mut objects, b"2");
    let to = path("d/new/deep/file");
    let entry = Some((EntryMode::blob(), blob));
    let (root, list) = modify_tree_entry(&mut objects, &root, &to, entry).ok().unwrap();
    assert!(list.iter().all(|(kind, _)| *kind == OBJ_TREE));
    assert_eq!(list.len(), 4);
    for above in ["", "d", "d/new", "d/new/deep"] {
        let (mode, _) = find_tree_entry(&objects, &root, &path(above)).ok().unwrap().unwrap();
        assert!(mode.is_tree());
    }
    let (mode, oid) = find_tree_entry(&objects, &root, &to).ok().unwrap().unwrap();
    assert_eq!((mode.octal, oid), (b"100644".to_vec(), blob));
    let (root, list) =
        copy_tree_entry(&mut objects, &root, &path("d/new"), &path("x/y")).ok().unwrap();
    assert!(list.iter().all(|(kind, _)| *kind == OBJ_TREE));
    for at in ["d/new/deep/file", "x/y/deep/file"] {
        assert_eq!(content(&objects, &root, at), Some(b"2".to_vec()));
    }
    let (root, _) = copy_tree_entry(&mut objects, &root, &path(""), &path("all")).ok().unwrap();
    assert_eq!(content(&objects, &root, "all/x/y/deep/file"), Some(b"2".to_vec()));
}

#[test]
fn removals_fail_where_nothing_is_found() {
    let mut objects = ObjectMap::new();
    let root = empty_tree(&mut objects);
    let root = add(&mut objects, root, "d/a", b"1");
    let root = add(&mut objects, root, "d/e/f", b"2");
    for at in ["", "x", "d/x", "d/e/x", "x/y"] {
        let mut same = objects.duplicate();
        assert!(remove_tree_entry(&mut same, &root, &path(at)).is_err());
        assert_eq!(content(&same, &root, "d/a"), Some(b"1".to_vec()));
        assert_eq!(content(&same, &root, "d/e/f"), Some(b"2".to_vec()));
    }
    let (root, list) = remove_tree_entry(&mut objects, &root, &path("d/e")).ok().unwrap();
    assert_eq!(list.len(), 2);
    for gone in ["d/e", "d/e/f", "d/e/f/g"] {
        assert!(find_tree_entry(&objects, &root, &path(gone)).ok().unwrap().is_none());
    }
    assert_eq!(content(&objects, &root, "d/a"), Some(b"1".to_vec()));
}
