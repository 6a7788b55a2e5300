use davgit::cli::{Args, Environment, resolve_author};
use davgit::fs::{
    GitDavFile, apply_copy, apply_remove_dir, apply_rename, create_dir, davpath_to_pathbuf,
    file_exists, insert_file, is_dir, metadata, open, plan_copy, plan_remove_dir, plan_rename,
    read_dir, remove_file,
};
use davgit::git::objects::build_index_and_contents;
use davgit::git::packfile::{OBJ_BLOB, OBJ_COMMIT, OBJ_TREE, hash_object, parse_packfile};
use davgit::git::transport::{PktError, RefError};
use davgit::git_bridge::{
    BridgeError, FetchResult, GitRepo, batch_message, build_change_commit, build_commit,
    build_commit_at, build_trees, is_throttled, parse_fetch_to_map, read_pkt_line, read_refs,
};
use davgit::oid::{ObjectId, ObjectMap};
use davgit::path::{Components, RepoPath};
use davgit::path_map::{FileMap, PathMap};

fn at(s: &str) -> Components {
    RepoPath::new(s).components()
}

fn shown(c: &Components) -> String {
    let names: Vec<String> =
        c.names.iter().map(|n| String::from_utf8(n.clone()).unwrap()).collect();
    names.join("/")
}

fn tree(files: &[(&str, &str)]) -> FileMap {
    let mut t: FileMap = PathMap::new();
    for (p, d) in files {
        t.insert(&at(p), d.as_bytes().to_vec());
    }
    t
}

fn listing(t: &FileMap) -> Vec<(String, String)> {
    let mut all: Vec<(String, String)> = (0..t.len())
        .map(|i| (shown(t.key(i)), String::from_utf8(t.value(i).clone()).unwrap()))
        .collect();
    all.sort();
    all
}

fn pairs(files: &[(&str, &str)]) -> Vec<(String, String)> {
    files.iter().map(|(a, b)| (a.to_string(), b.to_string())).collect()
}

#[test]
fn paths_have_components() {
    let names = |s: &str| -> Vec<String> {
        at(s).names.iter().map(|n| String::from_utf8(n.clone()).unwrap()).collect()
    };
    assert_eq!(names("a/b"), vec!["a", "b"]);
    assert_eq!(names("a//b/./c/"), vec!["a", "b", "c"]);
    assert_eq!(names("/a"), vec!["/", "a"]);
    assert_eq!(names("./a/."), vec![".", "a"]);
    assert_eq!(names("../a"), vec!["..", "a"]);
    assert_eq!(names("."), vec!["."]);
    assert!(names("").is_empty());
    assert_eq!(RepoPath::new("a").join(b"b").raw, b"a/b".to_vec());
    assert_eq!(RepoPath::new("a/").join(b"b").raw, b"a/b".to_vec());
    assert_eq!(RepoPath::new("").join(b"b").raw, b"b".to_vec());
    assert_eq!(RepoPath::new("a").join(b"/b").raw, b"/b".to_vec());
}

#[test]
fn request_paths_lose_their_root() {
    for (from, to) in
        [("/a/b", "a/b"), ("/a//b/", "a//b"), ("/", ""), ("/./a/.", "a"), ("a/", "a/"), ("//x", "x")]
    {
        assert_eq!(davpath_to_pathbuf(&RepoPath::new(from)).raw, to.as_bytes().to_vec());
    }
}

#[test]
fn directories_are_what_files_are_below() {
    let t = tree(&[("a/b/c", "1"), ("f", "22")]);
    assert!(is_dir(&t, &at("")) && is_dir(&t, &at("a")) && is_dir(&t, &at("a/b")));
    assert!(!is_dir(&t, &at("f")) && !is_dir(&t, &at("a/b/c")) && !is_dir(&t, &at("x")));
    assert!(file_exists(&t, &at("f")) && !file_exists(&t, &at("a")));
    assert_eq!(metadata(&t, &at("f")).map(|m| (m.len, m.is_dir)), Some((2, false)));
    assert_eq!(metadata(&t, &at("a")).map(|m| (m.len, m.is_dir)), Some((0, true)));
    assert!(metadata(&t, &at("x")).is_none());
}

#[test]
fn directories_are_listed() {
    let t = tree(&[("a/b/c", "1"), ("a/b/d", "1"), ("a/e", "333"), ("a/.davgit_dir", ""), ("f", "")]);
    let mut list: Vec<(Vec<u8>, bool, u64)> = read_dir(&t, &at("a"))
        .unwrap()
        .into_iter()
        .map(|e| (e.name, e.is_dir, e.len))
        .collect();
    list.sort();
    assert_eq!(list, vec![(b"b".to_vec(), true, 0), (b"e".to_vec(), false, 3)]);
    assert!(read_dir(&t, &at("x")).is_none());
    assert!(read_dir(&t, &at("f")).is_none());
    assert!(read_dir(&tree(&[]), &at("")).unwrap().is_empty());
    let mut odd: FileMap = PathMap::new();
    let mut key = Components::empty();
    key.push(b"\xff");
    odd.insert(&key, Vec::new());
    assert_eq!(read_dir(&odd, &at("")).unwrap()[0].name, "\u{fffd}".as_bytes().to_vec());
}

#[test]
fn files_are_opened() {
    let t = tree(&[("f", "data")]);
    let p = RepoPath::new("f");
    assert_eq!(open(&t, &p, false, false, false).unwrap().data, b"data".to_vec());
    assert_eq!(open(&t, &p, true, false, false).unwrap().data, b"data".to_vec());
    assert!(open(&t, &p, true, true, false).unwrap().data.is_empty());
    assert!(open(&t, &p, true, false, true).unwrap().data.is_empty());
    assert!(open(&t, &RepoPath::new("x"), false, false, false).is_none());
    assert!(open(&t, &RepoPath::new("x"), true, false, false).unwrap().data.is_empty());
}

#[test]
fn open_files_are_read_and_written() {
    let mut f = GitDavFile::new(b"0123456789".to_vec(), RepoPath::new("f"), true);
    assert_eq!(f.read_bytes(4), b"0123".to_vec());
    assert_eq!(f.seek_by(false, -2), 2);
    assert_eq!(f.read_bytes(100), b"23456789".to_vec());
    assert_eq!(f.read_bytes(1), Vec::<u8>::new());
    assert_eq!(f.seek_start(3), 3);
    assert_eq!(f.seek_by(true, -1), 9);
    assert_eq!(f.seek_by(true, -100), 0);
    assert_eq!(f.seek_by(true, 5), 15);
    assert_eq!(f.read_bytes(1), Vec::<u8>::new());
    f.write_bytes(b"ab");
    assert_eq!(f.meta.len, 10);
    assert_eq!(f.flush(), Some(b"0123456789ab".to_vec()));
    assert!(f.data.is_empty());
    let mut r = GitDavFile::new(b"x".to_vec(), RepoPath::new("f"), false);
    assert_eq!(r.flush(), None);
    assert_eq!(r.data, b"x".to_vec());
}

#[test]
fn files_are_moved_and_copied() {
    let mut t = tree(&[("a", "1"), ("b", "2")]);
    let plan = plan_rename(&t, &at("a"), &at("d/c"));
    assert_eq!(shown(&plan.writes[0].0), "d/c");
    assert_eq!(shown(&plan.deletes[0]), "a");
    apply_rename(&mut t, &at("a"), &at("d/c"));
    assert_eq!(listing(&t), pairs(&[("b", "2"), ("d/c", "1")]));
    let plan = plan_copy(&t, &at("b"), &at("d/c"));
    assert_eq!((plan.writes.len(), plan.deletes.len()), (1, 0));
    apply_copy(&mut t, &at("b"), &at("d/c"));
    assert_eq!(listing(&t), pairs(&[("b", "2"), ("d/c", "2")]));
    apply_rename(&mut t, &at("b"), &at("b"));
    assert_eq!(listing(&t), pairs(&[("d/c", "2")]));
}

#[test]
fn whole_directories_are_moved_and_copied() {
    let mut t = tree(&[("s/a", "1"), ("s/b/c", "2"), ("t/a", "3"), ("st", "4")]);
    let plan = plan_rename(&t, &at("s"), &at("t"));
    assert_eq!((plan.writes.len(), plan.deletes.len()), (2, 2));
    apply_rename(&mut t, &at("s"), &at("t"));
    assert_eq!(listing(&t), pairs(&[("st", "4"), ("t/a", "1"), ("t/b/c", "2")]));
    apply_copy(&mut t, &at("t"), &at("u/v"));
    assert_eq!(
        listing(&t),
        pairs(&[("st", "4"), ("t/a", "1"), ("t/b/c", "2"), ("u/v/a", "1"), ("u/v/b/c", "2")])
    );
}

#[test]
fn directories_are_removed_and_made() {
    let mut t = tree(&[("d/a", "1"), ("d/.davgit_dir", ""), ("e", "2")]);
    let plan = plan_remove_dir(&t, &at("d"));
    assert_eq!(plan.deletes.len(), 1);
    assert_eq!(shown(&plan.deletes[0]), "d/a");
    apply_remove_dir(&mut t, &at("d"));
    assert_eq!(listing(&t), pairs(&[("e", "2")]));
    create_dir(&mut t, &at("n"));
    assert!(is_dir(&t, &at("n")));
    assert!(read_dir(&t, &at("n")).unwrap().is_empty());
    insert_file(&mut t, &at("n/f"), b"x".to_vec());
    create_dir(&mut t, &at("n"));
    remove_file(&mut t, &at("e"));
    assert_eq!(listing(&t), pairs(&[("n/.davgit_dir", ""), ("n/f", "x")]));
}

fn fetched(files: &[(&str, &str)]) -> FetchResult {
    let t = tree(files);
    let (head, list) = build_change_commit(&t, None, "n", "e", "m", 1).ok().unwrap();
    let mut objects = ObjectMap::new();
    for (kind, data) in list {
        objects.insert(&hash_object(kind, &data), data);
    }
    FetchResult { head_commit_oid: head, objects }
}

#[test]
fn trees_are_built_and_walked() {
    let files = [("a", "1"), ("d/b", "2"), ("d/e/c", "3")];
    let result = fetched(&files);
    assert_eq!(listing(&parse_fetch_to_map(&result).ok().unwrap()), pairs(&files));
    let (root, list) = build_trees(&tree(&[("f", "hello\n"), ("d/g", "")])).ok().unwrap();
    assert_eq!(list.len(), 4);
    assert_eq!(list[0], (OBJ_BLOB, b"hello\n".to_vec()));
    assert!(list[2].1.starts_with(b"100644 g\0"));
    assert!(list[3].1.starts_with(b"40000 d\0"));
    assert_eq!(hash_object(OBJ_TREE, &list[3].1), root);
}

#[test]
fn all_directories_on_the_way_have_trees() {
    let (root, list) = build_trees(&tree(&[("a/b/c", "1")])).ok().unwrap();
    assert_eq!(list.len(), 4);
    assert!(list[1].1.starts_with(b"100644 c\0"));
    assert!(list[2].1.starts_with(b"40000 b\0"));
    assert!(list[3].1.starts_with(b"40000 a\0"));
    assert_eq!(hash_object(OBJ_TREE, &list[3].1), root);
    for at in ["./x", "/x"] {
        let (root, list) = build_trees(&tree(&[(at, "1")])).ok().unwrap();
        assert_eq!(list.len(), 2);
        assert_eq!(hash_object(OBJ_TREE, &list[1].1), root);
    }
}

#[test]
fn laid_out_files_are_read_back() {
    let files = [("a", "1"), ("d/b", "2"), ("d/e/c", "3"), ("d.txt", "4"), ("d/e/\u{e9}", "")];
    let result = fetched(&files);
    let mut expected = pairs(&files);
    expected.sort();
    assert_eq!(listing(&parse_fetch_to_map(&result).ok().unwrap()), expected);
    let repo = GitRepo::new("u", "b", None, None, "N", "E");
    let push = repo.write_path(&result, &RepoPath::new("d/e/f"), b"5", 1).ok().unwrap();
    let objects = parse_packfile(&push.packfile).ok().unwrap();
    let again = FetchResult { head_commit_oid: push.commit_oid, objects };
    let got = listing(&parse_fetch_to_map(&again).ok().unwrap());
    assert_eq!(got, listing(&push.files));
    assert_eq!(got.len(), 6);
    for files in [[("a/b.txt", "1"), ("x/y/z", "2")], [("a/b/c", "1"), ("a/b/d/e/f", "2")]] {
        let gap = fetched(&files);
        assert_eq!(listing(&parse_fetch_to_map(&gap).ok().unwrap()), pairs(&files));
    }
}

#[test]
fn built_trees_are_walked_again() {
    for files in [
        vec![("a", "1"), ("a.txt", "2"), ("d/b", "3"), ("d/e/c", "")],
        vec![("only/dirs/on/the/way", "1")],
        vec![("x/same", "1"), ("y/same", "1")],
    ] {
        let (root, list) = build_trees(&tree(&files)).ok().unwrap();
        let mut objects = ObjectMap::new();
        for (kind, content) in &list {
            objects.insert(&hash_object(*kind, content), content.clone());
        }
        let (index, contents) = build_index_and_contents(&objects, &root).ok().unwrap();
        assert_eq!(index.len(), files.len());
        assert_eq!(listing(&contents), pairs(&files));
    }
}

#[test]
fn files_that_have_no_tree() {
    assert_eq!(build_trees(&tree(&[])).err(), Some(BridgeError::NoRoot));
    assert_eq!(build_trees(&tree(&[("a/..", "1")])).err(), Some(BridgeError::NoFileName));
    assert_eq!(build_trees(&tree(&[("../a", "1"), ("b", "2")])).err(), Some(BridgeError::NoFileName));
    let none = FetchResult { head_commit_oid: ObjectId { bytes: [1; 20] }, objects: ObjectMap::new() };
    assert_eq!(parse_fetch_to_map(&none).err(), Some(BridgeError::MissingCommit));
    let mut objects = ObjectMap::new();
    objects.insert(&ObjectId { bytes: [1; 20] }, b"junk".to_vec());
    let bad = FetchResult { head_commit_oid: ObjectId { bytes: [1; 20] }, objects };
    assert_eq!(parse_fetch_to_map(&bad).err(), Some(BridgeError::BadCommit));
}

#[test]
fn plain_commits_have_the_known_text() {
    let tree = hash_object(OBJ_TREE, b"");
    let text = build_commit_at(&tree, Some(&tree), "A <x", "e", "msg", 99);
    let id = "4b825dc642cb6eb9a060e54bf8d69288fbee4904";
    assert_eq!(
        String::from_utf8(text).unwrap(),
        format!("tree {id}\nparent {id}\nauthor A <x <e> 99 +0000\ncommitter A <x <e> 99 +0000\n\nmsg\n")
    );
    assert!(build_commit(&tree, None, "n", "e", "m").ends_with(b"\n\nm\n"));
}

#[test]
fn bridged_repositories_are_changed() {
    let repo = GitRepo::init_and_fetch("u", "b", None, Some("pw"), "", "x@y", None);
    assert_eq!((repo.author_name.as_str(), repo.author_email.as_str()), ("davgit", "x@y"));
    assert!(repo.resolve_head_tree().is_none());
    assert!(repo.head_oid.is_none());
    let first = fetched(&[("a", "1")]);
    let mut repo = GitRepo::init_and_fetch("u", "b", None, None, "", "x@y", Some(&first));
    assert_eq!(repo.resolve_head_tree().map(|o| o.bytes), Some([1; 20]));
    assert!(repo.refresh_tree(&first).ok().unwrap().is_none());
    let second = fetched(&[("a", "1"), ("b", "2")]);
    let new = repo.refresh_tree(&second).ok().unwrap().unwrap();
    assert_eq!(listing(&new), pairs(&[("a", "1"), ("b", "2")]));
    let push = repo.write_path(&second, &RepoPath::new("d/c"), b"3", 4).ok().unwrap();
    let objects = parse_packfile(&push.packfile).ok().unwrap();
    let commit = objects.get(&push.commit_oid).unwrap();
    assert!(commit.ends_with(b"\n\nupdate d/c\n"));
    assert_eq!(hash_object(OBJ_COMMIT, commit), push.commit_oid);
    let again = FetchResult { head_commit_oid: push.commit_oid, objects };
    assert_eq!(
        listing(&parse_fetch_to_map(&again).ok().unwrap()),
        pairs(&[("a", "1"), ("b", "2"), ("d/c", "3")])
    );
    repo.finish_push(push);
    assert_eq!(listing(&repo.read_tree_to_memory()), pairs(&[("a", "1"), ("b", "2"), ("d/c", "3")]));
    let gone = repo.delete_path(&again, &RepoPath::new("a"), 5).ok().unwrap();
    repo.finish_push(gone);
    assert_eq!(listing(&repo.read_tree_to_memory()), pairs(&[("b", "2"), ("d/c", "3")]));
    let plan = plan_rename(&repo.tree, &at("d"), &at("e"));
    let push = repo.batch_paths(&again, &plan, batch_message(), 6).ok().unwrap();
    assert_eq!(listing(&push.files), pairs(&[("a", "1"), ("b", "2"), ("e/c", "3")]));
    let odd = RepoPath::from_bytes(b"\xff");
    assert_eq!(repo.write_path(&again, &odd, b"", 7).err(), Some(BridgeError::NotUtf8));
    assert_eq!(repo.delete_path(&again, &odd, 7).err(), Some(BridgeError::NotUtf8));
}

#[test]
fn bridged_index_and_contents_agree() {
    let result = fetched(&[("a", "1"), ("d/b", "2")]);
    let commit = result.objects.get(&result.head_commit_oid).unwrap().clone();
    let id = hex::decode(&commit[5..45]).unwrap();
    let root = ObjectId::from_bytes(&id);
    let (index, contents) = build_index_and_contents(&result.objects, &root).ok().unwrap();
    for i in 0..index.len() {
        let data = contents.get(index.key(i)).unwrap();
        assert_eq!(hash_object(OBJ_BLOB, data), *index.value(i));
    }
}

#[test]
fn refreshes_are_throttled() {
    assert!(is_throttled(2) && !is_throttled(3));
}

#[test]
fn bridged_lines_must_not_end_early() {
    let mut pos = 0;
    assert_eq!(read_pkt_line(b"0006ab", &mut pos), Ok(Some(b"ab".to_vec())));
    assert_eq!(read_pkt_line(b"0006ab", &mut pos), Err(PktError::Truncated));
    let mut pos = 0;
    assert_eq!(read_refs(b"0006ab", &mut pos).err(), Some(RefError::Pkt(PktError::Truncated)));
    assert!(read_refs(b"0006ab0000", &mut pos).is_ok());
    assert_eq!(pos, 10);
}

#[test]
fn settings_have_defaults() {
    let args = Args::new("host:p");
    assert_eq!((args.branch.as_str(), args.port, args.bind.as_str()), ("main", 8080, "127.0.0.1"));
    assert_eq!(args.address(), "127.0.0.1:8080");
    let none = Environment { git_author_name: None, user: None, git_author_email: None };
    assert_eq!(
        resolve_author(&args, &none),
        ("davgit".to_string(), "davgit@localhost".to_string())
    );
    let env = Environment {
        git_author_name: None,
        user: Some("me".to_string()),
        git_author_email: None,
    };
    assert_eq!(resolve_author(&args, &env), ("me".to_string(), "me@localhost".to_string()));
    let env = Environment {
        git_author_name: Some("N".to_string()),
        user: Some("me".to_string()),
        git_author_email: Some("E".to_string()),
    };
    assert_eq!(resolve_author(&args, &env), ("N".to_string(), "E".to_string()));
    let mut args = Args::new("host:p");
    args.author_name = Some("A".to_string());
    args.author_email = Some("B".to_string());
    assert_eq!(resolve_author(&args, &env), ("A".to_string(), "B".to_string()));
}
