use davgit::git::entry::EntryMode;
use davgit::git::objects::{build_commit_at, modify_tree_entry};
use davgit::git::packfile::{OBJ_BLOB, OBJ_COMMIT, OBJ_TREE, build_packfile, hash_object};
use davgit::git::repo::GitRepo;
use davgit::handler::{
    Change, DavRequest, PropfindResource, Response, Step, after_body, after_change,
    build_multistatus, compute_etag, content_type, davpath_to_rel, generate_lock_token,
    handle_lock, handle_options, handle_proppatch, handle_request, handle_unlock, href_encode,
    is_dav_path, lock_held, lock_token_at, parse_depth, parse_destination, parse_overwrite,
    prepare_change,
};
use davgit::oid::ObjectMap;
use davgit::path::RepoPath;
use sha1::{Digest, Sha1};

fn path(s: &str) -> RepoPath {
    RepoPath::new(s)
}

fn repo_with(files: &[(&str, &[u8])]) -> GitRepo {
    let mut objects = ObjectMap::new();
    let mut root = hash_object(OBJ_TREE, b"");
    objects.insert(&root, Vec::new());
    let mut list: Vec<(u8, Vec<u8>)> = vec![(OBJ_TREE, Vec::new())];
    for (at, data) in files {
        let blob = hash_object(OBJ_BLOB, data);
        objects.insert(&blob, data.to_vec());
        let (next, trees) =
            modify_tree_entry(&mut objects, &root, &path(at), Some((EntryMode::blob(), blob)))
                .ok()
                .unwrap();
        root = next;
        list.extend(trees);
        list.push((OBJ_BLOB, data.to_vec()));
    }
    let commit = build_commit_at(&root, None, "n", "e", "first", 1);
    let head = hash_object(OBJ_COMMIT, &commit);
    list.push((OBJ_COMMIT, commit));
    let entries: Vec<(u8, &[u8])> = list.iter().map(|(k, d)| (*k, d.as_slice())).collect();
    let mut repo = GitRepo::new("host:p", "main", None, None, "", "");
    repo.apply_fetch(&head, &build_packfile(&entries).unwrap()).unwrap();
    repo
}

fn request(method: &str, path: &str) -> DavRequest {
    DavRequest {
        method: method.to_string(),
        path: path.to_string(),
        destination: None,
        depth: None,
        overwrite: None,
        if_match: None,
        if_none_match: None,
        body_size: None,
    }
}

fn reply(step: Step) -> Response {
    match step {
        Step::Reply(r) => r,
        _ => panic!("not an answer"),
    }
}

fn status(req: &DavRequest, repo: &GitRepo) -> u16 {
    reply(handle_request(req, repo)).status
}

fn header<'a>(r: &'a Response, name: &str) -> &'a [u8] {
    r.headers.iter().find(|h| h.0 == name).map(|h| h.1.as_slice()).unwrap()
}

#[test]
fn get_sends_the_file() {
    let repo = repo_with(&[("a.txt", b"hello"), ("d/x", b"1")]);
    let r = reply(handle_request(&request("GET", "/a.txt"), &repo));
    assert_eq!(r.status, 200);
    assert_eq!(r.body, b"hello".to_vec());
    assert_eq!(header(&r, "Content-Type"), b"text/plain");
    assert_eq!(header(&r, "Content-Length"), b"5");
    assert_eq!(header(&r, "ETag"), b"\"aaf4c61ddcc5e8a2dabede0f3b482cd9aea9434d\"");
    assert_eq!(header(&r, "Accept-Ranges"), b"bytes");
    assert_eq!(status(&request("GET", "/"), &repo), 404);
    assert_eq!(status(&request("GET", "/d"), &repo), 404);
    assert_eq!(status(&request("GET", "/none"), &repo), 404);
    let empty = GitRepo::new("u", "b", None, None, "", "");
    assert_eq!(status(&request("GET", "/a"), &empty), 500);
}

#[test]
fn known_contents_are_not_sent_again() {
    let repo = repo_with(&[("a.txt", b"hello")]);
    let mut req = request("GET", "/a.txt");
    req.if_none_match = Some("\"aaf4c61ddcc5e8a2dabede0f3b482cd9aea9434d\"".to_string());
    let r = reply(handle_request(&req, &repo));
    assert_eq!((r.status, r.body.len(), r.headers.len()), (304, 0, 0));
    req.if_none_match = Some("other".to_string());
    assert_eq!(status(&req, &repo), 200);
}

#[test]
fn head_has_all_of_get_but_the_body() {
    let repo = repo_with(&[("a.txt", b"hello")]);
    for at in ["/a.txt", "/", "/none"] {
        let get = reply(handle_request(&request("GET", at), &repo));
        let head = reply(handle_request(&request("HEAD", at), &repo));
        assert_eq!(head.status, get.status);
        assert_eq!(head.headers, get.headers);
        assert!(head.body.is_empty());
    }
}

#[test]
fn markers_are_hidden() {
    let repo = repo_with(&[("d/.DAV", b""), ("d/x", b"1")]);
    for (method, expected) in
        [("GET", 404), ("HEAD", 404), ("PROPFIND", 404), ("PUT", 405), ("DELETE", 405), ("COPY", 404)]
    {
        assert_eq!(status(&request(method, "/d/.DAV"), &repo), expected);
    }
    let r = reply(handle_request(&request("PROPFIND", "/d"), &repo));
    let xml = String::from_utf8(r.body).unwrap();
    assert!(xml.contains("<D:href>/d/x</D:href>"));
    assert!(!xml.contains(".DAV"));
    assert!(is_dav_path(&path("a/.DAV")));
    assert!(!is_dav_path(&path("a/.DAV/b")));
    assert!(!is_dav_path(&path("")));
}

#[test]
fn put_is_checked_before_the_body_is_read() {
    let repo = repo_with(&[("d/x", b"1")]);
    assert_eq!(status(&request("PUT", "/no/y"), &repo), 409);
    assert_eq!(status(&request("PUT", "/d/x/y"), &repo), 409);
    let mut req = request("PUT", "/d/x");
    req.if_none_match = Some("*".to_string());
    assert_eq!(status(&req, &repo), 412);
    let mut req = request("PUT", "/d/y");
    req.if_match = Some("*".to_string());
    assert_eq!(status(&req, &repo), 412);
    req.if_match = None;
    req.if_none_match = Some("*".to_string());
    assert!(matches!(
        handle_request(&req, &repo),
        Step::ReadBody { path, file_exists: false } if path.raw == b"d/y".to_vec()
    ));
    assert!(matches!(
        handle_request(&request("PUT", "/d/x"), &repo),
        Step::ReadBody { file_exists: true, .. }
    ));
}

#[test]
fn put_writes_the_body() {
    assert_eq!(reply(after_body(path("a"), false, None)).status, 500);
    assert_eq!(reply(after_body(path("a"), false, Some(Vec::new()))).status, 201);
    assert!(matches!(
        after_body(path("a"), true, Some(Vec::new())),
        Step::Perform { change: Change::Write(_, _), status: 204 }
    ));
    assert!(matches!(
        after_body(path("a"), true, Some(b"x".to_vec())),
        Step::Perform { change: Change::Write(_, d), status: 201 } if d == b"x".to_vec()
    ));
    assert_eq!(after_change(204, true).status, 204);
    assert_eq!(after_change(204, false).status, 500);
}

#[test]
fn what_was_put_is_got() {
    let mut repo = repo_with(&[("keep", b"k")]);
    let (at, exists) = match handle_request(&request("PUT", "/new.md"), &repo) {
        Step::ReadBody { path, file_exists } => (path, file_exists),
        _ => panic!("the body is not read"),
    };
    let change = match after_body(at, exists, Some(b"# hi".to_vec())) {
        Step::Perform { change, status } => {
            assert_eq!(status, 201);
            change
        }
        _ => panic!("nothing is written"),
    };
    let pending = prepare_change(&repo, &change, 5).ok().unwrap();
    repo.finish_push(&pending);
    let r = reply(handle_request(&request("GET", "/new.md"), &repo));
    assert_eq!((r.status, r.body.as_slice()), (200, b"# hi" as &[u8]));
    assert_eq!(header(&r, "Content-Type"), b"text/markdown");
    assert_eq!(status(&request("GET", "/keep"), &repo), 200);
}

fn perform(req: &DavRequest, repo: &mut GitRepo) {
    let change = match handle_request(req, repo) {
        Step::Perform { change, .. } => change,
        _ => panic!("nothing is changed"),
    };
    let pending = prepare_change(repo, &change, 5).ok().unwrap();
    repo.finish_push(&pending);
}

#[test]
fn what_was_deleted_or_moved_is_not_found() {
    let mut repo = repo_with(&[("a", b"1"), ("d/x", b"2"), ("d/y", b"3")]);
    perform(&request("DELETE", "/d/y"), &mut repo);
    assert_eq!(status(&request("GET", "/d/y"), &repo), 404);
    let mut req = request("MOVE", "/d/x");
    req.destination = Some("/moved".to_string());
    perform(&req, &mut repo);
    assert_eq!(status(&request("GET", "/d/x"), &repo), 404);
    let r = reply(handle_request(&request("GET", "/moved"), &repo));
    assert_eq!((r.status, r.body.as_slice()), (200, b"2" as &[u8]));
    let mut req = request("COPY", "/a");
    req.destination = Some("/d/copy".to_string());
    perform(&req, &mut repo);
    for at in ["/a", "/d/copy"] {
        let r = reply(handle_request(&request("GET", at), &repo));
        assert_eq!((r.status, r.body.as_slice()), (200, b"1" as &[u8]));
    }
}

#[test]
fn delete_and_mkcol() {
    let repo = repo_with(&[("d/x", b"1")]);
    assert!(matches!(
        handle_request(&request("DELETE", "/d"), &repo),
        Step::Perform { change: Change::DeleteSubtree(_), status: 204 }
    ));
    assert!(matches!(
        handle_request(&request("DELETE", "/d/x"), &repo),
        Step::Perform { change: Change::DeletePath(_), status: 204 }
    ));
    assert_eq!(status(&request("DELETE", "/e"), &repo), 404);
    assert_eq!(status(&request("MKCOL", "/d"), &repo), 405);
    assert_eq!(status(&request("MKCOL", "/e/f"), &repo), 409);
    let mut req = request("MKCOL", "/e");
    req.body_size = Some(3);
    assert_eq!(status(&req, &repo), 415);
    req.body_size = Some(0);
    assert!(matches!(
        handle_request(&req, &repo),
        Step::Perform { change: Change::CreateDir(_), status: 201 }
    ));
}

#[test]
fn changes_are_prepared() {
    let repo = repo_with(&[("d/x", b"1"), ("y", b"2")]);
    for change in [
        Change::DeletePath(path("y")),
        Change::DeleteSubtree(path("d")),
        Change::CreateDir(path("e")),
        Change::Copy(path("d"), path("e")),
        Change::Move(path("d"), path("e")),
    ] {
        assert!(prepare_change(&repo, &change, 1).is_ok());
    }
    assert!(prepare_change(&repo, &Change::DeletePath(path("z")), 1).is_err());
}

#[test]
fn prepared_changes_are_read_back() {
    let files: [(&str, &[u8]); 3] = [("d/x", b"1"), ("d/y", b"2"), ("keep", b"3")];
    let done = |change: Change| {
        let mut repo = repo_with(&files);
        let pending = prepare_change(&repo, &change, 1).ok().unwrap();
        repo.finish_push(&pending);
        repo
    };
    let got = |repo: &GitRepo, at: &str| repo.read_file(&path(at)).unwrap();
    let changes = [
        (Change::Write(path("d/n"), b"4".to_vec()), "d/n", Some(b"4".to_vec()), "d/x"),
        (Change::DeletePath(path("d/x")), "d/x", None, "d/y"),
        (Change::DeleteSubtree(path("d")), "d/y", None, "keep"),
        (Change::CreateDir(path("e")), "e/.DAV", Some(Vec::new()), "d/x"),
        (Change::Copy(path("d"), path("e")), "e/x", Some(b"1".to_vec()), "d/x"),
        (Change::Move(path("d/x"), path("e/z")), "e/z", Some(b"1".to_vec()), "d/y"),
    ];
    for (change, at, expected, other) in changes {
        let repo = done(change);
        assert_eq!(got(&repo, at), expected);
        assert!(got(&repo, other).is_some());
        assert_eq!(got(&repo, "keep"), Some(b"3".to_vec()));
        assert_eq!(got(&repo, "nothing"), None);
    }
}

#[test]
fn copy_and_move() {
    let repo = repo_with(&[("a", b"1"), ("b", b"2")]);
    let mut req = request("COPY", "/a");
    assert_eq!(status(&req, &repo), 400);
    req.destination = Some("nonsense".to_string());
    assert_eq!(status(&req, &repo), 400);
    req.destination = Some("http://host/c".to_string());
    assert!(matches!(
        handle_request(&req, &repo),
        Step::Perform { change: Change::Copy(_, d), status: 201 } if d.raw == b"c".to_vec()
    ));
    req.destination = Some("/b".to_string());
    assert!(matches!(
        handle_request(&req, &repo),
        Step::Perform { change: Change::Copy(_, _), status: 204 }
    ));
    req.overwrite = Some("F".to_string());
    assert_eq!(status(&req, &repo), 412);
    req.destination = Some("/x/y".to_string());
    assert_eq!(status(&req, &repo), 409);
    req.destination = Some("/d/.DAV".to_string());
    assert_eq!(status(&req, &repo), 404);
    let mut req = request("MOVE", "/none");
    req.destination = Some("/c".to_string());
    assert_eq!(status(&req, &repo), 404);
    req.path = "/a".to_string();
    assert!(matches!(
        handle_request(&req, &repo),
        Step::Perform { change: Change::Move(_, _), status: 201 }
    ));
}

#[test]
fn propfind_lists() {
    let repo = repo_with(&[("d/x.html", b"123"), ("d/e/f", b"1")]);
    let mut req = request("PROPFIND", "/d");
    let r = reply(handle_request(&req, &repo));
    assert_eq!(r.status, 207);
    assert_eq!(header(&r, "Content-Type"), b"application/xml; charset=utf-8");
    assert_eq!(header(&r, "DAV"), b"1, 2, 3");
    let dir = |p: &str| {
        format!("<D:response><D:href>{p}</D:href><D:propstat><D:prop><D:getcontenttype>httpd/unix-directory</D:getcontenttype><D:resourcetype><D:collection/></D:resourcetype><D:lockdiscovery/><D:supportedlock/></D:prop><D:status>HTTP/1.1 200 OK</D:status></D:propstat></D:response>")
    };
    let file = "<D:response><D:href>/d/x.html</D:href><D:propstat><D:prop><D:getcontentlength>3</D:getcontentlength><D:getcontenttype>text/html</D:getcontenttype><D:resourcetype/><D:lockdiscovery/><D:supportedlock/></D:prop><D:status>HTTP/1.1 200 OK</D:status></D:propstat></D:response>";
    let head = "<?xml version=\"1.0\" encoding=\"utf-8\"?><D:multistatus xmlns:D=\"DAV:\">";
    let whole = format!("{head}{}{}{file}</D:multistatus>", dir("/d"), dir("/d/e"));
    assert_eq!(String::from_utf8(r.body).unwrap(), whole);
    req.depth = Some("0".to_string());
    let r = reply(handle_request(&req, &repo));
    assert_eq!(
        String::from_utf8(r.body).unwrap(),
        format!("{head}{}</D:multistatus>", dir("/d"))
    );
    let r = reply(handle_request(&request("PROPFIND", "/"), &repo));
    let xml = String::from_utf8(r.body).unwrap();
    assert!(xml.contains("<D:href>/</D:href>") && xml.contains("<D:href>/d</D:href>"));
    assert_eq!(status(&request("PROPFIND", "/none"), &repo), 404);
}

#[test]
fn other_methods() {
    let repo = repo_with(&[]);
    assert_eq!(status(&request("LOCK", "/a"), &repo), 405);
    assert_eq!(status(&request("UNLOCK", "/a"), &repo), 405);
    assert_eq!(status(&request("PROPPATCH", "/a"), &repo), 501);
    assert_eq!(status(&request("BREW", "/a"), &repo), 405);
    assert_eq!(status(&request("get", "/a"), &repo), 405);
    let r = reply(handle_request(&request("OPTIONS", "/"), &repo));
    assert_eq!(r.status, 200);
    assert_eq!(
        header(&r, "Allow"),
        b"GET, HEAD, PUT, DELETE, MKCOL, COPY, MOVE, PROPFIND, OPTIONS"
    );
    assert_eq!(header(&handle_options(), "MS-Author-Via"), b"DAV");
}

#[test]
fn locks_and_properties() {
    assert_eq!(handle_unlock().status, 204);
    let mut seed = 5u128.to_le_bytes().to_vec();
    seed.extend_from_slice(b"a/b");
    seed.extend_from_slice(&7u64.to_le_bytes());
    let expected = hex::encode(Sha1::digest(&seed)).into_bytes();
    assert_eq!(lock_token_at(5, &path("a/b"), 7), expected);
    assert_eq!(generate_lock_token(&path("a/b"), 7).len(), 40);
    let r = handle_lock(&path("a"), 1);
    assert_eq!(r.status, 200);
    let xml = String::from_utf8(lock_held(b"tok").body).unwrap();
    assert!(xml.contains("<D:href>opaquelocktoken:tok</D:href></D:locktoken>"));
    assert_eq!(xml.len() - 3 + 40, r.body.len());
    let r = handle_proppatch(&path("a b"));
    assert_eq!(r.status, 207);
    assert_eq!(
        String::from_utf8(r.body).unwrap(),
        "<?xml version=\"1.0\" encoding=\"utf-8\"?><D:multistatus xmlns:D=\"DAV:\"><D:response><D:href>/a b</D:href><D:propstat><D:prop/><D:status>HTTP/1.1 200 OK</D:status></D:propstat></D:response></D:multistatus>"
    );
}

#[test]
fn small_helpers() {
    assert_eq!(davpath_to_rel("/a/b").raw, b"a/b".to_vec());
    assert_eq!(davpath_to_rel("//a").raw, b"/a".to_vec());
    assert_eq!(davpath_to_rel("a").raw, b"a".to_vec());
    assert_eq!(davpath_to_rel("/").raw, b"".to_vec());
    assert_eq!(href_encode(&path("")), b"/".to_vec());
    assert_eq!(href_encode(&path("a/b")), b"/a/b".to_vec());
    for (name, expected) in [
        ("a.htm", "text/html"),
        ("a.css", "text/css"),
        ("a.js", "application/javascript"),
        ("a.json", "application/json"),
        ("a.png", "image/png"),
        ("a.jpeg", "image/jpeg"),
        ("a.gif", "image/gif"),
        ("a.svg", "image/svg+xml"),
        ("a.xml", "application/xml"),
        ("a.pdf", "application/pdf"),
        ("a.zip", "application/zip"),
        ("a.tar", "application/x-tar"),
        ("x/a.tar.gz", "application/gzip"),
        (".html", "application/octet-stream"),
        ("html", "application/octet-stream"),
        ("a.HTML", "application/octet-stream"),
        ("", "application/octet-stream"),
        ("..", "application/octet-stream"),
    ] {
        assert_eq!(content_type(&path(name)), expected);
    }
    assert_eq!(compute_etag(b"hello"), b"\"aaf4c61ddcc5e8a2dabede0f3b482cd9aea9434d\"".to_vec());
    assert_eq!(parse_depth(Some("0")), Some(0));
    assert_eq!(parse_depth(Some("infinity")), Some(1));
    assert_eq!(parse_depth(Some("2")), None);
    assert_eq!(parse_depth(None), None);
    assert!(parse_overwrite(None) && parse_overwrite(Some("T")) && !parse_overwrite(Some("F")));
    assert_eq!(parse_destination(Some("http://h:1/a/b")).unwrap().raw, b"a/b".to_vec());
    assert_eq!(parse_destination(Some("//a")).unwrap().raw, b"/a".to_vec());
    assert!(parse_destination(Some("http://h")).is_none());
    assert!(parse_destination(Some("x/y")).is_none());
    assert!(parse_destination(None).is_none());
    assert!(
        build_multistatus(&[PropfindResource { path: path("z"), is_dir: true, len: 0 }])
            .ends_with(b"</D:response></D:multistatus>")
    );
}

#[test]
fn hrefs_are_escaped() {
    let resources = vec![PropfindResource { path: path("a&b.txt"), is_dir: false, len: 3 }];
    let xml = String::from_utf8(build_multistatus(&resources)).unwrap();
    assert!(xml.contains("<D:href>/a&amp;b.txt</D:href>"));
    assert!(xml.contains("<D:getcontentlength>3</D:getcontentlength>"));
    let odd = RepoPath::from_bytes(b"<x>\xff");
    assert_eq!(href_encode(&odd), "/<x>\u{fffd}".as_bytes().to_vec());
    let r = handle_proppatch(&odd);
    let body = String::from_utf8(r.body).unwrap();
    assert!(body.contains("<D:href>/&lt;x&gt;\u{fffd}</D:href>"));
}
