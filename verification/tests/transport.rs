use davgit::git::session::{
    Attempt, AuthStep, after_auth, auth_attempts, service_command, session_port, session_user,
    ssh_args,
};
use davgit::git::transport::{
    PktError, PktHead, RefAdvertisement, RefError, Retry, TransportError, UrlError, after_attempt,
    fetch_request, fetched_pack, parse_ssh_url, pkt_head, push_outcome, push_request,
    read_pkt_line, read_refs, read_report, report_text, select_capabilities, uses_side_band,
    write_flush, write_pkt_line,
};

const A: &str = "0123456789abcdef0123456789ABCDEF01234567";

#[test]
fn urls_with_a_scheme() {
    let t = parse_ssh_url("ssh://git@example.org:2222/srv/repo.git").ok().unwrap();
    assert_eq!(t.user.as_deref(), Some("git"));
    assert_eq!(t.host, "example.org");
    assert_eq!(t.port, Some(2222));
    assert_eq!(t.path, "/srv/repo.git");
    let t = parse_ssh_url("ssh://example.org").ok().unwrap();
    assert_eq!((t.user, t.port, t.path.as_str()), (None, None, "/"));
    let t = parse_ssh_url("ssh://@h:/p").ok().unwrap();
    assert_eq!((t.user, t.host.as_str(), t.port, t.path.as_str()), (None, "h", None, "/p"));
    let t = parse_ssh_url("ssh://h:+80/p").ok().unwrap();
    assert_eq!(t.port, Some(80));
    for bad in ["ssh://h:65536/p", "ssh://h:x/p", "ssh://h:+/p", "ssh://h:-1/p"] {
        assert_eq!(parse_ssh_url(bad).err(), Some(UrlError::InvalidPort));
    }
}

#[test]
fn urls_without_a_scheme() {
    let t = parse_ssh_url("git@github.com:user/repo.git").ok().unwrap();
    assert_eq!(t.user.as_deref(), Some("git"));
    assert_eq!(t.host, "github.com");
    assert_eq!(t.port, None);
    assert_eq!(t.path, "/user/repo.git");
    let t = parse_ssh_url("host:/abs").ok().unwrap();
    assert_eq!((t.user, t.host.as_str(), t.path.as_str()), (None, "host", "/abs"));
    let t = parse_ssh_url("a@b@c:d").ok().unwrap();
    assert_eq!((t.user.as_deref(), t.host.as_str()), (Some("a@b"), "c"));
    let t = parse_ssh_url("@höst:päth").ok().unwrap();
    assert_eq!((t.user, t.host.as_str(), t.path.as_str()), (None, "höst", "/päth"));
    assert_eq!(parse_ssh_url("git@host").err(), Some(UrlError::NoColon));
    assert_eq!(parse_ssh_url("nothing").err(), Some(UrlError::NotSsh));
}

#[test]
fn pkt_lines_have_the_known_bytes() {
    let mut out = Vec::new();
    write_pkt_line(&mut out, b"done\n").unwrap();
    write_flush(&mut out);
    assert_eq!(out, b"0009done\n0000".to_vec());
    let long = vec![b'x'; 0xfffb];
    let mut out = Vec::new();
    write_pkt_line(&mut out, &long).unwrap();
    assert_eq!(&out[..4], b"ffff");
    let too_long = vec![b'x'; 0xfffc];
    assert_eq!(write_pkt_line(&mut out, &too_long), Err(PktError::TooLong(0xfffc)));
}

#[test]
fn pkt_lines_are_read_back() {
    let mut data = b"..".to_vec();
    write_pkt_line(&mut data, b"hello").unwrap();
    write_pkt_line(&mut data, b"").unwrap();
    write_flush(&mut data);
    data.extend_from_slice(b"00");
    let mut pos = 2;
    assert_eq!(read_pkt_line(&data, &mut pos), Ok(Some(b"hello".to_vec())));
    assert_eq!(read_pkt_line(&data, &mut pos), Ok(Some(Vec::new())));
    assert_eq!(read_pkt_line(&data, &mut pos), Ok(None));
    assert_eq!(pos, data.len() - 2);
    assert_eq!(read_pkt_line(&data, &mut pos), Ok(None));
    assert_eq!(pos, data.len());
}

#[test]
fn pkt_lengths() {
    assert_eq!(pkt_head(b"0000"), Ok(PktHead::Flush));
    assert_eq!(pkt_head(b"0001"), Ok(PktHead::Flush));
    assert_eq!(pkt_head(b"0002"), Err(PktError::BadLength));
    assert_eq!(pkt_head(b"0003"), Err(PktError::BadLength));
    assert_eq!(pkt_head(b"0004"), Ok(PktHead::Line(0)));
    assert_eq!(pkt_head(b"+0aB"), Ok(PktHead::Line(0xab - 4)));
    assert_eq!(pkt_head(b"00g0"), Err(PktError::BadLength));
    assert_eq!(pkt_head(b"\xff\xff\xff\xff"), Err(PktError::BadLength));
    let mut pos = 0;
    assert_eq!(read_pkt_line(b"0009do", &mut pos), Err(PktError::Truncated));
    assert_eq!(pos, 0);
}

fn advertisement() -> Vec<u8> {
    let mut data = Vec::new();
    write_pkt_line(&mut data, format!("{A} HEAD\0multi_ack thin-pack ofs-delta agent=git/2\n").as_bytes())
        .unwrap();
    write_pkt_line(&mut data, b"short").unwrap();
    write_pkt_line(&mut data, format!("{A} refs/heads/main\n\n").as_bytes()).unwrap();
    write_flush(&mut data);
    data
}

#[test]
fn advertisements_are_read() {
    let data = advertisement();
    let mut pos = 0;
    let adv = read_refs(&data, &mut pos).ok().unwrap();
    assert_eq!(pos, data.len());
    assert_eq!(hex::encode(adv.get(b"refs/heads/main").unwrap().bytes), A.to_lowercase());
    assert!(adv.get(b"HEAD").is_some());
    assert!(adv.get(b"refs/heads/other").is_none());
    assert_eq!(adv.capabilities, b"multi_ack thin-pack ofs-delta agent=git/2\n".to_vec());
}

#[test]
fn broken_advertisements_are_refused() {
    let mut adv = RefAdvertisement::new();
    assert_eq!(adv.add_line(b"\xff"), Err(RefError::NotUtf8));
    let bad = format!("{} refs/heads/x", A.replace('0', "g"));
    assert_eq!(adv.add_line(bad.as_bytes()), Err(RefError::BadId));
    assert_eq!(adv.add_line(format!("{A}é").as_bytes()), Err(RefError::BadSeparator));
    assert!(adv.get(b"refs/heads/x").is_none());
    let mut pos = 0;
    assert_eq!(
        read_refs(b"zzzz", &mut pos).err(),
        Some(RefError::Pkt(PktError::BadLength))
    );
}

#[test]
fn capabilities_are_selected() {
    assert_eq!(
        select_capabilities(b" multi_ack\tthin-pack ofs-delta \n", false),
        b"multi_ack ofs-delta".to_vec()
    );
    assert_eq!(
        select_capabilities(b"report-status agent=git/2 quiet=1 ofs-delta", true),
        b"report-status agent=git/2 quiet=1".to_vec()
    );
    assert_eq!(select_capabilities(b"", false), b"".to_vec());
}

#[test]
fn fetch_requests() {
    let mut pos = 0;
    let adv = read_refs(&advertisement(), &mut pos).ok().unwrap();
    let (head, request) = fetch_request(&adv, "main").ok().unwrap();
    let low = A.to_lowercase();
    assert_eq!(hex::encode(head.bytes), low);
    let want = format!("want {low} multi_ack ofs-delta\n");
    let expected = format!("{:04x}{want}00000009done\n", want.len() + 4);
    assert_eq!(request, expected.into_bytes());
    assert_eq!(fetch_request(&adv, "other").err(), Some(TransportError::NoBranch));
    let mut bare = RefAdvertisement::new();
    bare.add_line(format!("{A} refs/heads/b").as_bytes()).unwrap();
    let (_, request) = fetch_request(&bare, "b").ok().unwrap();
    assert_eq!(request, format!("0032want {low}\n00000009done\n").into_bytes());
}

#[test]
fn acknowledgements_are_skipped() {
    assert_eq!(fetched_pack(b"0008NAK\nPACKdata"), b"PACKdata".to_vec());
    assert_eq!(fetched_pack(b"000bACK abc0008NAK\nPACKdata"), b"PACKdata".to_vec());
    assert_eq!(fetched_pack(b"PACKdata"), b"PACKdata".to_vec());
    assert_eq!(fetched_pack(b"0008ERR\nPACKdata"), b"0008ERR\nPACKdata".to_vec());
    assert_eq!(fetched_pack(b"ffffNAK\nPACK"), b"ffffNAK\nPACK".to_vec());
    assert_eq!(fetched_pack(b"short"), b"short".to_vec());
}

#[test]
fn push_requests() {
    let mut adv = RefAdvertisement::new();
    adv.add_line(format!("{A} refs/heads/main\0report-status delete-refs").as_bytes()).unwrap();
    let new = davgit::oid::ObjectId { bytes: [0xab; 20] };
    let request = push_request(&adv, "main", &new).ok().unwrap();
    let line = format!(
        "{} {} refs/heads/main\0report-status\n",
        A.to_lowercase(),
        "ab".repeat(20)
    );
    assert_eq!(request, format!("{:04x}{line}0000", line.len() + 4).into_bytes());
    let request = push_request(&adv, "new", &new).ok().unwrap();
    assert!(request.starts_with(format!("{:04x}{}", 115, "0".repeat(40)).as_bytes()));
    let branch = "x".repeat(70000);
    assert!(matches!(
        push_request(&adv, &branch, &new),
        Err(TransportError::Pkt(PktError::TooLong(_)))
    ));
}

#[test]
fn reports_on_pushes() {
    assert_eq!(push_outcome(b"unpack ok\nok refs/heads/main\n"), Ok(true));
    assert_eq!(push_outcome(b"ng refs/heads/main non-fast-forward"), Ok(false));
    assert_eq!(push_outcome(b"error: fetch first"), Ok(false));
    assert_eq!(push_outcome(b"NG refs/heads/main"), Ok(false));
    let refused = b"unpack ok\nng refs/heads/main non-fast-forward\n";
    assert_eq!(push_outcome(refused), Ok(false));
    assert_eq!(push_outcome(b"unpack ok\nok refs/heads/a\nng refs/heads/b hook\n"), Ok(false));
    assert_eq!(push_outcome(b"unpack ok\nok refs/heads/fetch first\n"), Ok(true));
    assert_eq!(push_outcome(b"unpack ok\n"), Ok(true));
    assert_eq!(push_outcome(b"unpack ok\nok refs/heads/ng x\n"), Ok(true));
    assert_eq!(push_outcome(b"\x01000eunpack ok\n0017ok refs/heads/main\n0000"), Ok(true));
    assert_eq!(push_outcome(b"\x01000eunpack ok\n001cng refs/heads/main hook\n0000"), Ok(false));
    assert_eq!(push_outcome(b"unpack index-pack failed\n"), Err(TransportError::Rejected));
    assert_eq!(push_outcome(b""), Err(TransportError::Rejected));
    let mut data = Vec::new();
    write_pkt_line(&mut data, b"unpack ").unwrap();
    write_pkt_line(&mut data, b"ok\n").unwrap();
    write_pkt_line(&mut data, b"ok refs/heads/main\n").unwrap();
    write_flush(&mut data);
    assert_eq!(push_outcome(&read_report(&data).unwrap()), Ok(true));
    let mut data = Vec::new();
    write_pkt_line(&mut data, b"unpack ok\n").unwrap();
    write_pkt_line(&mut data, b"ng refs/heads/main non-fast-forward\n").unwrap();
    write_flush(&mut data);
    assert_eq!(push_outcome(&read_report(&data).unwrap()), Ok(false));
    assert_eq!(read_report(b"000"), Ok(Vec::new()));
    assert_eq!(read_report(b"00xx"), Err(PktError::BadLength));
}

#[test]
fn failures_are_tried_three_times() {
    assert_eq!(after_attempt(1, true), Retry::Again(2));
    assert_eq!(after_attempt(2, true), Retry::Again(3));
    assert_eq!(after_attempt(3, true), Retry::Stop);
    assert_eq!(after_attempt(1, false), Retry::Stop);
    let mut attempts = 1;
    while let Retry::Again(n) = after_attempt(attempts, true) {
        attempts = n;
    }
    assert_eq!(attempts, 3);
}

#[test]
fn logins_are_tried_in_order() {
    let given = auth_attempts(Some("/k"), Some("/home/me"));
    assert_eq!(given.len(), 1);
    assert!(matches!(&given[0], Attempt::Key(k) if k == "/k"));
    let usual = auth_attempts(None, Some("/home/me"));
    assert_eq!(usual.len(), 7);
    assert!(matches!(usual[0], Attempt::Agent));
    let files: Vec<String> = usual[1..]
        .iter()
        .map(|a| match a {
            Attempt::KeyFile(p) => String::from_utf8(p.raw.clone()).unwrap(),
            _ => panic!("not a file"),
        })
        .collect();
    assert_eq!(files[0], "/home/me/.ssh/id_ed25519");
    assert_eq!(files[1], "/home/me/.ssh/id_rsa");
    assert_eq!(files[5], "/home/me/.ssh/id_dsa");
    assert_eq!(auth_attempts(None, None).len(), 1);
    assert_eq!(after_auth(0, 7, true), AuthStep::Done);
    assert_eq!(after_auth(0, 7, false), AuthStep::Try(1));
    assert_eq!(after_auth(6, 7, false), AuthStep::Failed);
    assert_eq!(after_auth(0, 0, false), AuthStep::Failed);
}

#[test]
fn sessions_have_defaults() {
    let t = parse_ssh_url("host:p").ok().unwrap();
    assert_eq!(session_user(&t), "git");
    assert_eq!(session_port(&t), 22);
    let t = parse_ssh_url("ssh://me@host:2022/p").ok().unwrap();
    assert_eq!(session_user(&t), "me");
    assert_eq!(session_port(&t), 2022);
    assert_eq!(service_command("git-upload-pack", "/p q"), "git-upload-pack '/p q'");
    assert_eq!(
        ssh_args(&t, "git-upload-pack", Some("/key")),
        vec![
            "-o", "StrictHostKeyChecking=no", "-o", "ConnectTimeout=10", "-p", "2022", "-i", "/key",
            "me@host", "git-upload-pack '/p'"
        ]
    );
    let t = parse_ssh_url("host:p").ok().unwrap();
    assert_eq!(ssh_args(&t, "git-receive-pack", None)[4..], ["host", "git-receive-pack '/p'"]);
}

#[test]
fn reports_come_in_bands() {
    assert!(uses_side_band(b"report-status side-band-64k agent=git/2"));
    assert!(!uses_side_band(b"report-status side-band"));
    let mut taken = Vec::new();
    write_pkt_line(&mut taken, b"unpack ok\n").unwrap();
    write_pkt_line(&mut taken, b"ok refs/heads/main\n").unwrap();
    write_flush(&mut taken);
    let mut refused = Vec::new();
    write_pkt_line(&mut refused, b"unpack ok\n").unwrap();
    write_pkt_line(&mut refused, b"ng refs/heads/main non-fast-forward\n").unwrap();
    write_flush(&mut refused);
    for (nested, expected, text) in [
        (taken, true, "unpack ok\nok refs/heads/main\n"),
        (refused, false, "unpack ok\nng refs/heads/main non-fast-forward\n"),
    ] {
        for cut in 1..nested.len() {
            let band = |part: &[u8]| -> Vec<u8> {
                let mut line = vec![1u8];
                line.extend_from_slice(part);
                line
            };
            let lines = vec![band(&nested[..cut]), b"\x02progress".to_vec(), band(&nested[cut..])];
            let report = report_text(&lines, true);
            assert_eq!(report, text.as_bytes().to_vec());
            assert_eq!(push_outcome(&report), Ok(expected));
        }
    }
    let lines = vec![b"unpack ok\n".to_vec(), b"ok refs/heads/main\n".to_vec()];
    assert_eq!(report_text(&lines, false), b"unpack ok\nok refs/heads/main\n".to_vec());
    assert_eq!(report_text(&[b"\x01xxxx".to_vec()], true), b"xxxx".to_vec());
}
