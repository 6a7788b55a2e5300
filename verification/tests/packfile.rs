use davgit::git::packfile::{
    OBJ_BLOB, OBJ_COMMIT, OBJ_REF_DELTA, OBJ_TREE, PackError, apply_delta, build_packfile,
    decode_size_type, encode_size_type, hash_object, parse_packfile,
};
use sha1::{Digest, Sha1};
use std::io::Write;

fn hex_oid(oid: &davgit::oid::ObjectId) -> String {
    hex::encode(oid.bytes)
}

fn sealed(mut pack: Vec<u8>) -> Vec<u8> {
    let digest: [u8; 20] = Sha1::digest(&pack).into();
    pack.extend_from_slice(&digest);
    pack
}

fn deflated(data: &[u8]) -> Vec<u8> {
    let mut e = flate2::write::ZlibEncoder::new(Vec::new(), flate2::Compression::default());
    e.write_all(data).unwrap();
    e.finish().unwrap()
}

fn header(count: u8) -> Vec<u8> {
    let mut v = b"PACK".to_vec();
    v.extend_from_slice(&[0, 0, 0, 2, 0, 0, 0, count]);
    v
}

#[test]
fn headers_have_the_known_bytes() {
    assert_eq!(encode_size_type(OBJ_BLOB, 0), vec![0x30]);
    assert_eq!(encode_size_type(OBJ_BLOB, 15), vec![0x3f]);
    assert_eq!(encode_size_type(OBJ_BLOB, 16), vec![0xb0, 0x01]);
    assert_eq!(encode_size_type(OBJ_COMMIT, 300), vec![0x9c, 0x12]);
    assert_eq!(encode_size_type(OBJ_TREE, 5000), vec![0xa8, 0xb8, 0x02]);
    assert_eq!(encode_size_type(11, 1), encode_size_type(3, 1));
}

#[test]
fn headers_are_read_back() {
    for size in [0usize, 1, 15, 16, 127, 128, 2047, 2048, 70000, usize::MAX] {
        for kind in 0u8..8 {
            let mut data = vec![9, 9];
            data.extend(encode_size_type(kind, size));
            let end = data.len();
            data.push(0x55);
            let mut pos = 2;
            assert_eq!(decode_size_type(&data, &mut pos), Ok((kind, size)));
            assert_eq!(pos, end);
        }
    }
}

#[test]
fn broken_headers_are_refused() {
    let mut pos = 0;
    assert_eq!(decode_size_type(&[], &mut pos), Err(PackError::Truncated));
    assert_eq!(decode_size_type(&[0xb0], &mut pos), Err(PackError::Truncated));
    assert_eq!(pos, 0);
    let long = vec![0xffu8; 40];
    assert_eq!(decode_size_type(&long, &mut pos), Err(PackError::NumberTooLong));
    let mut past = 7;
    assert_eq!(decode_size_type(&[1, 2], &mut past), Err(PackError::Truncated));
}

#[test]
fn ids_are_those_of_git() {
    assert_eq!(hex_oid(&hash_object(OBJ_BLOB, b"")), "e69de29bb2d1d6434b8b29ae775ad8c2e48c5391");
    assert_eq!(hex_oid(&hash_object(OBJ_TREE, b"")), "4b825dc642cb6eb9a060e54bf8d69288fbee4904");
    assert_eq!(
        hex_oid(&hash_object(OBJ_BLOB, b"hello\n")),
        "ce013625030ba8dba906f756967f9e9ca394464a"
    );
    assert_ne!(hash_object(OBJ_COMMIT, b"x").bytes, hash_object(OBJ_BLOB, b"x").bytes);
}

#[test]
fn deltas_copy_and_insert() {
    let base = b"the quick brown fox";
    // sizes 19 and 12; copy 4..9, insert "red", copy 15..19
    let delta = [19, 12, 0x91, 4, 5, 3, b'r', b'e', b'd', 0x91, 15, 4];
    assert_eq!(apply_delta(base, &delta).unwrap(), b"quickred fox".to_vec());
    // a command of zero does nothing, and a copy stops at the end of the base
    assert_eq!(apply_delta(b"abc", &[3, 3, 0, 0x91, 1, 200]).unwrap(), b"bc".to_vec());
    // no operands: offset zero, size 65536
    assert_eq!(apply_delta(b"abc", &[3, 3, 0x80]).unwrap(), b"abc".to_vec());
    // the second byte of the offset alone
    let big = vec![7u8; 300];
    assert_eq!(apply_delta(&big, &[0, 0, 0x92, 1, 2]).unwrap(), vec![7u8, 7]);
}

#[test]
fn broken_deltas_are_refused() {
    assert_eq!(apply_delta(b"abc", &[]), Err(PackError::Truncated));
    assert_eq!(apply_delta(b"abc", &[3]), Err(PackError::Truncated));
    assert_eq!(apply_delta(b"abc", &[3, 3, 0x91, 1]), Err(PackError::Truncated));
    assert_eq!(apply_delta(b"abc", &[3, 3, 5, b'x']), Err(PackError::Truncated));
    assert_eq!(apply_delta(b"abc", &[3, 3, 0x91, 4, 1]), Err(PackError::CopyOutOfRange));
    assert_eq!(apply_delta(b"abc", &[0xff; 30]), Err(PackError::NumberTooLong));
}

#[test]
fn packs_are_read_back() {
    let big = vec![b'z'; 100_000];
    let entries: Vec<(u8, &[u8])> = vec![
        (OBJ_BLOB, b"hello\n"),
        (OBJ_TREE, b""),
        (OBJ_COMMIT, b"not checked"),
        (OBJ_BLOB, &big),
        (OBJ_BLOB, b""),
    ];
    let pack = build_packfile(&entries).unwrap();
    assert_eq!(&pack[..12], b"PACK\x00\x00\x00\x02\x00\x00\x00\x05");
    let objects = parse_packfile(&pack).ok().unwrap();
    for (kind, content) in &entries {
        let oid = hash_object(*kind, content);
        assert_eq!(objects.get(&oid).unwrap().as_slice(), *content);
    }
    assert!(!objects.contains(&hash_object(OBJ_BLOB, b"other")));
}

#[test]
fn an_empty_pack_is_a_pack() {
    let pack = build_packfile(&[]).unwrap();
    assert_eq!(pack.len(), 32);
    assert_eq!(hex::encode(&pack[12..]), "029d08823bd8a8eab510ad6ac75c823cfd3ed31e");
    assert!(parse_packfile(&pack).is_ok());
}

fn error_of(data: &[u8]) -> PackError {
    match parse_packfile(data) {
        Ok(_) => panic!("the pack was read"),
        Err(e) => e,
    }
}

#[test]
fn broken_packs_are_refused() {
    assert_eq!(error_of(b""), PackError::BadMagic);
    assert_eq!(error_of(b"PACX\0\0\0\x02\0\0\0\0________________________"), PackError::BadMagic);
    assert_eq!(error_of(b"PACK\0\0\0\x04\0\0\0\0"), PackError::UnsupportedVersion(4));
    assert_eq!(error_of(b"PACK\0\0\0\x02\0\0\0\0"), PackError::Truncated);
    let mut pack = build_packfile(&[(OBJ_BLOB, b"x")]).unwrap();
    let last = pack.len() - 1;
    pack[last] ^= 1;
    assert_eq!(error_of(&pack), PackError::BadChecksum);
    let mut bad = header(1);
    bad.extend_from_slice(&[0x31, 1, 2, 3]);
    assert_eq!(error_of(&sealed(bad)), PackError::Zlib(13));
}

#[test]
fn offset_deltas_are_resolved() {
    let mut pack = header(2);
    pack.push(0x33);
    pack.extend(deflated(b"abc"));
    let start = pack.len();
    let delta = [3, 4, 0x90, 3, 1, b'd'];
    pack.push(0x60 | delta.len() as u8);
    pack.push((start - 12) as u8);
    pack.extend(deflated(&delta));
    let objects = parse_packfile(&sealed(pack)).ok().unwrap();
    assert_eq!(objects.get(&hash_object(OBJ_BLOB, b"abcd")).unwrap().as_slice(), b"abcd");
    let mut missing = header(1);
    missing.push(0x60 | delta.len() as u8);
    missing.push(5);
    missing.extend(deflated(&delta));
    assert_eq!(error_of(&sealed(missing)), PackError::MissingBase(12));
    let mut before = header(1);
    before.push(0x60 | delta.len() as u8);
    before.push(100);
    before.extend(deflated(&delta));
    assert_eq!(error_of(&sealed(before)), PackError::MissingBase(12));
}

#[test]
fn deltas_wait_for_their_base() {
    let base = hash_object(OBJ_BLOB, b"abc");
    let delta = [3, 4, 0x90, 3, 1, b'd'];
    let mut pack = header(3);
    pack.push((OBJ_REF_DELTA << 4) | delta.len() as u8);
    pack.extend_from_slice(&base.bytes);
    pack.extend(deflated(&delta));
    pack.push(0x33);
    pack.extend(deflated(b"abc"));
    // the base of this one never comes
    pack.push((OBJ_REF_DELTA << 4) | delta.len() as u8);
    pack.extend_from_slice(&[7; 20]);
    pack.extend(deflated(&delta));
    let objects = parse_packfile(&sealed(pack)).ok().unwrap();
    assert!(objects.contains(&base));
    assert_eq!(objects.get(&hash_object(OBJ_BLOB, b"abcd")).unwrap().as_slice(), b"abcd");
}

#[test]
fn runs_of_commands_are_joined() {
    let base = b"the quick brown fox";
    let head = [19u8, 5];
    let first = [0x91u8, 4, 5];
    let second = [3u8, b'r', b'e', b'd', 0x90, 3];
    let with = |parts: &[&[u8]]| -> Vec<u8> {
        let mut delta = head.to_vec();
        for part in parts {
            delta.extend_from_slice(part);
        }
        apply_delta(base, &delta).unwrap()
    };
    assert_eq!(with(&[]), Vec::<u8>::new());
    let mut joined = with(&[&first]);
    joined.extend_from_slice(&with(&[&second]));
    assert_eq!(with(&[&first, &second]), joined);
    assert_eq!(joined, b"quickredthe".to_vec());
    let mut other = vec![0x80, 1, 0];
    other.extend_from_slice(&first);
    assert_eq!(apply_delta(base, &other).unwrap(), b"quick".to_vec());
}
