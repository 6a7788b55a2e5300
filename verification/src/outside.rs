//! What the library takes from outside crates and from parts of std: SHA-1,
//! zlib, UTF-8 and the Git object codec. The contracts here are taken on
//! trust; everything else in the library is proved from them.

use std::io::{Read, Write};

use gix_object::WriteTo;
use sha1::Digest;
use vstd::prelude::*;

use crate::bytes::{decimal, position, text};
use crate::git::entry::{
    EntryMode, EntryModel, TreeEntry, clash_free, given, models, octal_digits, ordered,
    regular_entries, tree_bytes,
};
use crate::oid::ObjectId;

verus! {

// ---------------------------------------------------------------------------
// SHA-1
// ---------------------------------------------------------------------------

/// The SHA-1 digest of a byte string.
pub uninterp spec fn sha1_of(data: Seq<u8>) -> [u8; 20];

/// `sha1::Sha1::digest`: the digest of `data`, twenty bytes.
#[verifier::external_body]
pub(crate) fn sha1_digest(data: &[u8]) -> (r: [u8; 20])
    ensures
        r@ == sha1_of(data@)@,
{
    sha1::Sha1::digest(data).into()
}

// ---------------------------------------------------------------------------
// zlib
// ---------------------------------------------------------------------------

/// What the zlib stream at the start of `data` unpacks to, and how many bytes
/// of `data` the stream takes up; nothing where no whole, sound stream stands
/// there.
pub uninterp spec fn zlib_inflated(data: Seq<u8>) -> Option<(Seq<u8>, nat)>;

/// The zlib stream that `content` is packed into.
pub uninterp spec fn zlib_deflated(content: Seq<u8>) -> Option<Seq<u8>>;

/// A stream that was unpacked, and the number of bytes that it took up.
pub struct Inflated {
    pub content: Vec<u8>,
    pub consumed: usize,
}

/// `flate2::bufread::ZlibDecoder`, read to its end: unpacks the stream at the
/// start of `data` and tells by `total_in` how much of `data` it read, which
/// is no more than there is.
#[verifier::external_body]
pub(crate) fn inflate(data: &[u8]) -> (r: Option<Inflated>)
    ensures
        match r {
            Some(x) => zlib_inflated(data@) == Some((x.content@, x.consumed as nat)) && x.consumed
                <= data@.len(),
            None => zlib_inflated(data@) is None,
        },
{
    let mut decoder = flate2::bufread::ZlibDecoder::new(data);
    let mut content = Vec::new();
    decoder.read_to_end(&mut content).ok()?;
    Some(Inflated { content, consumed: decoder.total_in() as usize })
}

/// `flate2::write::ZlibEncoder` over a `Vec`, at the default level: packs
/// `content` into one stream. The decoder gets `content` back from the stream,
/// whatever bytes follow it, and takes up the stream's bytes and no others.
#[verifier::external_body]
pub(crate) fn deflate(content: &[u8]) -> (r: Option<Vec<u8>>)
    ensures
        match r {
            Some(out) => zlib_deflated(content@) == Some(out@) && forall|rest: Seq<u8>|
                #[trigger]
                zlib_inflated(out@ + rest) == Some((content@, out@.len())),
            None => zlib_deflated(content@) is None,
        },
{
    let mut encoder = flate2::write::ZlibEncoder::new(Vec::new(), flate2::Compression::default());
    encoder.write_all(content).ok()?;
    encoder.finish().ok()
}

// ---------------------------------------------------------------------------
// Tree objects
// ---------------------------------------------------------------------------

/// The items that a tree object decodes to where it is not made of regular
/// entries: its entries in their order, and nothing for a place where no entry
/// can be read.
pub uninterp spec fn decoded_tree(data: Seq<u8>) -> Seq<Option<EntryModel>>;

/// The bytes of a tree object with entries that are not all regular.
pub uninterp spec fn encoded_tree(entries: Seq<EntryModel>) -> Option<Seq<u8>>;

/// The bytes of a tree object with these entries, where they can be written.
pub open spec fn tree_object(entries: Seq<EntryModel>) -> Option<Seq<u8>> {
    if regular_entries(entries) {
        Some(tree_bytes(entries))
    } else {
        encoded_tree(given(entries))
    }
}

/// Items that are all there.
pub open spec fn present(entries: Seq<EntryModel>) -> Seq<Option<EntryModel>> {
    entries.map_values(|e: EntryModel| Some(e))
}

/// The regular entries that a tree object is made of.
pub open spec fn whole_tree(data: Seq<u8>) -> Option<Seq<EntryModel>> {
    if exists|es: Seq<EntryModel>| regular_entries(es) && #[trigger] tree_bytes(es) == data {
        Some(choose|es: Seq<EntryModel>| regular_entries(es) && #[trigger] tree_bytes(es) == data)
    } else {
        None
    }
}

/// The items of a tree object: its entries in their order, and nothing for a
/// place where no entry can be read.
pub open spec fn tree_items(data: Seq<u8>) -> Seq<Option<EntryModel>> {
    match whole_tree(data) {
        Some(es) => present(es),
        None => decoded_tree(data),
    }
}

/// What a decoded list of items is.
pub open spec fn item_models(items: Seq<Option<TreeEntry>>) -> Seq<Option<EntryModel>> {
    items.map_values(
        |item: Option<TreeEntry>|
            match item {
                Some(e) => Some(e@),
                None => None,
            },
    )
}

/// What holds of every entry that a tree object decodes to: its mode is octal
/// digits, its name holds no NUL, its id is twenty bytes long.
pub open spec fn decoded_entry(e: EntryModel) -> bool {
    octal_digits(e.octal) && position(e.name, 0) is None && e.oid.len() == 20
}

/// `gix_object::TreeRefIter::from_bytes`, walked to its end: the entries of
/// the tree object `data`, each mode as the digits that `EntryMode::as_bytes`
/// gives. What is made of regular entries decodes to them. Every entry has a
/// mode of octal digits, a name without NUL and an id of twenty bytes.
#[verifier::external_body]
pub(crate) fn decode_tree(data: &[u8]) -> (r: Vec<Option<TreeEntry>>)
    ensures
        item_models(r@) == (match whole_tree(data@) {
            Some(es) => present(es),
            None => decoded_tree(data@),
        }),
        forall|i: int|
            0 <= i < r@.len() ==> match #[trigger] r@[i] {
                Some(e) => decoded_entry(e@),
                None => true,
            },
{
    gix_object::TreeRefIter::from_bytes(data, gix_hash::Kind::Sha1)
        .map(|item| {
            item.ok().map(|e| TreeEntry {
                mode: EntryMode { octal: e.mode.as_bytes(&mut Default::default()).to_vec() },
                filename: e.filename.to_vec(),
                oid: ObjectId::from_bytes(e.oid.as_bytes()),
            })
        })
        .collect()
}

/// No name holds a NUL.
pub open spec fn clear_names(entries: Seq<EntryModel>) -> bool {
    forall|i: int| 0 <= i < entries.len() ==> position((#[trigger] entries[i]).name, 0) is None
}

/// `write_to` of `gix_object::Tree`: the bytes of the tree object with these
/// entries. Regular entries are written one after the other; a name with a NUL
/// in it is refused.
#[verifier::external_body]
pub(crate) fn encode_tree(entries: &Vec<TreeEntry>) -> (r: Option<Vec<u8>>)
    requires
        ordered(models(entries@)),
        clash_free(models(entries@)),
        forall|i: int| 0 <= i < entries@.len() ==> octal_digits((#[trigger] entries@[i]).mode@),
    ensures
        match r {
            Some(out) => if regular_entries(models(entries@)) {
                out@ == tree_bytes(models(entries@))
            } else {
                encoded_tree(models(entries@)) == Some(out@)
            },
            None => !regular_entries(models(entries@)) && encoded_tree(models(entries@)) is None,
        },
        r is None <==> !clear_names(models(entries@)),
{
    let mut out = Vec::new();
    let convert = |e: &TreeEntry| gix_object::tree::Entry {
        mode: gix_object::tree::EntryMode::from_bytes(&e.mode.octal).unwrap(),
        filename: e.filename.clone().into(),
        oid: gix_hash::ObjectId::from(e.oid.bytes),
    };
    let tree = gix_object::Tree { entries: entries.iter().map(convert).collect() };
    tree.write_to(&mut out).ok()?;
    Some(out)
}

// ---------------------------------------------------------------------------
// Commit objects
// ---------------------------------------------------------------------------

/// The id of the tree that a commit object names where it is no plain commit.
pub uninterp spec fn commit_tree_of(data: Seq<u8>) -> Option<Seq<u8>>;

/// The lower-case digit of a number below sixteen.
pub open spec fn hex_digit(n: int) -> u8 {
    if n < 10 {
        (48 + n) as u8
    } else {
        (87 + n) as u8
    }
}

/// The lower-case hexadecimal digits of a byte string.
pub open spec fn hex_of(data: Seq<u8>) -> Seq<u8> {
    Seq::new(
        2 * data.len(),
        |i: int|
            if i % 2 == 0 {
                hex_digit(data[i / 2] as int / 16)
            } else {
                hex_digit(data[i / 2] as int % 16)
            },
    )
}

/// The decimal digits of a number that may be negative.
pub open spec fn signed_decimal(n: int) -> Seq<u8> {
    if n < 0 {
        seq![45u8] + decimal((-n) as nat)
    } else {
        decimal(n as nat)
    }
}

/// A name or an address that a commit can hold: no `<`, no `>`, no newline.
pub open spec fn plain_token(s: Seq<u8>) -> bool {
    position(s, 60) is None && position(s, 62) is None && position(s, 10) is None
}

/// What an id that may be absent is.
pub open spec fn oid_model(oid: Option<&ObjectId>) -> Option<Seq<u8>> {
    match oid {
        Some(p) => Some(p@),
        None => None,
    }
}

/// Who made a commit and when, in UTC.
pub open spec fn signature(name: Seq<u8>, email: Seq<u8>, seconds: int) -> Seq<u8> {
    name + text(" <") + email + text("> ") + signed_decimal(seconds) + text(" +0000\n")
}

/// The bytes of a commit object.
pub open spec fn commit_text(
    tree: Seq<u8>,
    parent: Option<Seq<u8>>,
    name: Seq<u8>,
    email: Seq<u8>,
    seconds: int,
    message: Seq<u8>,
) -> Seq<u8> {
    let parents = match parent {
        Some(p) => text("parent ") + hex_of(p) + text("\n"),
        None => Seq::empty(),
    };
    text("tree ") + hex_of(tree) + text("\n") + parents + text("author ") + signature(
        name,
        email,
        seconds,
    ) + text("committer ") + signature(name, email, seconds) + text("\n") + message
}

/// A commit with one author, who is the committer too, and at most one parent.
pub struct CommitModel {
    pub tree: Seq<u8>,
    pub parent: Option<Seq<u8>>,
    pub name: Seq<u8>,
    pub email: Seq<u8>,
    pub seconds: int,
    pub message: Seq<u8>,
}

impl CommitModel {
    /// The bytes of the commit object.
    pub open spec fn bytes(self) -> Seq<u8> {
        commit_text(self.tree, self.parent, self.name, self.email, self.seconds, self.message)
    }

    /// The ids are twenty bytes long, and who made it is told in plain tokens.
    pub open spec fn plain(self) -> bool {
        &&& self.tree.len() == 20
        &&& self.parent matches Some(p) ==> p.len() == 20
        &&& plain_token(self.name)
        &&& plain_token(self.email)
    }
}

/// The tree that a plain commit names.
pub open spec fn plain_commit_tree(data: Seq<u8>) -> Option<Seq<u8>> {
    if exists|c: CommitModel| c.plain() && #[trigger] c.bytes() == data {
        Some((choose|c: CommitModel| c.plain() && #[trigger] c.bytes() == data).tree)
    } else {
        None
    }
}

/// The id of the tree that a commit object names, where the object can be
/// read.
pub open spec fn commit_tree(data: Seq<u8>) -> Option<Seq<u8>> {
    match plain_commit_tree(data) {
        Some(tree) => Some(tree),
        None => commit_tree_of(data),
    }
}

/// `gix_object::CommitRef::from_bytes` and its `tree`: the id of the tree that
/// a commit object names, where the object can be read. A plain commit can be,
/// and names its tree.
#[verifier::external_body]
pub(crate) fn read_commit_tree(data: &[u8]) -> (r: Option<ObjectId>)
    ensures
        match r {
            Some(oid) => match plain_commit_tree(data@) {
                Some(tree) => oid@ == tree,
                None => commit_tree_of(data@) == Some(oid@),
            },
            None => plain_commit_tree(data@) is None && commit_tree_of(data@) is None,
        },
{
    let commit = gix_object::CommitRef::from_bytes(data, gix_hash::Kind::Sha1).ok()?;
    Some(ObjectId::from_bytes(commit.tree().as_bytes()))
}

/// `write_to` of `gix_object::Commit`, with one author who is the committer
/// too, and no more headers: the text of the commit. A name or an address that
/// is no plain token is refused.
#[verifier::external_body]
pub(crate) fn write_commit(
    tree: &ObjectId,
    parent: Option<&ObjectId>,
    name: &str,
    email: &str,
    seconds: i64,
    message: &str,
) -> (r: Option<Vec<u8>>)
    ensures
        r is Some <==> (plain_token(text(name)) && plain_token(text(email))),
        match r {
            Some(out) => out@ == commit_text(
                tree@,
                oid_model(parent),
                text(name),
                text(email),
                seconds as int,
                text(message),
            ),
            None => true,
        },
{
    let time = gix_object::date::Time { seconds, offset: 0 };
    let author = gix_actor::Signature { name: name.into(), email: email.into(), time };
    let commit = gix_object::Commit {
        tree: gix_hash::ObjectId::from(tree.bytes),
        parents: parent.map(|p| gix_hash::ObjectId::from(p.bytes)).into_iter().collect(),
        author: author.clone(),
        committer: author,
        encoding: None,
        message: message.into(),
        extra_headers: Vec::new(),
    };
    let mut out = Vec::new();
    commit.write_to(&mut out).ok()?;
    Some(out)
}

/// `elapsed` of `std::time::UNIX_EPOCH`: whole seconds, and the nanoseconds
/// beyond them; none of either where the clock stands before it. Nothing is
/// known of the result: it is the time.
#[verifier::external_body]
pub(crate) fn clock() -> (r: (u64, u32)) {
    let elapsed = std::time::UNIX_EPOCH.elapsed().unwrap_or_default();
    (elapsed.as_secs(), elapsed.subsec_nanos())
}

// ---------------------------------------------------------------------------
// Text
// ---------------------------------------------------------------------------

/// `std::str::from_utf8`: the text that these bytes are, where they are valid
/// UTF-8.
#[verifier::external_body]
pub(crate) fn utf8_text(data: &[u8]) -> (r: Option<String>)
    ensures
        r is Some <==> vstd::utf8::valid_utf8(data@),
        r matches Some(s) ==> s@ == vstd::utf8::decode_utf8(data@) && vstd::utf8::encode_utf8(s@)
            == data@,
{
    std::str::from_utf8(data).ok().map(String::from)
}

/// `hex::encode`: two lower-case digits for every byte.
#[verifier::external_body]
pub(crate) fn hex_encode(data: &[u8]) -> (r: Vec<u8>)
    ensures
        r@ == hex_of(data@),
{
    hex::encode(data).into_bytes()
}

/// The number that a hexadecimal digit of either case stands for.
pub open spec fn hex_value(b: u8) -> Option<int> {
    if 48 <= b <= 57 {
        Some(b - 48)
    } else if 97 <= b <= 102 {
        Some(b - 87)
    } else if 65 <= b <= 70 {
        Some(b - 55)
    } else {
        None
    }
}

/// Hexadecimal digits, two for every byte.
pub open spec fn hex_pairs(digits: Seq<u8>) -> bool {
    digits.len() % 2 == 0 && forall|i: int|
        0 <= i < digits.len() ==> hex_value(#[trigger] digits[i]) is Some
}

/// `hex::decode`: the bytes that hexadecimal digits of either case stand for,
/// where there are two for every byte.
#[verifier::external_body]
pub(crate) fn hex_decode(digits: &[u8]) -> (r: Option<Vec<u8>>)
    ensures
        r is Some <==> hex_pairs(digits@),
        match r {
            Some(out) => 2 * out@.len() == digits@.len() && forall|i: int|
                0 <= i < out@.len() ==> (#[trigger] out@[i]) as int == 16 * hex_value(
                    digits@[2 * i],
                )->0 + hex_value(digits@[2 * i + 1])->0,
            None => true,
        },
{
    hex::decode(digits).ok()
}

/// The text of bytes that are not UTF-8, with a replacement character for what
/// is not among them.
pub uninterp spec fn utf8_lossy(data: Seq<u8>) -> Seq<u8>;

/// The text that bytes are, as it can be told.
pub open spec fn lossy(data: Seq<u8>) -> Seq<u8> {
    if vstd::utf8::valid_utf8(data) {
        data
    } else {
        utf8_lossy(data)
    }
}

/// `String::from_utf8_lossy`, as bytes. What is UTF-8 stays as it is.
#[verifier::external_body]
pub(crate) fn lossy_text(data: &[u8]) -> (r: Vec<u8>)
    ensures
        r@ == if vstd::utf8::valid_utf8(data@) {
            data@
        } else {
            utf8_lossy(data@)
        },
{
    String::from_utf8_lossy(data).into_owned().into_bytes()
}

/// A path as it is written for people: in double quotes, with what cannot be
/// shown escaped.
pub uninterp spec fn path_debug(path: Seq<char>) -> Seq<char>;

/// The `Debug` form of `std::path::Path`.
#[verifier::external_body]
pub(crate) fn debug_path(path: &str) -> (r: String)
    ensures
        r@ == path_debug(path@),
{
    format!("{:?}", std::path::Path::new(path))
}

} // verus!
