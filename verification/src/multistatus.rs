//! What a listing tells: every entry of a directory once, and what stands for
//! it in the XML.

use vstd::prelude::*;
use vstd::utf8::{encode_utf8, valid_utf8};

use crate::answers::{
    ends_in_marker, has_any, has_directory, just, lemma_file_is_its_object, lemma_marker, points_to,
    reads_as, says,
};
use crate::bytes::{decimal, holds_text, lemma_position, position, text};
use crate::outside::{hex_of, sha1_of};
use crate::git::repo::RepoModel;
use crate::handler::{
    RequestModel, ResourceModel, StepModel, depth_of, href_of, le_bytes, lock_answer, lock_token,
    media_type, multistatus_xml, propfind_answer, propfind_resources, proppatch_answer,
    request_step, resource_xml, resources_xml, shown, unlock_answer, xml_byte, xml_escaped,
};
use crate::path::{components_of, extension_of, joined, last_dot};

verus! {

// ---------------------------------------------------------------------------
// What is told of
// ---------------------------------------------------------------------------

/// What a directory lists: names, whether they are directories, and sizes.
pub type Listing = Seq<(Seq<char>, bool, nat)>;

/// The entry is a marker file, which is not told of.
pub open spec fn is_marker(entry: (Seq<char>, bool, nat)) -> bool {
    encode_utf8(entry.0) == text(".DAV")
}

/// How many of the first `n` entries are told of.
pub open spec fn told_of(listing: Listing, n: int) -> int
    decreases n,
{
    if n <= 0 {
        0
    } else {
        told_of(listing, n - 1) + if is_marker(listing[n - 1]) {
            0int
        } else {
            1
        }
    }
}

proof fn lemma_told_of_grows(listing: Listing, i: int, n: int)
    requires
        0 <= i <= n,
    ensures
        0 <= told_of(listing, i) <= told_of(listing, n),
        i < n && !is_marker(listing[i]) ==> told_of(listing, i) < told_of(listing, n),
    decreases n,
{
    if n > 0 {
        if i < n {
            lemma_told_of_grows(listing, i, n - 1);
        } else {
            lemma_told_of_grows(listing, n - 1, n - 1);
        }
    }
}

proof fn lemma_told_of_front(listing: Listing, n: int)
    requires
        0 <= n <= listing.drop_last().len(),
        listing.len() > 0,
    ensures
        told_of(listing.drop_last(), n) == told_of(listing, n),
    decreases n,
{
    if n > 0 {
        lemma_told_of_front(listing, n - 1);
    }
}

proof fn lemma_shown(path: Seq<u8>, listing: Listing)
    ensures
        shown(path, listing).len() == told_of(listing, listing.len() as int),
        forall|i: int|
            0 <= i < listing.len() && !is_marker(#[trigger] listing[i]) ==> 0 <= told_of(listing, i)
                < shown(path, listing).len() && shown(path, listing)[told_of(listing, i)] == (
            ResourceModel {
                path: joined(path, encode_utf8(listing[i].0)),
                is_dir: listing[i].1,
                len: listing[i].2 as u64,
            }),
    decreases listing.len(),
{
    if listing.len() > 0 {
        let front = listing.drop_last();
        let n = front.len() as int;
        lemma_shown(path, front);
        lemma_told_of_front(listing, n);
        assert(listing[n] == listing.last());
        assert forall|i: int| 0 <= i < listing.len() && !is_marker(#[trigger] listing[i]) implies 0
            <= told_of(listing, i) < shown(path, listing).len() && shown(path, listing)[told_of(
            listing,
            i,
        )] == (ResourceModel {
            path: joined(path, encode_utf8(listing[i].0)),
            is_dir: listing[i].1,
            len: listing[i].2 as u64,
        }) by {
            lemma_told_of_grows(listing, i, n + 1);
            if i < n {
                assert(front[i] == listing[i]);
                lemma_told_of_front(listing, i);
                lemma_told_of_grows(front, i, n);
            }
        }
    }
}

/// A listing is complete: it tells of the directory itself, first, and behind
/// it of each entry but the marker files, once and in their order, with its
/// path, its kind and its size; and of nothing else.
pub proof fn lemma_listing_is_complete(
    m: RepoModel,
    path: Seq<u8>,
    depth: Option<Seq<u8>>,
    listing: Listing,
)
    requires
        has_directory(m, components_of(path)),
        depth != Some(text("0")),
        m.listing_at(components_of(path)) matches Ok(l) && l == listing,
    ensures
        ({
            let rs = propfind_resources(m, path, depth);
            &&& rs.len() == 1 + told_of(listing, listing.len() as int)
            &&& rs[0] == (ResourceModel { path, is_dir: true, len: 0 })
            &&& forall|i: int|
                0 <= i < listing.len() && !is_marker(#[trigger] listing[i]) ==> 1 <= 1 + told_of(
                    listing,
                    i,
                ) < rs.len() && rs[1 + told_of(listing, i)] == (ResourceModel {
                    path: joined(path, encode_utf8(listing[i].0)),
                    is_dir: listing[i].1,
                    len: listing[i].2 as u64,
                })
        }),
{
    lemma_depths();
    lemma_file_is_its_object(m, components_of(path));
    lemma_shown(path, listing);
    let rs = propfind_resources(m, path, depth);
    let below = shown(path, listing);
    assert(rs.len() == 1 + below.len());
    assert forall|i: int| 0 <= i < listing.len() && !is_marker(#[trigger] listing[i]) implies 1 <= 1
        + told_of(listing, i) < rs.len() && rs[1 + told_of(listing, i)] == (ResourceModel {
        path: joined(path, encode_utf8(listing[i].0)),
        is_dir: listing[i].1,
        len: listing[i].2 as u64,
    }) by {
        assert(rs[1 + told_of(listing, i)] == below[told_of(listing, i)]);
    }
}

proof fn lemma_depths()
    ensures
        text("0") == seq![48u8],
        text("1") == seq![49u8],
        text("infinity").len() == 8,
{
    reveal_strlit("0");
    vstd::utf8::is_ascii_chars_encode_utf8("0"@);
    assert(text("0") =~= seq![48u8]);
    reveal_strlit("1");
    vstd::utf8::is_ascii_chars_encode_utf8("1"@);
    assert(text("1") =~= seq![49u8]);
    reveal_strlit("infinity");
    vstd::utf8::is_ascii_chars_encode_utf8("infinity"@);
}

/// At a depth of zero only the path itself is told of, and so it is of a file
/// at any depth: with its size.
pub proof fn lemma_only_itself(m: RepoModel, path: Seq<u8>, depth: Option<Seq<u8>>)
    requires
        depth == Some(text("0")) || !has_directory(m, components_of(path)),
    ensures
        ({
            let rs = propfind_resources(m, path, depth);
            let names = components_of(path);
            &&& rs.len() == 1
            &&& rs[0].path == path
            &&& rs[0].is_dir == has_directory(m, names)
            &&& forall|data: Seq<u8>|
                !has_directory(m, names) && #[trigger] reads_as(m, names, data) ==> rs[0].len
                    == data.len() as u64
            &&& has_directory(m, names) ==> rs[0].len == 0
        }),
{
    lemma_depths();
    lemma_file_is_its_object(m, components_of(path));
}

// ---------------------------------------------------------------------------
// The answer
// ---------------------------------------------------------------------------

/// What stands for a resource: its path, and whether it is a directory or a
/// file with a size and a type.
pub open spec fn response_text(r: ResourceModel) -> Seq<u8> {
    text("<D:response>") + text("<D:href>") + xml_escaped(href_of(r.path)) + text("</D:href>") + text(
        "<D:propstat><D:prop>",
    ) + (if r.is_dir {
        text("<D:getcontenttype>httpd/unix-directory</D:getcontenttype>") + text(
            "<D:resourcetype><D:collection/></D:resourcetype>",
        )
    } else {
        text("<D:getcontentlength>") + decimal(r.len as nat) + text("</D:getcontentlength>") + text(
            "<D:getcontenttype>",
        ) + media_type(extension_of(components_of(r.path))) + text("</D:getcontenttype>") + text(
            "<D:resourcetype/>",
        )
    }) + text("<D:lockdiscovery/>") + text("<D:supportedlock/>") + text(
        "</D:prop><D:status>HTTP/1.1 200 OK</D:status></D:propstat>",
    ) + text("</D:response>")
}

/// The texts of the resources from the `k`th on, one after the other.
pub open spec fn texts_from(rs: Seq<ResourceModel>, k: int) -> Seq<u8>
    decreases rs.len() - k,
{
    if k >= rs.len() {
        Seq::empty()
    } else {
        response_text(rs[k]) + texts_from(rs, k + 1)
    }
}

proof fn lemma_texts_front(rs: Seq<ResourceModel>, k: int)
    requires
        rs.len() > 0,
        0 <= k < rs.len(),
    ensures
        texts_from(rs, k) == texts_from(rs.drop_last(), k) + response_text(rs.last()),
    decreases rs.len() - k,
{
    let front = rs.drop_last();
    if k < front.len() {
        lemma_texts_front(rs, k + 1);
        assert(front[k] == rs[k]);
        assert(texts_from(rs, k) =~= texts_from(front, k) + response_text(rs.last()));
    } else {
        assert(texts_from(rs, k + 1) =~= Seq::empty());
        assert(texts_from(front, k) =~= Seq::empty());
        assert(texts_from(rs, k) =~= texts_from(front, k) + response_text(rs.last()));
    }
}

proof fn lemma_resources_in_turn(rs: Seq<ResourceModel>)
    ensures
        resources_xml(rs) == texts_from(rs, 0),
    decreases rs.len(),
{
    if rs.len() > 0 {
        lemma_resources_in_turn(rs.drop_last());
        lemma_texts_front(rs, 0);
        assert(resource_xml(rs.last()) =~= response_text(rs.last()));
    }
}

/// The XML of a listing: what it begins with, the text of each resource in
/// turn, and what it ends with.
pub proof fn lemma_multistatus_in_turn(rs: Seq<ResourceModel>)
    ensures
        multistatus_xml(rs) == text("<?xml version=\"1.0\" encoding=\"utf-8\"?>") + text(
            "<D:multistatus xmlns:D=\"DAV:\">",
        ) + texts_from(rs, 0) + text("</D:multistatus>"),
{
    lemma_resources_in_turn(rs);
}

proof fn lemma_propfind_asks(m: RepoModel, req: RequestModel, path: Seq<u8>)
    requires
        req.method == text("PROPFIND"),
        points_to(req, path),
    ensures
        request_step(m, req) == StepModel::Reply(propfind_answer(m, path, req.depth)),
{
    crate::answers::lemma_texts();
    assert(req.path.drop_first() =~= path);
}

/// PROPFIND of what is there is answered with the text of each resource that it
/// tells of; of what is not there, or of a marker file, with 404.
pub proof fn lemma_propfind_lists(m: RepoModel, req: RequestModel, path: Seq<u8>)
    requires
        req.method == text("PROPFIND"),
        points_to(req, path),
    ensures
        ({
            let names = components_of(path);
            let step = request_step(m, req);
            if ends_in_marker(names) || !has_any(m, names) {
                just(step, 404)
            } else {
                step matches StepModel::Reply(r) && {
                    &&& r.status == 207
                    &&& r.headers == seq![
                        (text("Content-Type"), text("application/xml; charset=utf-8")),
                        (text("DAV"), text("1, 2, 3")),
                    ]
                    &&& r.body == text("<?xml version=\"1.0\" encoding=\"utf-8\"?>") + text(
                        "<D:multistatus xmlns:D=\"DAV:\">",
                    ) + texts_from(propfind_resources(m, path, req.depth), 0) + text(
                        "</D:multistatus>",
                    )
                }
            }
        }),
{
    lemma_propfind_asks(m, req, path);
    lemma_marker(components_of(path));
    lemma_file_is_its_object(m, components_of(path));
    lemma_multistatus_in_turn(propfind_resources(m, path, req.depth));
}

// ---------------------------------------------------------------------------
// Text in XML
// ---------------------------------------------------------------------------

/// Text is escaped byte by byte.
pub proof fn lemma_escaped_joined(a: Seq<u8>, b: Seq<u8>)
    ensures
        xml_escaped(a + b) == xml_escaped(a) + xml_escaped(b),
    decreases b.len(),
{
    if b.len() == 0 {
        assert(a + b =~= a);
        assert(xml_escaped(a + b) =~= xml_escaped(a) + xml_escaped(b));
    } else {
        lemma_escaped_joined(a, b.drop_last());
        assert((a + b).drop_last() =~= a + b.drop_last());
        assert((a + b).last() == b.last());
        assert(xml_escaped(a + b) =~= xml_escaped(a) + xml_escaped(b));
    }
}

proof fn lemma_escaped_one(b: u8)
    ensures
        xml_escaped(seq![b]) == xml_byte(b),
{
    let s = seq![b];
    assert(s.drop_last() =~= Seq::<u8>::empty());
    assert(xml_escaped(Seq::<u8>::empty()) =~= Seq::<u8>::empty());
    assert(s.last() == b);
    assert(xml_escaped(s) =~= xml_byte(b));
}

/// Of a single byte only `&`, `<` and `>` are told otherwise.
pub proof fn lemma_escaped_byte(b: u8)
    ensures
        b == 38 ==> xml_escaped(seq![b]) == seq![38u8, 97u8, 109u8, 112u8, 59u8],
        b == 60 ==> xml_escaped(seq![b]) == seq![38u8, 108u8, 116u8, 59u8],
        b == 62 ==> xml_escaped(seq![b]) == seq![38u8, 103u8, 116u8, 59u8],
        b != 38 && b != 60 && b != 62 ==> xml_escaped(seq![b]) == seq![b],
{
    lemma_escaped_one(b);
    reveal_strlit("&amp;");
    vstd::utf8::is_ascii_chars_encode_utf8("&amp;"@);
    assert(text("&amp;") =~= seq![38u8, 97u8, 109u8, 112u8, 59u8]);
    reveal_strlit("&lt;");
    vstd::utf8::is_ascii_chars_encode_utf8("&lt;"@);
    assert(text("&lt;") =~= seq![38u8, 108u8, 116u8, 59u8]);
    reveal_strlit("&gt;");
    vstd::utf8::is_ascii_chars_encode_utf8("&gt;"@);
    assert(text("&gt;") =~= seq![38u8, 103u8, 116u8, 59u8]);
}

/// Text without `&`, `<` and `>` is told as it is.
pub proof fn lemma_plain_text_stays(s: Seq<u8>)
    requires
        forall|i: int| 0 <= i < s.len() ==> #[trigger] s[i] != 38 && s[i] != 60 && s[i] != 62,
    ensures
        xml_escaped(s) == s,
    decreases s.len(),
{
    if s.len() > 0 {
        let front = s.drop_last();
        assert forall|i: int| 0 <= i < front.len() implies #[trigger] front[i] != 38 && front[i]
            != 60 && front[i] != 62 by {
            assert(front[i] == s[i]);
        }
        lemma_plain_text_stays(front);
        assert(s[s.len() - 1] == s.last());
        assert(front.push(s.last()) =~= s);
        assert(xml_escaped(s) =~= s);
    }
}

/// No markup comes out of text.
pub proof fn lemma_escaped_has_no_markup(s: Seq<u8>, i: int)
    requires
        0 <= i < xml_escaped(s).len(),
    ensures
        xml_escaped(s)[i] != 60,
        xml_escaped(s)[i] != 62,
    decreases s.len(),
{
    let front = xml_escaped(s.drop_last());
    if i < front.len() {
        lemma_escaped_has_no_markup(s.drop_last(), i);
    } else {
        let b = s.last();
        lemma_escaped_byte(b);
        lemma_escaped_one(b);
        assert(xml_escaped(s)[i] == xml_byte(b)[i - front.len()]);
    }
}

/// The path of a resource is told behind a `/`, as it is where it is UTF-8.
pub proof fn lemma_href(path: Seq<u8>)
    ensures
        href_of(path).len() > 0,
        href_of(path)[0] == 47,
        valid_utf8(path) ==> href_of(path).drop_first() == path,
{
    if valid_utf8(path) {
        assert(href_of(path).drop_first() =~= path);
    }
}

// ---------------------------------------------------------------------------
// Types of files
// ---------------------------------------------------------------------------

/// The extension of a name is what follows its last dot, where something
/// stands before that dot.
pub proof fn lemma_extension(parts: Seq<Seq<u8>>, stem: Seq<u8>, ending: Seq<u8>)
    requires
        parts.len() > 0,
        parts.last() == stem + seq![46u8] + ending,
        stem.len() > 0,
        position(ending, 46) is None,
        parts.last() != seq![46u8, 46u8],
    ensures
        extension_of(parts) == Some(ending),
{
    let name = parts.last();
    assert(name.len() >= 2);
    assert(seq![47u8].len() == 1 && seq![46u8].len() == 1);
    lemma_last_dot(stem, ending);
    assert(name.skip(stem.len() + 1int) =~= ending);
}

proof fn lemma_last_dot(stem: Seq<u8>, ending: Seq<u8>)
    requires
        stem.len() > 0,
        position(ending, 46) is None,
    ensures
        last_dot(stem + seq![46u8] + ending) == Some(stem.len() as int),
    decreases ending.len(),
{
    let name = stem + seq![46u8] + ending;
    lemma_position(ending, 46);
    if ending.len() > 0 {
        assert(name.last() == ending.last());
        assert(ending[ending.len() - 1] != 46);
        let front = ending.drop_last();
        crate::bytes::lemma_position_none(front, 46);
        lemma_last_dot(stem, front);
        assert(name.drop_last() =~= stem + seq![46u8] + front);
    } else {
        assert(name.last() == 46);
    }
}

/// A name whose only dot is its first byte, or that has none, has no
/// extension.
pub proof fn lemma_no_extension(parts: Seq<Seq<u8>>)
    requires
        parts.len() > 0,
        parts.last().len() > 0,
        position(parts.last().drop_first(), 46) is None,
    ensures
        extension_of(parts) is None,
{
    lemma_no_last_dot(parts.last());
}

proof fn lemma_no_last_dot(name: Seq<u8>)
    requires
        name.len() > 0,
        position(name.drop_first(), 46) is None,
    ensures
        last_dot(name) is None,
    decreases name.len(),
{
    if name.len() > 1 {
        let rest = name.drop_first();
        lemma_position(rest, 46);
        assert(rest[rest.len() - 1] == name.last());
        assert forall|j: int| 0 <= j < name.drop_last().drop_first().len() implies name.drop_last().drop_first()[j]
            != 46 by {
            assert(name.drop_last().drop_first()[j] == rest[j]);
        }
        crate::bytes::lemma_position_none(name.drop_last().drop_first(), 46);
        lemma_no_last_dot(name.drop_last());
    }
}

/// A directory whose entries cannot be read is told of alone.
pub proof fn lemma_unreadable_listing(m: RepoModel, path: Seq<u8>, depth: Option<Seq<u8>>)
    requires
        m.listing_at(components_of(path)) is Err,
    ensures
        propfind_resources(m, path, depth).len() == 1,
        propfind_resources(m, path, depth)[0].path == path,
{
}

/// The depth that a header tells: none or one level; what is not known says
/// nothing.
pub proof fn lemma_depth_told(other: Seq<u8>)
    requires
        other != text("0"),
        other != text("1"),
        other != text("infinity"),
    ensures
        depth_of(Some(text("0"))) == Some(0u32),
        depth_of(Some(text("1"))) == Some(1u32),
        depth_of(Some(text("infinity"))) == Some(1u32),
        depth_of(Some(other)) is None,
        depth_of(None) is None,
{
    lemma_depths();
    assert(text("0")[0] != text("1")[0]);
    assert(text("infinity").len() != text("0").len());
    assert(text("infinity").len() != text("1").len());
}

// ---------------------------------------------------------------------------
// Locks and properties
// ---------------------------------------------------------------------------

/// 256 to the power of `n`.
pub open spec fn pow256(n: nat) -> nat
    decreases n,
{
    if n == 0 {
        1
    } else {
        256 * pow256((n - 1) as nat)
    }
}

/// The number that these bytes stand for, the lowest first.
pub open spec fn bytes_worth(s: Seq<u8>) -> nat
    decreases s.len(),
{
    if s.len() == 0 {
        0
    } else {
        s[0] as nat + 256 * bytes_worth(s.drop_first())
    }
}

/// A number is told in so many bytes, which stand for it where there is room.
pub proof fn lemma_bytes_of_number(n: nat, count: nat)
    ensures
        le_bytes(n, count).len() == count,
        n < pow256(count) ==> bytes_worth(le_bytes(n, count)) == n,
    decreases count,
{
    if count > 0 {
        lemma_bytes_of_number(n / 256, (count - 1) as nat);
        let s = le_bytes(n, count);
        assert(s.drop_first() =~= le_bytes(n / 256, (count - 1) as nat));
        assert(s[0] == (n % 256) as u8);
    }
}

/// A lock is known by the digest of the time, the path and a count, in forty
/// digits.
pub proof fn lemma_lock_is_known_by(nanos: u128, path: Seq<u8>, count: u64)
    ensures
        lock_token(nanos, path, count).len() == 40,
        valid_utf8(path) ==> lock_token(nanos, path, count) == hex_of(
            sha1_of(le_bytes(nanos as nat, 16) + path + le_bytes(count as nat, 8))@,
        ),
        !valid_utf8(path) ==> lock_token(nanos, path, count) == hex_of(
            sha1_of(le_bytes(nanos as nat, 16) + le_bytes(count as nat, 8))@,
        ),
{
    if !valid_utf8(path) {
        assert(le_bytes(nanos as nat, 16) + Seq::<u8>::empty() =~= le_bytes(nanos as nat, 16));
    }
}

/// That a lock is given up is answered with no more than the status.
pub proof fn lemma_lock_is_given_up()
    ensures
        unlock_answer().status == 204,
        unlock_answer().headers.len() == 0,
        unlock_answer().body.len() == 0,
{
}

/// The answer that a lock is held tells what it is known by, and that it is an
/// exclusive one to write, for as long as one likes; the answer that properties
/// were set tells the path, and that all went well.
pub proof fn lemma_lock_and_properties_told(token: Seq<u8>, path: Seq<u8>)
    ensures
        lock_answer(token).status == 200,
        holds_text(lock_answer(token).body, xml_escaped(token)),
        proppatch_answer(path).status == 207,
        holds_text(proppatch_answer(path).body, xml_escaped(href_of(path))),
        lock_answer(token).headers == seq![
            (text("Content-Type"), text("application/xml; charset=utf-8")),
        ],
        proppatch_answer(path).headers == lock_answer(token).headers,
        lock_answer(token).body == text(
            "<?xml version=\"1.0\" encoding=\"utf-8\"?><D:prop xmlns:D=\"DAV:\"><D:lockdiscovery><D:activelock><D:locktype><D:write/></D:locktype><D:lockscope><D:exclusive/></D:lockscope><D:depth>0</D:depth><D:timeout>Infinite</D:timeout><D:locktoken><D:href>opaquelocktoken:",
        ) + xml_escaped(token) + text(
            "</D:href></D:locktoken></D:activelock></D:lockdiscovery></D:prop>",
        ),
        proppatch_answer(path).body == text(
            "<?xml version=\"1.0\" encoding=\"utf-8\"?><D:multistatus xmlns:D=\"DAV:\"><D:response><D:href>",
        ) + xml_escaped(href_of(path)) + text(
            "</D:href><D:propstat><D:prop/><D:status>HTTP/1.1 200 OK</D:status></D:propstat></D:response></D:multistatus>",
        ),
{
    let a = lock_answer(token).body;
    let x = text(
        "<?xml version=\"1.0\" encoding=\"utf-8\"?><D:prop xmlns:D=\"DAV:\"><D:lockdiscovery><D:activelock><D:locktype><D:write/></D:locktype><D:lockscope><D:exclusive/></D:lockscope><D:depth>0</D:depth><D:timeout>Infinite</D:timeout><D:locktoken><D:href>opaquelocktoken:",
    ).len() as int;
    let n = xml_escaped(token).len();
    assert(a.subrange(x, x + n) =~= xml_escaped(token));
    let b = proppatch_answer(path).body;
    let y = text(
        "<?xml version=\"1.0\" encoding=\"utf-8\"?><D:multistatus xmlns:D=\"DAV:\"><D:response><D:href>",
    ).len() as int;
    let k = xml_escaped(href_of(path)).len();
    assert(b.subrange(y, y + k) =~= xml_escaped(href_of(path)));
}

} // verus!
