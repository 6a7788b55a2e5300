//! What the headers of a request say, and the types of files.

use vstd::prelude::*;

use crate::answers::{just, lemma_texts};
use crate::bytes::{decimal, lemma_position, position, text};
use crate::git::repo::RepoModel;
use crate::handler::{
    RequestModel, StepModel, destination_path, media_type, request_step, slashes_at,
};

verus! {

// ---------------------------------------------------------------------------
// Destinations
// ---------------------------------------------------------------------------

/// A destination that is a path names what follows its first slash.
pub proof fn lemma_destination_is_a_path(path: Seq<u8>)
    ensures
        destination_path(Some(seq![47u8] + path)) == Some(path),
{
    let h = seq![47u8] + path;
    assert(h[0] == 47);
    assert(h.drop_first() =~= path);
}

/// A destination that is a URL names what follows the first slash behind the
/// host: the same as the path alone would.
pub proof fn lemma_destination_is_a_url(scheme: Seq<u8>, host: Seq<u8>, path: Seq<u8>)
    requires
        scheme.len() > 0,
        position(scheme, 47) is None,
        position(host, 47) is None,
    ensures
        destination_path(Some(scheme + seq![47u8, 47u8] + host + seq![47u8] + path)) == Some(path),
{
    let h = scheme + seq![47u8, 47u8] + host + seq![47u8] + path;
    let rest = host + seq![47u8] + path;
    lemma_position(scheme, 47);
    lemma_position(host, 47);
    assert(h[0] == scheme[0]);
    assert(h =~= scheme + (seq![47u8, 47u8] + rest));
    lemma_slashes_behind(scheme, seq![47u8, 47u8] + rest);
    assert(h.skip(scheme.len() + 2int) =~= rest);
    crate::bytes::lemma_position_is(rest, 47, host.len() as int);
    assert(rest.skip(host.len() as int) =~= seq![47u8] + path);
    lemma_destination_is_a_path(path);
}

proof fn lemma_slashes_behind(before: Seq<u8>, rest: Seq<u8>)
    requires
        position(before, 47) is None,
        rest.len() >= 2,
        rest[0] == 47,
        rest[1] == 47,
    ensures
        slashes_at(before + rest) == Some(before.len() as int),
    decreases before.len(),
{
    let s = before + rest;
    if before.len() > 0 {
        lemma_position(before, 47);
        let less = before.drop_first();
        crate::bytes::lemma_position_none(less, 47);
        lemma_slashes_behind(less, rest);
        assert(s.drop_first() =~= less + rest);
        assert(s[0] == before[0]);
    } else {
        assert(s =~= rest);
    }
}

/// A destination that is neither names nothing: one that is missing, and one
/// without a slash, or without one behind the host.
pub proof fn lemma_no_destination(scheme: Seq<u8>, host: Seq<u8>)
    requires
        position(scheme, 47) is None,
        scheme.len() > 0,
        position(host, 47) is None,
    ensures
        destination_path(None) is None,
        destination_path(Some(scheme)) is None,
        destination_path(Some(scheme + seq![47u8, 47u8] + host)) is None,
{
    lemma_position(scheme, 47);
    lemma_no_slashes(scheme);
    let h = scheme + seq![47u8, 47u8] + host;
    assert(h =~= scheme + (seq![47u8, 47u8] + host));
    lemma_slashes_behind(scheme, seq![47u8, 47u8] + host);
    assert(h[0] == scheme[0]);
    assert(h.skip(scheme.len() + 2int) =~= host);
}

proof fn lemma_no_slashes(s: Seq<u8>)
    requires
        position(s, 47) is None,
    ensures
        slashes_at(s) is None,
    decreases s.len(),
{
    if s.len() >= 2 {
        lemma_position(s, 47);
        crate::bytes::lemma_position_none(s.drop_first(), 47);
        lemma_no_slashes(s.drop_first());
    }
}

// ---------------------------------------------------------------------------
// Methods
// ---------------------------------------------------------------------------

/// A method that is none of those that are served is refused, and changes
/// nothing. LOCK and UNLOCK are refused so. Properties cannot be set.
pub proof fn lemma_other_methods(m: RepoModel, req: RequestModel)
    requires
        req.method != text("GET"),
        req.method != text("HEAD"),
        req.method != text("PUT"),
        req.method != text("DELETE"),
        req.method != text("MKCOL"),
        req.method != text("OPTIONS"),
        req.method != text("PROPFIND"),
        req.method != text("MOVE"),
        req.method != text("COPY"),
    ensures
        just(
            request_step(m, req),
            if req.method == text("PROPPATCH") {
                501
            } else {
                405
            },
        ),
{
    lemma_texts();
}

/// OPTIONS tells what is served.
pub proof fn lemma_options_tell(m: RepoModel, req: RequestModel)
    requires
        req.method == text("OPTIONS"),
    ensures
        request_step(m, req) matches StepModel::Reply(r) && {
            &&& r.status == 200
            &&& r.body.len() == 0
            &&& r.headers == seq![
                (text("DAV"), text("1, 2, 3")),
                (
                    text("Allow"),
                    text("GET, HEAD, PUT, DELETE, MKCOL, COPY, MOVE, PROPFIND, OPTIONS"),
                ),
                (text("MS-Author-Via"), text("DAV")),
            ]
        },
{
    lemma_texts();
}

/// A request that reads changes nothing, whatever its headers are.
pub proof fn lemma_reading_changes_nothing(m: RepoModel, req: RequestModel)
    requires
        req.method == text("GET") || req.method == text("HEAD") || req.method == text("OPTIONS")
            || req.method == text("PROPFIND"),
    ensures
        request_step(m, req) is Reply,
{
    lemma_texts();
}

// ---------------------------------------------------------------------------
// Types of files
// ---------------------------------------------------------------------------

/// The extensions whose type is known, and the type of each.
pub open spec fn known_types() -> Seq<(Seq<u8>, Seq<u8>)> {
    seq![
        (seq![104u8, 116u8, 109u8, 108u8], text("text/html")),
        (seq![104u8, 116u8, 109u8], text("text/html")),
        (seq![99u8, 115u8, 115u8], text("text/css")),
        (seq![106u8, 115u8], text("application/javascript")),
        (seq![106u8, 115u8, 111u8, 110u8], text("application/json")),
        (seq![112u8, 110u8, 103u8], text("image/png")),
        (seq![106u8, 112u8, 103u8], text("image/jpeg")),
        (seq![106u8, 112u8, 101u8, 103u8], text("image/jpeg")),
        (seq![103u8, 105u8, 102u8], text("image/gif")),
        (seq![115u8, 118u8, 103u8], text("image/svg+xml")),
        (seq![116u8, 120u8, 116u8], text("text/plain")),
        (seq![109u8, 100u8], text("text/markdown")),
        (seq![120u8, 109u8, 108u8], text("application/xml")),
        (seq![112u8, 100u8, 102u8], text("application/pdf")),
        (seq![122u8, 105u8, 112u8], text("application/zip")),
        (seq![116u8, 97u8, 114u8], text("application/x-tar")),
        (seq![103u8, 122u8], text("application/gzip")),
    ]
}

/// A file is of the type that its extension is known for; one with another
/// extension, or with none, is just bytes.
pub proof fn lemma_types_of_files(extension: Seq<u8>)
    ensures
        forall|i: int|
            0 <= i < known_types().len() ==> media_type(Some((#[trigger] known_types()[i]).0))
                == known_types()[i].1,
        (forall|i: int| 0 <= i < known_types().len() ==> (#[trigger] known_types()[i]).0 != extension)
            ==> media_type(Some(extension)) == text("application/octet-stream"),
        media_type(None) == text("application/octet-stream"),
{
    lemma_extension_texts();
    let known = known_types();
    assert forall|i: int| 0 <= i < known.len() implies media_type(Some((#[trigger] known[i]).0))
        == known[i].1 by {
        lemma_known_type(i);
    }
    if forall|i: int| 0 <= i < known.len() ==> (#[trigger] known[i]).0 != extension {
        assert(known[0].0 == text("html"));
        assert(known[1].0 == text("htm"));
        assert(known[2].0 == text("css"));
        assert(known[3].0 == text("js"));
        assert(known[4].0 == text("json"));
        assert(known[5].0 == text("png"));
        assert(known[6].0 == text("jpg"));
        assert(known[7].0 == text("jpeg"));
        assert(known[8].0 == text("gif"));
        assert(known[9].0 == text("svg"));
        assert(known[10].0 == text("txt"));
        assert(known[11].0 == text("md"));
        assert(known[12].0 == text("xml"));
        assert(known[13].0 == text("pdf"));
        assert(known[14].0 == text("zip"));
        assert(known[15].0 == text("tar"));
        assert(known[16].0 == text("gz"));
    }
}

proof fn lemma_known_type(i: int)
    requires
        0 <= i < known_types().len(),
    ensures
        media_type(Some(known_types()[i].0)) == known_types()[i].1,
{
    lemma_extension_texts();
    let e = known_types()[i].0;
    assert(e.len() == text("html").len() || e.len() == 3 || e.len() == 2);
    if i == 0 {
        assert(e == text("html"));
    }
    if i == 1 {
        assert(e == text("htm"));
        assert(text("html").len() != e.len());
    }
    if i == 2 {
        assert(e == text("css"));
        assert(text("html").len() != e.len());
        assert(text("htm")[0] != e[0]);
    }
    if i == 3 {
        assert(e == text("js"));
        assert(text("html").len() != e.len());
        assert(text("htm").len() != e.len());
        assert(text("css").len() != e.len());
    }
    if i == 4 {
        assert(e == text("json"));
        assert(text("html")[0] != e[0]);
        assert(text("htm").len() != e.len());
        assert(text("css").len() != e.len());
        assert(text("js").len() != e.len());
    }
    if i == 5 {
        assert(e == text("png"));
        assert(text("html").len() != e.len());
        assert(text("htm")[0] != e[0]);
        assert(text("css")[0] != e[0]);
        assert(text("js").len() != e.len());
        assert(text("json").len() != e.len());
    }
    if i == 6 {
        assert(e == text("jpg"));
        assert(text("html").len() != e.len());
        assert(text("htm")[0] != e[0]);
        assert(text("css")[0] != e[0]);
        assert(text("js").len() != e.len());
        assert(text("json").len() != e.len());
        assert(text("png")[0] != e[0]);
    }
    if i == 7 {
        assert(e == text("jpeg"));
        assert(text("html")[0] != e[0]);
        assert(text("htm").len() != e.len());
        assert(text("css").len() != e.len());
        assert(text("js").len() != e.len());
        assert(text("json")[1] != e[1]);
        assert(text("png").len() != e.len());
        assert(text("jpg").len() != e.len());
    }
    if i == 8 {
        assert(e == text("gif"));
        assert(text("html").len() != e.len());
        assert(text("htm")[0] != e[0]);
        assert(text("css")[0] != e[0]);
        assert(text("js").len() != e.len());
        assert(text("json").len() != e.len());
        assert(text("png")[0] != e[0]);
        assert(text("jpg")[0] != e[0]);
        assert(text("jpeg").len() != e.len());
    }
    if i == 9 {
        assert(e == text("svg"));
        assert(text("html").len() != e.len());
        assert(text("htm")[0] != e[0]);
        assert(text("css")[0] != e[0]);
        assert(text("js").len() != e.len());
        assert(text("json").len() != e.len());
        assert(text("png")[0] != e[0]);
        assert(text("jpg")[0] != e[0]);
        assert(text("jpeg").len() != e.len());
        assert(text("gif")[0] != e[0]);
    }
    if i == 10 {
        assert(e == text("txt"));
        assert(text("html").len() != e.len());
        assert(text("htm")[0] != e[0]);
        assert(text("css")[0] != e[0]);
        assert(text("js").len() != e.len());
        assert(text("json").len() != e.len());
        assert(text("png")[0] != e[0]);
        assert(text("jpg")[0] != e[0]);
        assert(text("jpeg").len() != e.len());
        assert(text("gif")[0] != e[0]);
        assert(text("svg")[0] != e[0]);
    }
    if i == 11 {
        assert(e == text("md"));
        assert(text("html").len() != e.len());
        assert(text("htm").len() != e.len());
        assert(text("css").len() != e.len());
        assert(text("js")[0] != e[0]);
        assert(text("json").len() != e.len());
        assert(text("png").len() != e.len());
        assert(text("jpg").len() != e.len());
        assert(text("jpeg").len() != e.len());
        assert(text("gif").len() != e.len());
        assert(text("svg").len() != e.len());
        assert(text("txt").len() != e.len());
    }
    if i == 12 {
        assert(e == text("xml"));
        assert(text("html").len() != e.len());
        assert(text("htm")[0] != e[0]);
        assert(text("css")[0] != e[0]);
        assert(text("js").len() != e.len());
        assert(text("json").len() != e.len());
        assert(text("png")[0] != e[0]);
        assert(text("jpg")[0] != e[0]);
        assert(text("jpeg").len() != e.len());
        assert(text("gif")[0] != e[0]);
        assert(text("svg")[0] != e[0]);
        assert(text("txt")[0] != e[0]);
        assert(text("md").len() != e.len());
    }
    if i == 13 {
        assert(e == text("pdf"));
        assert(text("html").len() != e.len());
        assert(text("htm")[0] != e[0]);
        assert(text("css")[0] != e[0]);
        assert(text("js").len() != e.len());
        assert(text("json").len() != e.len());
        assert(text("png")[1] != e[1]);
        assert(text("jpg")[0] != e[0]);
        assert(text("jpeg").len() != e.len());
        assert(text("gif")[0] != e[0]);
        assert(text("svg")[0] != e[0]);
        assert(text("txt")[0] != e[0]);
        assert(text("md").len() != e.len());
        assert(text("xml")[0] != e[0]);
    }
    if i == 14 {
        assert(e == text("zip"));
        assert(text("html").len() != e.len());
        assert(text("htm")[0] != e[0]);
        assert(text("css")[0] != e[0]);
        assert(text("js").len() != e.len());
        assert(text("json").len() != e.len());
        assert(text("png")[0] != e[0]);
        assert(text("jpg")[0] != e[0]);
        assert(text("jpeg").len() != e.len());
        assert(text("gif")[0] != e[0]);
        assert(text("svg")[0] != e[0]);
        assert(text("txt")[0] != e[0]);
        assert(text("md").len() != e.len());
        assert(text("xml")[0] != e[0]);
        assert(text("pdf")[0] != e[0]);
    }
    if i == 15 {
        assert(e == text("tar"));
        assert(text("html").len() != e.len());
        assert(text("htm")[0] != e[0]);
        assert(text("css")[0] != e[0]);
        assert(text("js").len() != e.len());
        assert(text("json").len() != e.len());
        assert(text("png")[0] != e[0]);
        assert(text("jpg")[0] != e[0]);
        assert(text("jpeg").len() != e.len());
        assert(text("gif")[0] != e[0]);
        assert(text("svg")[0] != e[0]);
        assert(text("txt")[1] != e[1]);
        assert(text("md").len() != e.len());
        assert(text("xml")[0] != e[0]);
        assert(text("pdf")[0] != e[0]);
        assert(text("zip")[0] != e[0]);
    }
    if i == 16 {
        assert(e == text("gz"));
        assert(text("html").len() != e.len());
        assert(text("htm").len() != e.len());
        assert(text("css").len() != e.len());
        assert(text("js")[0] != e[0]);
        assert(text("json").len() != e.len());
        assert(text("png").len() != e.len());
        assert(text("jpg").len() != e.len());
        assert(text("jpeg").len() != e.len());
        assert(text("gif").len() != e.len());
        assert(text("svg").len() != e.len());
        assert(text("txt").len() != e.len());
        assert(text("md")[0] != e[0]);
        assert(text("xml").len() != e.len());
        assert(text("pdf").len() != e.len());
        assert(text("zip").len() != e.len());
        assert(text("tar").len() != e.len());
    }
}

proof fn lemma_extension_texts()
    ensures
        text("html") == seq![104u8, 116u8, 109u8, 108u8],
        text("htm") == seq![104u8, 116u8, 109u8],
        text("css") == seq![99u8, 115u8, 115u8],
        text("js") == seq![106u8, 115u8],
        text("json") == seq![106u8, 115u8, 111u8, 110u8],
        text("png") == seq![112u8, 110u8, 103u8],
        text("jpg") == seq![106u8, 112u8, 103u8],
        text("jpeg") == seq![106u8, 112u8, 101u8, 103u8],
        text("gif") == seq![103u8, 105u8, 102u8],
        text("svg") == seq![115u8, 118u8, 103u8],
        text("txt") == seq![116u8, 120u8, 116u8],
        text("md") == seq![109u8, 100u8],
        text("xml") == seq![120u8, 109u8, 108u8],
        text("pdf") == seq![112u8, 100u8, 102u8],
        text("zip") == seq![122u8, 105u8, 112u8],
        text("tar") == seq![116u8, 97u8, 114u8],
        text("gz") == seq![103u8, 122u8],
{
    reveal_strlit("html");
    vstd::utf8::is_ascii_chars_encode_utf8("html"@);
    assert(text("html") =~= seq![104u8, 116u8, 109u8, 108u8]);
    reveal_strlit("htm");
    vstd::utf8::is_ascii_chars_encode_utf8("htm"@);
    assert(text("htm") =~= seq![104u8, 116u8, 109u8]);
    reveal_strlit("css");
    vstd::utf8::is_ascii_chars_encode_utf8("css"@);
    assert(text("css") =~= seq![99u8, 115u8, 115u8]);
    reveal_strlit("js");
    vstd::utf8::is_ascii_chars_encode_utf8("js"@);
    assert(text("js") =~= seq![106u8, 115u8]);
    reveal_strlit("json");
    vstd::utf8::is_ascii_chars_encode_utf8("json"@);
    assert(text("json") =~= seq![106u8, 115u8, 111u8, 110u8]);
    reveal_strlit("png");
    vstd::utf8::is_ascii_chars_encode_utf8("png"@);
    assert(text("png") =~= seq![112u8, 110u8, 103u8]);
    reveal_strlit("jpg");
    vstd::utf8::is_ascii_chars_encode_utf8("jpg"@);
    assert(text("jpg") =~= seq![106u8, 112u8, 103u8]);
    reveal_strlit("jpeg");
    vstd::utf8::is_ascii_chars_encode_utf8("jpeg"@);
    assert(text("jpeg") =~= seq![106u8, 112u8, 101u8, 103u8]);
    reveal_strlit("gif");
    vstd::utf8::is_ascii_chars_encode_utf8("gif"@);
    assert(text("gif") =~= seq![103u8, 105u8, 102u8]);
    reveal_strlit("svg");
    vstd::utf8::is_ascii_chars_encode_utf8("svg"@);
    assert(text("svg") =~= seq![115u8, 118u8, 103u8]);
    reveal_strlit("txt");
    vstd::utf8::is_ascii_chars_encode_utf8("txt"@);
    assert(text("txt") =~= seq![116u8, 120u8, 116u8]);
    reveal_strlit("md");
    vstd::utf8::is_ascii_chars_encode_utf8("md"@);
    assert(text("md") =~= seq![109u8, 100u8]);
    reveal_strlit("xml");
    vstd::utf8::is_ascii_chars_encode_utf8("xml"@);
    assert(text("xml") =~= seq![120u8, 109u8, 108u8]);
    reveal_strlit("pdf");
    vstd::utf8::is_ascii_chars_encode_utf8("pdf"@);
    assert(text("pdf") =~= seq![112u8, 100u8, 102u8]);
    reveal_strlit("zip");
    vstd::utf8::is_ascii_chars_encode_utf8("zip"@);
    assert(text("zip") =~= seq![122u8, 105u8, 112u8]);
    reveal_strlit("tar");
    vstd::utf8::is_ascii_chars_encode_utf8("tar"@);
    assert(text("tar") =~= seq![116u8, 97u8, 114u8]);
    reveal_strlit("gz");
    vstd::utf8::is_ascii_chars_encode_utf8("gz"@);
    assert(text("gz") =~= seq![103u8, 122u8]);
}

// ---------------------------------------------------------------------------
// Numbers
// ---------------------------------------------------------------------------

/// The number that decimal digits stand for.
pub open spec fn digits_worth(s: Seq<u8>) -> int
    decreases s.len(),
{
    if s.len() == 0 {
        0
    } else {
        10 * digits_worth(s.drop_last()) + (s.last() - 48)
    }
}

/// A number is told in decimal digits that stand for it, without a zero ahead
/// of others.
pub proof fn lemma_decimal_reads_back(n: nat)
    ensures
        digits_worth(decimal(n)) == n,
        decimal(n).len() > 0,
        forall|i: int| 0 <= i < decimal(n).len() ==> 48 <= #[trigger] decimal(n)[i] <= 57,
        n > 0 ==> decimal(n)[0] != 48,
        n == 0 ==> decimal(n) == seq![48u8],
    decreases n,
{
    let s = decimal(n);
    if n < 10 {
        assert(s.drop_last() =~= Seq::empty());
        assert(digits_worth(Seq::<u8>::empty()) == 0);
        assert(s.last() == (48 + n) as u8);
    } else {
        lemma_decimal_reads_back(n / 10);
        assert(s.drop_last() =~= decimal(n / 10));
        assert(s.last() == (48 + n % 10) as u8);
        assert forall|i: int| 0 <= i < s.len() implies 48 <= #[trigger] s[i] <= 57 by {
            if i < decimal(n / 10).len() {
                assert(s[i] == decimal(n / 10)[i]);
            }
        }
        assert(s[0] == decimal(n / 10)[0]);
    }
}

} // verus!
