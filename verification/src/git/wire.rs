//! What is said on the wire, and how it is understood: refs, wants, pushes and
//! reports.

use vstd::prelude::*;

use crate::bytes::{begins_with, holds_text, lemma_position, position, text};
use crate::git::transport::{
    PktError, PktHead, RefError, RefModel, Retry, TransportError, acknowledgement, asks_for_bands,
    branch_ref, fetch_asked, fetch_bytes, first_band, has_line, hex4, hex_bytes, hex_number,
    joined_lines, lemma_flush_read_back, lemma_pkt_read_back, line_begins, line_speaks, line_starts,
    next_attempt, pack_offset, pkt_announced, pkt_bytes, pkt_line, push_asked, push_line,
    push_verdict, radix16, report_model, report_of, spaced, useful, want_line, white,
    without_newlines, word_len, words,
};
use crate::outside::{hex_digit, hex_of, hex_pairs, hex_value};

verus! {

// ---------------------------------------------------------------------------
// Ids
// ---------------------------------------------------------------------------

/// An id is read back from its digits.
pub proof fn lemma_id_read_back(oid: Seq<u8>)
    ensures
        hex_of(oid).len() == 2 * oid.len(),
        hex_pairs(hex_of(oid)),
        hex_bytes(hex_of(oid)) == oid,
{
    let d = hex_of(oid);
    assert forall|i: int| 0 <= i < d.len() implies hex_value(#[trigger] d[i]) is Some by {
        assert(0 <= oid[i / 2] as int / 16 < 16);
    }
    assert forall|i: int| 0 <= i < oid.len() implies hex_bytes(d)[i] == oid[i] by {
        assert((2 * i) / 2 == i && (2 * i) % 2 == 0);
        assert((2 * i + 1) / 2 == i && (2 * i + 1) % 2 == 1);
        assert(d[2 * i] == hex_digit(oid[i] as int / 16));
        assert(d[2 * i + 1] == hex_digit(oid[i] as int % 16));
        assert(hex_value(hex_digit(oid[i] as int / 16)) == Some(oid[i] as int / 16));
        assert(hex_value(hex_digit(oid[i] as int % 16)) == Some(oid[i] as int % 16));
    }
    assert(hex_bytes(d) =~= oid);
}

// ---------------------------------------------------------------------------
// Refs
// ---------------------------------------------------------------------------

/// The ref leads to this id, every other leads where it led, and no other came
/// or went.
pub open spec fn has_learned(before: RefModel, after: RefModel, name: Seq<u8>, oid: Seq<u8>) -> bool {
    &&& after.refs.contains_key(name)
    &&& after.refs[name] == oid
    &&& forall|other: Seq<u8>|
        other != name ==> (#[trigger] after.refs.contains_key(other)
            <==> before.refs.contains_key(other)) && after.refs[other] == before.refs[other]
}

/// A line that tells of a ref is understood: the name leads to the id, whatever
/// newlines stand at its end.
pub proof fn lemma_ref_is_learned(m: RefModel, oid: Seq<u8>, name: Seq<u8>, newlines: Seq<u8>)
    requires
        oid.len() == 20,
        position(name, 0) is None,
        name.len() > 0 && name.last() != 10,
        forall|i: int| 0 <= i < newlines.len() ==> newlines[i] == 10,
        vstd::utf8::valid_utf8(hex_of(oid) + seq![32u8] + name + newlines),
    ensures
        m.with_line(hex_of(oid) + seq![32u8] + name + newlines) matches Ok(after) && has_learned(
            m,
            after,
            name,
            oid,
        ) && after.capabilities == m.capabilities,
{
    let line = hex_of(oid) + seq![32u8] + name + newlines;
    lemma_id_read_back(oid);
    assert(line.take(40) =~= hex_of(oid));
    assert(line[40] == 32);
    assert(line.skip(41) =~= name + newlines);
    lemma_position(name, 0);
    assert forall|j: int| 0 <= j < (name + newlines).len() implies (name + newlines)[j] != 0 by {
        if j < name.len() {
            assert(name[j] != 0);
        }
    }
    crate::bytes::lemma_position_none(name + newlines, 0);
    lemma_newlines_trimmed(name, newlines);
}

proof fn lemma_newlines_trimmed(name: Seq<u8>, newlines: Seq<u8>)
    requires
        name.len() > 0 && name.last() != 10,
        forall|i: int| 0 <= i < newlines.len() ==> newlines[i] == 10,
    ensures
        without_newlines(name + newlines) == name,
    decreases newlines.len(),
{
    let s = name + newlines;
    if newlines.len() > 0 {
        assert(s.last() == newlines[newlines.len() - 1]);
        assert(s.drop_last() =~= name + newlines.drop_last());
        lemma_newlines_trimmed(name, newlines.drop_last());
    } else {
        assert(s =~= name);
    }
}

/// The line that tells what the remote can do is understood too: the name ends
/// where the NUL stands, and what follows it are the capabilities.
pub proof fn lemma_capabilities_are_learned(
    m: RefModel,
    oid: Seq<u8>,
    name: Seq<u8>,
    capabilities: Seq<u8>,
)
    requires
        oid.len() == 20,
        position(name, 0) is None,
        vstd::utf8::valid_utf8(hex_of(oid) + seq![32u8] + name + seq![0u8] + capabilities),
    ensures
        m.with_line(hex_of(oid) + seq![32u8] + name + seq![0u8] + capabilities) matches Ok(after)
            && has_learned(m, after, name, oid) && after.capabilities == capabilities,
{
    let line = hex_of(oid) + seq![32u8] + name + seq![0u8] + capabilities;
    lemma_id_read_back(oid);
    assert(line.take(40) =~= hex_of(oid));
    assert(line[40] == 32);
    let rest = line.skip(41);
    assert(rest =~= name + seq![0u8] + capabilities);
    lemma_position(name, 0);
    assert forall|j: int| 0 <= j < name.len() implies rest[j] != 0 by {
        assert(rest[j] == name[j]);
    }
    crate::bytes::lemma_position_is(rest, 0, name.len() as int);
    assert(rest.take(name.len() as int) =~= name);
    assert(rest.skip(name.len() + 1int) =~= capabilities);
}

/// Lines are understood one after the other, up to the flush.
pub proof fn lemma_refs_in_turn(m: RefModel, before: Seq<u8>, line: Seq<u8>, behind: Seq<u8>)
    requires
        line.len() <= 0xfffb,
    ensures
        ({
            let data = before + pkt_bytes(line) + behind;
            let end = (before + pkt_bytes(line)).len() as int;
            m.with_lines(data, before.len() as int) == match m.with_line(line) {
                Ok(next) => next.with_lines(data, end),
                Err(e) => Err(e),
            }
        }),
        m.with_lines(before + text("0000") + behind, before.len() as int) == Ok::<
            (RefModel, int),
            RefError,
        >((m, before.len() as int + 4)),
{
    lemma_pkt_read_back(before, line, behind);
    lemma_flush_read_back(before, behind);
}

// ---------------------------------------------------------------------------
// What is asked
// ---------------------------------------------------------------------------

proof fn lemma_words_asked()
    ensures
        text("want ") == seq![119u8, 97u8, 110u8, 116u8, 32u8],
        text("done\n") == seq![100u8, 111u8, 110u8, 101u8, 10u8],
        text("0000") == seq![48u8, 48u8, 48u8, 48u8],
        text(" ") == seq![32u8],
        text("\n") == seq![10u8],
        text("refs/heads/").len() == 11,
{
    reveal_strlit("want ");
    vstd::utf8::is_ascii_chars_encode_utf8("want "@);
    assert(text("want ") =~= seq![119u8, 97u8, 110u8, 116u8, 32u8]);
    reveal_strlit("done\n");
    vstd::utf8::is_ascii_chars_encode_utf8("done\n"@);
    assert(text("done\n") =~= seq![100u8, 111u8, 110u8, 101u8, 10u8]);
    reveal_strlit("0000");
    vstd::utf8::is_ascii_chars_encode_utf8("0000"@);
    assert(text("0000") =~= seq![48u8, 48u8, 48u8, 48u8]);
    reveal_strlit(" ");
    vstd::utf8::is_ascii_chars_encode_utf8(" "@);
    assert(text(" ") =~= seq![32u8]);
    reveal_strlit("\n");
    vstd::utf8::is_ascii_chars_encode_utf8("\n"@);
    assert(text("\n") =~= seq![10u8]);
    reveal_strlit("refs/heads/");
    vstd::utf8::is_ascii_chars_encode_utf8("refs/heads/"@);
}

/// What a fetch sends is read as three things: a line that wants this commit,
/// and with it what is chosen of the remote's capabilities; a flush; and a line
/// that says that this is all.
pub proof fn lemma_fetch_asks(oid: Seq<u8>, capabilities: Seq<u8>)
    requires
        oid.len() == 20,
        want_line(oid, capabilities).len() <= 0xfffb,
    ensures
        ({
            let sent = fetch_bytes(oid, capabilities);
            let line = want_line(oid, capabilities);
            let chosen = spaced(useful(words(capabilities), false));
            let end = 4 + line.len() as int;
            &&& pkt_line(sent, 0) == Ok::<(Option<Seq<u8>>, int), PktError>((Some(line), end))
            &&& line.take(5) == text("want ")
            &&& line.subrange(5, 45) == hex_of(oid)
            &&& line.last() == 10
            &&& chosen.len() == 0 ==> line.len() == 46
            &&& chosen.len() > 0 ==> line.len() == 47 + chosen.len() && line[45] == 32
                && line.subrange(46, line.len() - 1) == chosen
            &&& pkt_line(sent, end) == Ok::<(Option<Seq<u8>>, int), PktError>((None, end + 4))
            &&& pkt_line(sent, end + 4) == Ok::<(Option<Seq<u8>>, int), PktError>(
                (Some(text("done\n")), sent.len() as int),
            )
            &&& sent.len() == end + 13
        }),
{
    lemma_words_asked();
    let sent = fetch_bytes(oid, capabilities);
    let line = want_line(oid, capabilities);
    let chosen = spaced(useful(words(capabilities), false));
    let none = Seq::<u8>::empty();
    let first = pkt_bytes(line);
    let last = pkt_bytes(text("done\n"));
    assert(hex_of(oid).len() == 40);
    assert(line.take(5) =~= text("want "));
    assert(line.subrange(5, 45) =~= hex_of(oid));
    if chosen.len() > 0 {
        assert(line.subrange(46, line.len() - 1) =~= chosen);
    }
    assert(none + first + (text("0000") + last) =~= sent);
    lemma_pkt_read_back(none, line, text("0000") + last);
    assert(none + first =~= first);
    assert(first.len() == 4 + line.len());
    lemma_flush_read_back(first, last);
    assert(first + text("0000") + last =~= sent);
    lemma_pkt_read_back(first + text("0000"), text("done\n"), none);
    assert(first + text("0000") + last + none =~= sent);
}

/// What a push asks for: that the branch move from where the remote has it, or
/// from nothing where it has no such branch, to the new commit.
pub proof fn lemma_push_asks(refs: RefModel, branch: Seq<u8>, new: Seq<u8>)
    requires
        new.len() == 20,
        refs.refs.contains_key(text("refs/heads/") + branch) ==> refs.refs[text("refs/heads/")
            + branch].len() == 20,
    ensures
        ({
            let line = push_line(refs, branch, new);
            let name = text("refs/heads/") + branch;
            let end = 82 + name.len();
            &&& refs.refs.contains_key(name) ==> line.take(40) == hex_of(refs.refs[name])
            &&& !refs.refs.contains_key(name) ==> forall|i: int|
                0 <= i < 40 ==> #[trigger] line[i] == 48
            &&& line[40] == 32
            &&& line.subrange(41, 81) == hex_of(new)
            &&& line[81] == 32
            &&& line.subrange(82, end as int) == name
            &&& line[end as int] == 0
            &&& line.skip(end as int + 1) == spaced(useful(words(refs.capabilities), true)).push(10)
        }),
{
    lemma_words_asked();
    let line = push_line(refs, branch, new);
    let name = text("refs/heads/") + branch;
    let end = 82 + name.len() as int;
    assert(branch_ref(branch) == name);
    assert(hex_of(new).len() == 40);
    if refs.refs.contains_key(name) {
        assert(hex_of(refs.refs[name]).len() == 40);
        assert(line.take(40) =~= hex_of(refs.refs[name]));
    } else {
        let zero = crate::git::transport::zero_oid();
        assert(hex_of(zero).len() == 40);
        assert forall|i: int| 0 <= i < 40 implies #[trigger] line[i] == 48 by {
            assert(line[i] == hex_of(zero)[i]);
            assert(zero[i / 2] == 0);
        }
    }
    assert(line.subrange(41, 81) =~= hex_of(new));
    assert(line.subrange(82, end) =~= name);
    assert(line.skip(end + 1) =~= spaced(useful(words(refs.capabilities), true)).push(10));
}

// ---------------------------------------------------------------------------
// Capabilities
// ---------------------------------------------------------------------------

/// A capability that is made use of: for a push one whose name, up to an
/// equals sign, is one of four; for a fetch one of four words.
pub open spec fn is_of_use(word: Seq<u8>, push: bool) -> bool {
    if push {
        ||| names(word, text("report-status"))
        ||| names(word, text("side-band-64k"))
        ||| names(word, text("quiet"))
        ||| names(word, text("agent"))
    } else {
        ||| word == text("multi_ack")
        ||| word == text("multi_ack_detailed")
        ||| word == text("no-progress")
        ||| word == text("ofs-delta")
    }
}

/// The word is this name, or this name and an equals sign and a value.
pub open spec fn names(word: Seq<u8>, name: Seq<u8>) -> bool {
    position(name, 61) is None && (word == name || begins_with(word, name.push(61)))
}

/// How many of the first `n` words are of use.
pub open spec fn uses_before(ws: Seq<Seq<u8>>, push: bool, n: int) -> int
    decreases n,
{
    if n <= 0 {
        0
    } else {
        uses_before(ws, push, n - 1) + if is_of_use(ws[n - 1], push) {
            1int
        } else {
            0
        }
    }
}

proof fn lemma_names(word: Seq<u8>, name: Seq<u8>)
    requires
        position(name, 61) is None,
    ensures
        names(word, name) <==> crate::git::transport::before_equals(word) == name,
{
    lemma_position(word, 61);
    lemma_position(name, 61);
    if begins_with(word, name.push(61)) {
        assert(word.subrange(0, name.len() + 1int) == name.push(61));
        assert forall|j: int| 0 <= j < name.len() implies word[j] != 61 by {
            assert(word.subrange(0, name.len() + 1int)[j] == name.push(61)[j]);
        }
        assert(word.subrange(0, name.len() + 1int)[name.len() as int] == 61);
        crate::bytes::lemma_position_is(word, 61, name.len() as int);
        assert(word.take(name.len() as int) =~= name) by {
            assert forall|j: int| 0 <= j < name.len() implies word[j] == name[j] by {
                assert(word.subrange(0, name.len() + 1int)[j] == name.push(61)[j]);
            }
        }
    }
    if crate::git::transport::before_equals(word) == name {
        match position(word, 61) {
            Some(i) => {
                assert(word.subrange(0, i + 1) =~= name.push(61));
            },
            None => {},
        }
    }
}

proof fn lemma_push_names()
    ensures
        position(text("report-status"), 61) is None,
        position(text("side-band-64k"), 61) is None,
        position(text("quiet"), 61) is None,
        position(text("agent"), 61) is None,
{
    reveal_strlit("report-status");
    vstd::utf8::is_ascii_chars_encode_utf8("report-status"@);
    crate::bytes::lemma_position_none(text("report-status"), 61);
    reveal_strlit("side-band-64k");
    vstd::utf8::is_ascii_chars_encode_utf8("side-band-64k"@);
    crate::bytes::lemma_position_none(text("side-band-64k"), 61);
    reveal_strlit("quiet");
    vstd::utf8::is_ascii_chars_encode_utf8("quiet"@);
    crate::bytes::lemma_position_none(text("quiet"), 61);
    reveal_strlit("agent");
    vstd::utf8::is_ascii_chars_encode_utf8("agent"@);
    crate::bytes::lemma_position_none(text("agent"), 61);
}

/// The words that are chosen are those of use, each as it stands, in order.
pub proof fn lemma_chosen_words(ws: Seq<Seq<u8>>, push: bool)
    ensures
        useful(ws, push).len() == uses_before(ws, push, ws.len() as int),
        forall|i: int|
            0 <= i < ws.len() && is_of_use(#[trigger] ws[i], push) ==> 0 <= uses_before(ws, push, i)
                < useful(ws, push).len() && useful(ws, push)[uses_before(ws, push, i)] == ws[i],
    decreases ws.len(),
{
    if ws.len() > 0 {
        let rest = ws.drop_first();
        lemma_chosen_words(rest, push);
        lemma_push_names();
        lemma_names(ws[0], text("report-status"));
        lemma_names(ws[0], text("side-band-64k"));
        lemma_names(ws[0], text("quiet"));
        lemma_names(ws[0], text("agent"));
        lemma_uses_shift(ws, push, ws.len() as int);
        assert forall|i: int| 0 <= i < ws.len() && is_of_use(#[trigger] ws[i], push) implies 0
            <= uses_before(ws, push, i) < useful(ws, push).len() && useful(ws, push)[uses_before(
            ws,
            push,
            i,
        )] == ws[i] by {
            if i > 0 {
                lemma_uses_shift(ws, push, i);
                assert(rest[i - 1] == ws[i]);
            }
        }
    }
}

proof fn lemma_uses_shift(ws: Seq<Seq<u8>>, push: bool, n: int)
    requires
        0 < n <= ws.len(),
    ensures
        uses_before(ws, push, n) == uses_before(ws.drop_first(), push, n - 1) + if is_of_use(
            ws[0],
            push,
        ) {
            1int
        } else {
            0
        },
    decreases n,
{
    if n > 1 {
        lemma_uses_shift(ws, push, n - 1);
        assert(ws.drop_first()[n - 2] == ws[n - 1]);
    } else {
        assert(uses_before(ws, push, 0) == 0);
        assert(uses_before(ws.drop_first(), push, 0) == 0);
    }
}

/// A word: not empty, and no white space in it.
pub open spec fn is_word(w: Seq<u8>) -> bool {
    w.len() > 0 && forall|i: int| 0 <= i < w.len() ==> !white(#[trigger] w[i])
}

proof fn lemma_word_read(w: Seq<u8>, behind: Seq<u8>)
    requires
        is_word(w),
        behind.len() == 0 || white(behind[0]),
    ensures
        words(w + behind) == seq![w] + words(behind),
{
    let s = w + behind;
    lemma_word_len(w, behind);
    assert(s[0] == w[0]);
    assert(s.take(w.len() as int) =~= w);
    assert(s.skip(w.len() as int) =~= behind);
}

proof fn lemma_word_len(w: Seq<u8>, behind: Seq<u8>)
    requires
        forall|i: int| 0 <= i < w.len() ==> !white(#[trigger] w[i]),
        behind.len() == 0 || white(behind[0]),
    ensures
        word_len(w + behind) == w.len(),
    decreases w.len(),
{
    let s = w + behind;
    if w.len() > 0 {
        let rest = w.drop_first();
        assert forall|i: int| 0 <= i < rest.len() implies !white(#[trigger] rest[i]) by {
            assert(rest[i] == w[i + 1]);
        }
        lemma_word_len(rest, behind);
        assert(s.drop_first() =~= rest + behind);
        assert(s[0] == w[0]);
    } else {
        assert(s =~= behind);
    }
}

/// Words that are sent with spaces between them are read as the same words.
pub proof fn lemma_words_read_back(ws: Seq<Seq<u8>>)
    requires
        forall|i: int| 0 <= i < ws.len() ==> is_word(#[trigger] ws[i]),
    ensures
        words(spaced(ws)) == ws,
{
    let none = Seq::<u8>::empty();
    assert(words(none) =~= Seq::empty());
    lemma_words_appended(ws, none);
    assert(spaced(ws) + none =~= spaced(ws));
    assert(ws + words(none) =~= ws);
}

proof fn lemma_words_appended(ws: Seq<Seq<u8>>, behind: Seq<u8>)
    requires
        forall|i: int| 0 <= i < ws.len() ==> is_word(#[trigger] ws[i]),
        behind.len() == 0 || white(behind[0]),
    ensures
        words(spaced(ws) + behind) == ws + words(behind),
    decreases ws.len(),
{
    if ws.len() == 0 {
        assert(spaced(ws) + behind =~= behind);
        assert(ws + words(behind) =~= words(behind));
    } else {
        let front = ws.drop_last();
        let last = ws.last();
        assert(last == ws[ws.len() - 1]);
        assert(is_word(last));
        lemma_word_read(last, behind);
        if ws.len() == 1 {
            assert(ws =~= seq![last]);
        } else {
            assert forall|i: int| 0 <= i < front.len() implies is_word(#[trigger] front[i]) by {
                assert(front[i] == ws[i]);
            }
            let more = seq![32u8] + (last + behind);
            lemma_words_appended(front, more);
            assert(more.drop_first() =~= last + behind);
            assert(words(more) == words(last + behind));
            assert(spaced(ws) + behind =~= spaced(front) + more);
            assert(front + (seq![last] + words(behind)) =~= ws + words(behind));
        }
    }
}

// ---------------------------------------------------------------------------
// The reply to a fetch
// ---------------------------------------------------------------------------

proof fn lemma_reply_words()
    ensures
        text("NAK") == seq![78u8, 65u8, 75u8],
        text("ACK") == seq![65u8, 67u8, 75u8],
        text("PACK") == seq![80u8, 65u8, 67u8, 75u8],
{
    reveal_strlit("NAK");
    vstd::utf8::is_ascii_chars_encode_utf8("NAK"@);
    assert(text("NAK") =~= seq![78u8, 65u8, 75u8]);
    reveal_strlit("ACK");
    vstd::utf8::is_ascii_chars_encode_utf8("ACK"@);
    assert(text("ACK") =~= seq![65u8, 67u8, 75u8]);
    reveal_strlit("PACK");
    vstd::utf8::is_ascii_chars_encode_utf8("PACK"@);
    assert(text("PACK") =~= seq![80u8, 65u8, 67u8, 75u8]);
}

/// A line that acknowledges, or says that nothing is shared.
pub open spec fn acknowledges(line: Seq<u8>) -> bool {
    line.len() <= 0xfffb && (begins_with(line, text("NAK")) || begins_with(line, text("ACK")))
}

/// Lines, one after the other, each with its length ahead.
pub open spec fn as_lines(lines: Seq<Seq<u8>>) -> Seq<u8>
    decreases lines.len(),
{
    if lines.len() == 0 {
        Seq::empty()
    } else {
        pkt_bytes(lines[0]) + as_lines(lines.drop_first())
    }
}

/// The pack in the reply to a fetch is what stands behind the lines that
/// acknowledge, all of it.
pub proof fn lemma_pack_is_behind_acknowledgements(lines: Seq<Seq<u8>>, pack: Seq<u8>)
    requires
        forall|i: int| 0 <= i < lines.len() ==> acknowledges(#[trigger] lines[i]),
        pack.len() >= 8,
        begins_with(pack, text("PACK")),
    ensures
        ({
            let raw = as_lines(lines) + pack;
            raw.skip(pack_offset(raw, 0)) == pack
        }),
{
    let none = Seq::<u8>::empty();
    let raw = as_lines(lines) + pack;
    lemma_acknowledgements_passed(none, lines, pack);
    assert(none + as_lines(lines) + pack =~= raw);
    assert(raw.skip(as_lines(lines).len() as int) =~= pack);
}

proof fn lemma_acknowledgements_passed(before: Seq<u8>, lines: Seq<Seq<u8>>, pack: Seq<u8>)
    requires
        forall|i: int| 0 <= i < lines.len() ==> acknowledges(#[trigger] lines[i]),
        pack.len() >= 8,
        begins_with(pack, text("PACK")),
    ensures
        pack_offset(before + as_lines(lines) + pack, before.len() as int) == before.len()
            + as_lines(lines).len(),
    decreases lines.len(),
{
    let raw = before + as_lines(lines) + pack;
    let at = before.len() as int;
    lemma_reply_words();
    if lines.len() == 0 {
        assert(raw =~= before + pack);
        let d = raw.subrange(at, at + 4);
        assert(pack.subrange(0, 4)[0] == pack[0]);
        assert(d[0] == pack[0]);
        assert(d[0] == 80);
        lemma_no_number(d);
    } else {
        let line = lines[0];
        let rest = lines.drop_first();
        assert(acknowledges(lines[0]));
        let n = line.len() as int + 4;
        assert(raw.subrange(at, at + 4) =~= hex4(n));
        crate::git::transport::lemma_hex4(n);
        assert(raw.subrange(at + 4, at + n) =~= line);
        assert forall|i: int| 0 <= i < rest.len() implies acknowledges(#[trigger] rest[i]) by {
            assert(rest[i] == lines[i + 1]);
        }
        lemma_acknowledgements_passed(before + pkt_bytes(line), rest, pack);
        assert(before + pkt_bytes(line) + as_lines(rest) + pack =~= raw);
        assert(acknowledgement(raw, at) == Some(at + n));
    }
}

proof fn lemma_no_number(d: Seq<u8>)
    requires
        d.len() == 4,
        d[0] == 80,
    ensures
        radix16(d) is None,
{
    let a = d.drop_last();
    let b = a.drop_last();
    let c = b.drop_last();
    assert(c.last() == d[0]);
    assert(crate::git::transport::hex_number(c) is None);
    assert(crate::git::transport::hex_number(b) is None);
    assert(crate::git::transport::hex_number(a) is None);
    assert(seq![43u8].len() == 1);
}

// ---------------------------------------------------------------------------
// The report on a push
// ---------------------------------------------------------------------------

/// A push is taken where the report says that it was unpacked and no line
/// refuses a ref.
pub proof fn lemma_push_is_taken(report: Seq<u8>)
    requires
        holds_text(report, text("unpack ok")),
        !holds_text(report, text("ng ")),
    ensures
        push_verdict(report) == Ok::<bool, TransportError>(true),
{
    if has_line(report, text("ng ")) {
        let i = choose|i: int| #[trigger] line_begins(report, i, text("ng "));
        let n = text("ng ").len() as int;
        assert(report.skip(i).subrange(0, n) =~= report.subrange(i, i + n));
    }
}

/// A push is refused where a line says `ng`: at the start of the report, behind
/// a newline, and also behind the four digits that tell a line's length.
pub proof fn lemma_push_is_refused(before: Seq<u8>, digits: Seq<u8>, behind: Seq<u8>)
    requires
        before.len() == 0 || before.last() == 10,
        digits.len() == 0 || (digits.len() == 4 && forall|i: int|
            0 <= i < 4 ==> hex_value(#[trigger] digits[i]) is Some),
    ensures
        push_verdict(before + digits + text("ng ") + behind) == Ok::<bool, TransportError>(false),
{
    let report = before + digits + text("ng ") + behind;
    let i = (before.len() + digits.len()) as int;
    let n = text("ng ").len() as int;
    assert(report.skip(i).subrange(0, n) =~= text("ng "));
    if before.len() > 0 {
        assert(report[before.len() - 1] == before.last());
    }
    if digits.len() == 4 {
        assert(line_starts(report, i - 4));
        assert forall|k: int| i - 4 <= k < i implies hex_value(#[trigger] report[k]) is Some by {
            assert(report[k] == digits[k - (i - 4)]);
        }
    }
    assert(line_speaks(report, i));
    assert(line_begins(report, i, text("ng ")));
}

/// A push that was not unpacked is refused, for good or for now: for now where
/// the remote has moved on.
pub proof fn lemma_push_is_not_taken(report: Seq<u8>)
    requires
        !holds_text(report, text("unpack ok")),
    ensures
        push_verdict(report) != Ok::<bool, TransportError>(true),
        holds_text(report, text("non-fast-forward")) || holds_text(report, text("fetch first"))
            || holds_text(report, text("NG")) ==> push_verdict(report) == Ok::<bool, TransportError>(
            false,
        ),
        !holds_text(report, text("ng ")) && !holds_text(report, text("non-fast-forward"))
            && !holds_text(report, text("fetch first")) && !holds_text(report, text("NG"))
            ==> push_verdict(report) == Err::<bool, TransportError>(TransportError::Rejected),
{
    if has_line(report, text("ng ")) {
        let i = choose|i: int| #[trigger] line_begins(report, i, text("ng "));
        let n = text("ng ").len() as int;
        assert(report.skip(i).subrange(0, n) =~= report.subrange(i, i + n));
    }
}

/// Lines are put together as they come, up to the flush.
pub proof fn lemma_report_is_its_lines(lines: Seq<Seq<u8>>, behind: Seq<u8>)
    requires
        forall|i: int| 0 <= i < lines.len() ==> (#[trigger] lines[i]).len() <= 0xfffb,
    ensures
        report_of(as_lines(lines) + text("0000") + behind, 0) == Ok::<Seq<u8>, PktError>(
            put_together(lines),
        ),
{
    let none = Seq::<u8>::empty();
    lemma_report_from(none, lines, behind);
    assert(none + as_lines(lines) + text("0000") + behind =~= as_lines(lines) + text("0000")
        + behind);
}

/// Texts, one after the other.
pub open spec fn put_together(lines: Seq<Seq<u8>>) -> Seq<u8>
    decreases lines.len(),
{
    if lines.len() == 0 {
        Seq::empty()
    } else {
        lines[0] + put_together(lines.drop_first())
    }
}

proof fn lemma_report_from(before: Seq<u8>, lines: Seq<Seq<u8>>, behind: Seq<u8>)
    requires
        forall|i: int| 0 <= i < lines.len() ==> (#[trigger] lines[i]).len() <= 0xfffb,
    ensures
        report_of(before + as_lines(lines) + text("0000") + behind, before.len() as int) == Ok::<
            Seq<u8>,
            PktError,
        >(put_together(lines)),
    decreases lines.len(),
{
    let data = before + as_lines(lines) + text("0000") + behind;
    lemma_words_asked();
    if lines.len() == 0 {
        assert(data =~= before + text("0000") + behind);
        lemma_flush_read_back(before, behind);
    } else {
        let rest = lines.drop_first();
        let tail = as_lines(rest) + text("0000") + behind;
        assert(lines[0].len() <= 0xfffb);
        assert forall|i: int| 0 <= i < rest.len() implies (#[trigger] rest[i]).len() <= 0xfffb by {
            assert(rest[i] == lines[i + 1]);
        }
        assert(before + pkt_bytes(lines[0]) + tail =~= data);
        lemma_pkt_read_back(before, lines[0], tail);
        lemma_report_from(before + pkt_bytes(lines[0]), rest, behind);
        assert(before + pkt_bytes(lines[0]) + as_lines(rest) + text("0000") + behind =~= data);
    }
}

proof fn lemma_joined_in_turn(lines: Seq<Seq<u8>>)
    ensures
        joined_lines(lines) == put_together(lines),
    decreases lines.len(),
{
    if lines.len() > 0 {
        lemma_joined_in_turn(lines.drop_last());
        lemma_together_last(lines);
    }
}

proof fn lemma_together_last(lines: Seq<Seq<u8>>)
    requires
        lines.len() > 0,
    ensures
        put_together(lines) == put_together(lines.drop_last()) + lines.last(),
    decreases lines.len(),
{
    if lines.len() == 1 {
        assert(lines.drop_first() =~= Seq::empty());
        assert(lines.drop_last() =~= Seq::empty());
        assert(put_together(lines) =~= put_together(lines.drop_last()) + lines.last());
    } else {
        let rest = lines.drop_first();
        lemma_together_last(rest);
        assert(lines.drop_last().drop_first() =~= rest.drop_last());
        assert(put_together(lines) =~= put_together(lines.drop_last()) + lines.last());
    }
}

/// Without bands the report is the lines as they come.
pub proof fn lemma_report_without_bands(lines: Seq<Seq<u8>>)
    ensures
        report_model(lines, false) == put_together(lines),
{
    lemma_joined_in_turn(lines);
}

/// With bands the report is what the lines say that the first band carries,
/// however they are cut into pieces.
pub proof fn lemma_report_in_the_first_band(lines: Seq<Seq<u8>>, pieces: Seq<Seq<u8>>, behind: Seq<u8>)
    requires
        forall|i: int| 0 <= i < lines.len() ==> (#[trigger] lines[i]).len() <= 0xfffb,
        put_together(pieces) == as_lines(lines) + text("0000") + behind,
    ensures
        report_model(pieces.map_values(|p: Seq<u8>| seq![1u8] + p), true) == put_together(lines),
{
    lemma_first_band(pieces);
    lemma_report_is_its_lines(lines, behind);
}

proof fn lemma_first_band(pieces: Seq<Seq<u8>>)
    ensures
        first_band(pieces.map_values(|p: Seq<u8>| seq![1u8] + p)) == put_together(pieces),
    decreases pieces.len(),
{
    let sent = pieces.map_values(|p: Seq<u8>| seq![1u8] + p);
    if pieces.len() > 0 {
        let front = pieces.drop_last();
        lemma_first_band(front);
        assert(sent.drop_last() =~= front.map_values(|p: Seq<u8>| seq![1u8] + p));
        assert(sent.last() == seq![1u8] + pieces.last());
        assert(sent.last().drop_first() =~= pieces.last());
        lemma_together_last(pieces);
    }
}

/// What another band carries is no part of the report.
pub proof fn lemma_other_bands_are_passed_over(lines: Seq<Seq<u8>>, other: Seq<u8>)
    requires
        other.len() == 0 || other[0] != 1,
    ensures
        report_model(lines.push(other), true) == report_model(lines, true),
{
    assert(lines.push(other).drop_last() =~= lines);
}

// ---------------------------------------------------------------------------
// Attempts
// ---------------------------------------------------------------------------

/// What succeeds is not tried again; what fails is tried three times in all.
pub proof fn lemma_three_attempts(attempt: u32)
    ensures
        next_attempt(attempt, false) == Retry::Stop,
        attempt == 1 ==> next_attempt(attempt, true) == Retry::Again(2),
        attempt == 2 ==> next_attempt(attempt, true) == Retry::Again(3),
        attempt >= 3 ==> next_attempt(attempt, true) == Retry::Stop,
{
}

// ---------------------------------------------------------------------------
// Lengths
// ---------------------------------------------------------------------------

/// The number that four digits stand for.
pub open spec fn four_digits(d: Seq<u8>) -> int {
    4096 * hex_value(d[0])->0 + 256 * hex_value(d[1])->0 + 16 * hex_value(d[2])->0 + hex_value(
        d[3],
    )->0
}

proof fn lemma_digit_value(n: int)
    requires
        0 <= n < 16,
    ensures
        hex_value(hex_digit(n)) == Some(n),
{
}

proof fn lemma_four_parts(n: int)
    requires
        0 <= n < 65536,
    ensures
        4096 * (n / 4096 % 16) + 256 * (n / 256 % 16) + 16 * (n / 16 % 16) + n % 16 == n,
{
}

/// The four digits ahead of a line count themselves and the line.
pub proof fn lemma_line_tells_its_length(line: Seq<u8>)
    requires
        line.len() <= 0xfffb,
    ensures
        pkt_bytes(line).len() == line.len() + 4,
        pkt_bytes(line).skip(4) == line,
        four_digits(pkt_bytes(line)) == line.len() + 4,
        forall|i: int| 0 <= i < 4 ==> hex_value(#[trigger] pkt_bytes(line)[i]) is Some,
{
    let n = line.len() as int + 4;
    let d = pkt_bytes(line);
    assert(d.skip(4) =~= line);
    lemma_digit_value(n / 4096 % 16);
    lemma_digit_value(n / 256 % 16);
    lemma_digit_value(n / 16 % 16);
    lemma_digit_value(n % 16);
    lemma_four_parts(n);
    assert(d[0] == hex_digit(n / 4096 % 16));
    assert(d[1] == hex_digit(n / 256 % 16));
    assert(d[2] == hex_digit(n / 16 % 16));
    assert(d[3] == hex_digit(n % 16));
}

/// What four digits announce: nothing more where they stand for 0 or 1, and
/// from 4 on a line of that many bytes but four. Two and three announce
/// nothing that is known.
pub proof fn lemma_digits_announce(d: Seq<u8>)
    requires
        d.len() == 4,
        forall|i: int| 0 <= i < 4 ==> hex_value(#[trigger] d[i]) is Some,
    ensures
        four_digits(d) <= 1 ==> pkt_announced(d) == Ok::<PktHead, PktError>(PktHead::Flush),
        2 <= four_digits(d) <= 3 ==> pkt_announced(d) == Err::<PktHead, PktError>(
            PktError::BadLength,
        ),
        four_digits(d) >= 4 ==> pkt_announced(d) == Ok::<PktHead, PktError>(
            PktHead::Line((four_digits(d) - 4) as usize),
        ),
{
    assert(hex_value(d[0]) is Some && hex_value(d[1]) is Some && hex_value(d[2]) is Some
        && hex_value(d[3]) is Some);
    assert(d[0] != 43);
    assert(seq![43u8].len() == 1);
    let a = d.drop_last();
    let b = a.drop_last();
    let c = b.drop_last();
    assert(c.drop_last() =~= Seq::empty());
    assert(c.last() == d[0] && b.last() == d[1] && a.last() == d[2] && d.last() == d[3]);
    assert(hex_number(c.drop_last()) == Some(0nat));
    assert(hex_number(c) == Some(hex_value(d[0])->0 as nat));
    assert(hex_number(b) == Some((16 * hex_value(d[0])->0 + hex_value(d[1])->0) as nat));
    assert(hex_number(a) == Some(
        (16 * (16 * hex_value(d[0])->0 + hex_value(d[1])->0) + hex_value(d[2])->0) as nat,
    ));
    assert(hex_number(d) == Some(four_digits(d) as nat));
}

/// A push asks for bands just where the remote offers them.
pub proof fn lemma_bands_are_asked_for(ws: Seq<Seq<u8>>)
    ensures
        asks_for_bands(ws) <==> exists|i: int|
            0 <= i < ws.len() && names(#[trigger] ws[i], text("side-band-64k")),
    decreases ws.len(),
{
    if ws.len() > 0 {
        let rest = ws.drop_first();
        lemma_bands_are_asked_for(rest);
        lemma_push_names();
        lemma_names(ws[0], text("side-band-64k"));
        if exists|i: int| 0 <= i < ws.len() && names(#[trigger] ws[i], text("side-band-64k")) {
            let i = choose|i: int|
                0 <= i < ws.len() && names(#[trigger] ws[i], text("side-band-64k"));
            if i > 0 {
                assert(rest[i - 1] == ws[i]);
            }
        }
        if exists|i: int| 0 <= i < rest.len() && names(#[trigger] rest[i], text("side-band-64k")) {
            let i = choose|i: int|
                0 <= i < rest.len() && names(#[trigger] rest[i], text("side-band-64k"));
            assert(ws[i + 1] == rest[i]);
        }
        if names(ws[0], text("side-band-64k")) {
            assert(names(ws[0int], text("side-band-64k")));
        }
    }
}

/// Spaces, tabs, newlines, form feeds and carriage returns part words, and
/// nothing else does.
pub proof fn lemma_what_parts_words(b: u8)
    ensures
        white(b) <==> (b == 0x20 || 0x09 <= b <= 0x0d && b != 0x0b),
{
}

/// Between two words stands one space, and a word alone stands as it is.
pub proof fn lemma_one_space_between(a: Seq<Seq<u8>>, b: Seq<Seq<u8>>, w: Seq<u8>)
    requires
        a.len() > 0,
        b.len() > 0,
    ensures
        spaced(seq![w]) == w,
        spaced(a + b) == spaced(a) + seq![32u8] + spaced(b),
    decreases b.len(),
{
    let all = a + b;
    assert(all.last() == b.last());
    if b.len() == 1 {
        assert(all.drop_last() =~= a);
    } else {
        let front = b.drop_last();
        assert(all.drop_last() =~= a + front);
        lemma_one_space_between(a, front, w);
        assert(spaced(all) =~= spaced(a) + seq![32u8] + spaced(b));
    }
}

/// To fetch, the commit that the branch leads to is asked for, and nothing
/// where there is no such branch; a line that is too long for its four digits
/// is not sent.
pub proof fn lemma_branch_is_fetched(refs: RefModel, branch: Seq<u8>)
    ensures
        ({
            let name = text("refs/heads/") + branch;
            let asked = fetch_asked(refs, branch);
            let oid = refs.refs[name];
            &&& !refs.refs.contains_key(name) ==> asked == Err::<
                (Seq<u8>, Seq<u8>),
                TransportError,
            >(TransportError::NoBranch)
            &&& refs.refs.contains_key(name) ==> match asked {
                Ok((head, request)) => head == oid && request == fetch_bytes(oid, refs.capabilities)
                    && want_line(oid, refs.capabilities).len() + 4 <= 0xffff,
                Err(e) => e is Pkt && want_line(oid, refs.capabilities).len() + 4 > 0xffff,
            }
        }),
{
    assert(branch_ref(branch) =~= text("refs/heads/") + branch);
}

/// To push, one line is sent and a flush behind it, as long as the line is not
/// too long for its four digits.
pub proof fn lemma_one_line_is_pushed(refs: RefModel, branch: Seq<u8>, new: Seq<u8>)
    ensures
        ({
            let line = push_line(refs, branch, new);
            match push_asked(refs, branch, new) {
                Ok(request) => {
                    let end = request.len() - 4;
                    &&& line.len() + 4 <= 0xffff
                    &&& pkt_line(request, 0) == Ok::<(Option<Seq<u8>>, int), PktError>(
                        (Some(line), end),
                    )
                    &&& pkt_line(request, end) == Ok::<(Option<Seq<u8>>, int), PktError>(
                        (None, end + 4),
                    )
                },
                Err(e) => e is Pkt && line.len() + 4 > 0xffff,
            }
        }),
{
    let line = push_line(refs, branch, new);
    if line.len() <= 0xfffb {
        let none = Seq::<u8>::empty();
        let request = pkt_bytes(line) + text("0000");
        reveal_strlit("0000");
        vstd::utf8::is_ascii_chars_encode_utf8("0000"@);
        assert(text("0000").len() == 4);
        lemma_pkt_read_back(none, line, text("0000"));
        lemma_flush_read_back(pkt_bytes(line), none);
        assert(none + pkt_bytes(line) + text("0000") =~= request);
        assert(pkt_bytes(line) + text("0000") + none =~= request);
        assert(none + pkt_bytes(line) =~= pkt_bytes(line));
    }
}

} // verus!
