//! The smart transport: where a remote is, the lines that are exchanged with
//! it, what is asked of it, and what its answers say.

use vstd::prelude::*;

use crate::bytes::{
    begins_with, copy_bytes, find_byte, has_part, has_prefix, holds_text, position, push_bytes,
    push_text, same_bytes, text,
};
use crate::oid::ObjectId;
use crate::outside::{hex_decode, hex_digit, hex_encode, hex_of, hex_pairs, hex_value, utf8_text};
use crate::store::ByteMap;

pub use crate::git::url::{SshTarget, UrlError, parse_ssh_url};

verus! {

// ---------------------------------------------------------------------------
// pkt-lines
// ---------------------------------------------------------------------------

/// Why a pkt-line cannot be read or written.
#[derive(Clone, Copy, PartialEq, Eq, Structural, Debug)]
pub enum PktError {
    /// The data ends inside the line.
    Truncated,
    /// The length is no number, or smaller than its own four digits.
    BadLength,
    /// The line is too long for its length to have four digits.
    TooLong(usize),
}

/// What the four digits of a pkt-line announce.
#[derive(Clone, Copy, PartialEq, Eq, Structural, Debug)]
pub enum PktHead {
    /// The end of a list of lines.
    Flush,
    /// A line with this many bytes.
    Line(usize),
}

/// The number that hexadecimal digits stand for, the highest first.
pub open spec fn hex_number(digits: Seq<u8>) -> Option<nat>
    decreases digits.len(),
{
    if digits.len() == 0 {
        Some(0)
    } else {
        match (hex_number(digits.drop_last()), hex_value(digits.last())) {
            (Some(high), Some(low)) => Some((16 * high + low) as nat),
            _ => None,
        }
    }
}

/// A number in hexadecimal digits, of which there is at least one; a plus sign
/// may stand before them.
pub open spec fn radix16(s: Seq<u8>) -> Option<nat> {
    if s.len() == 0 || s == seq![43u8] {
        None
    } else if s[0] == 43 {
        hex_number(s.drop_first())
    } else {
        hex_number(s)
    }
}

/// What four digits announce: 0 and 1 end a list, from 4 on they count
/// themselves and the line.
pub open spec fn pkt_announced(digits: Seq<u8>) -> Result<PktHead, PktError> {
    match radix16(digits) {
        None => Err(PktError::BadLength),
        Some(n) => if n <= 1 {
            Ok(PktHead::Flush)
        } else if n < 4 {
            Err(PktError::BadLength)
        } else {
            Ok(PktHead::Line((n - 4) as usize))
        },
    }
}

/// The line at `pos`, and where it ends: no line for a flush, and none where
/// the data is at its end.
pub open spec fn pkt_line(data: Seq<u8>, pos: int) -> Result<(Option<Seq<u8>>, int), PktError> {
    if pos + 4 > data.len() {
        Ok((None, data.len() as int))
    } else {
        match pkt_announced(data.subrange(pos, pos + 4)) {
            Err(e) => Err(e),
            Ok(PktHead::Flush) => Ok((None, pos + 4)),
            Ok(PktHead::Line(n)) => if pos + 4 + n > data.len() {
                Err(PktError::Truncated)
            } else {
                Ok((Some(data.subrange(pos + 4, pos + 4 + n)), pos + 4 + n))
            },
        }
    }
}

/// The four digits of a number.
pub open spec fn hex4(n: int) -> Seq<u8> {
    seq![
        hex_digit(n / 4096 % 16),
        hex_digit(n / 256 % 16),
        hex_digit(n / 16 % 16),
        hex_digit(n % 16),
    ]
}

/// A pkt-line: its length, which counts the four digits too, and its data.
pub open spec fn pkt_bytes(data: Seq<u8>) -> Seq<u8> {
    hex4(data.len() as int + 4) + data
}

fn value_of_digit(b: u8) -> (r: Option<u8>)
    ensures
        match r {
            Some(v) => hex_value(b) == Some(v as int) && v < 16,
            None => hex_value(b) is None,
        },
{
    if b >= 48 && b <= 57 {
        Some(b - 48)
    } else if b >= 97 && b <= 102 {
        Some(b - 87)
    } else if b >= 65 && b <= 70 {
        Some(b - 55)
    } else {
        None
    }
}

/// The number of up to four digits, of which there is at least one; a plus
/// sign may stand before them.
fn parse_radix16(s: &[u8]) -> (r: Option<usize>)
    requires
        s@.len() <= 4,
    ensures
        match r {
            Some(n) => radix16(s@) == Some(n as nat) && n < 65536,
            None => radix16(s@) is None,
        },
{
    if s.len() == 0 {
        return None;
    }
    let mut i: usize = 0;
    if s[0] == 43 {
        if s.len() == 1 {
            assert(s@ =~= seq![43u8]);
            return None;
        }
        i = 1;
    }
    let ghost first = i as int;
    let ghost digits = s@.skip(first);
    assert(radix16(s@) == hex_number(digits)) by {
        assert(s@.skip(0) =~= s@);
        assert(s@.skip(1) =~= s@.drop_first());
    }
    let mut n: usize = 0;
    assert(digits.take(0) =~= Seq::empty());
    while i < s.len()
        invariant
            0 <= first <= i <= s@.len() <= 4,
            digits == s@.skip(first),
            hex_number(digits.take(i - first)) == Some(n as nat),
            radix16(s@) == hex_number(digits),
            n < 65536,
            i - first == 0 ==> n < 1,
            i - first == 1 ==> n < 16,
            i - first == 2 ==> n < 256,
            i - first == 3 ==> n < 4096,
        decreases s@.len() - i,
    {
        let ghost k = i - first;
        assert(digits.take(k + 1).drop_last() =~= digits.take(k));
        assert(digits.take(k + 1).last() == s@[i as int]);
        match value_of_digit(s[i]) {
            Some(v) => {
                n = 16 * n + v as usize;
            },
            None => {
                proof {
                    lemma_bad_digit(digits, k);
                }
                return None;
            },
        }
        i += 1;
    }
    assert(digits.take(i - first) =~= digits);
    Some(n)
}

proof fn lemma_bad_digit(digits: Seq<u8>, k: int)
    requires
        0 <= k < digits.len(),
        hex_value(digits[k]) is None,
    ensures
        hex_number(digits) is None,
    decreases digits.len(),
{
    if k < digits.len() - 1 {
        lemma_bad_digit(digits.drop_last(), k);
    }
}

/// What the four digits at the start of a pkt-line announce.
pub fn pkt_head(digits: &[u8]) -> (r: Result<PktHead, PktError>)
    requires
        digits@.len() == 4,
    ensures
        r == pkt_announced(digits@),
        r matches Ok(PktHead::Line(n)) ==> n < 65536,
{
    match parse_radix16(digits) {
        None => Err(PktError::BadLength),
        Some(n) => {
            if n <= 1 {
                Ok(PktHead::Flush)
            } else if n < 4 {
                Err(PktError::BadLength)
            } else {
                Ok(PktHead::Line(n - 4))
            }
        },
    }
}

/// Reads the pkt-line at `pos`, and moves `pos` behind it. A flush gives no
/// line, and so does the end of the data.
pub fn read_pkt_line(data: &[u8], pos: &mut usize) -> (r: Result<Option<Vec<u8>>, PktError>)
    ensures
        match r {
            Ok(line) => pkt_line(data@, *old(pos) as int) == Ok::<
                (Option<Seq<u8>>, int),
                PktError,
            >((line_view(line), *final(pos) as int)) && *final(pos) <= data@.len(),
            Err(e) => pkt_line(data@, *old(pos) as int) == Err::<(Option<Seq<u8>>, int), PktError>(
                e,
            ) && *final(pos) == *old(pos),
        },
{
    let start: usize = *pos;
    if start > data.len() || data.len() - start < 4 {
        *pos = data.len();
        return Ok(None);
    }
    match pkt_head(&data[start..start + 4]) {
        Err(e) => Err(e),
        Ok(PktHead::Flush) => {
            *pos = start + 4;
            Ok(None)
        },
        Ok(PktHead::Line(n)) => {
            if n > data.len() - start - 4 {
                return Err(PktError::Truncated);
            }
            *pos = start + 4 + n;
            Ok(Some(copy_bytes(&data[start + 4..start + 4 + n])))
        },
    }
}

/// What a line that may be absent is.
pub open spec fn line_view(line: Option<Vec<u8>>) -> Option<Seq<u8>> {
    match line {
        Some(l) => Some(l@),
        None => None,
    }
}

fn digit_of_value(n: u8) -> (r: u8)
    requires
        n < 16,
    ensures
        r == hex_digit(n as int),
{
    if n < 10 {
        48 + n
    } else {
        87 + n
    }
}

/// Writes `data` as a pkt-line to the end of `out`. A line whose length has
/// more than four digits is refused, and nothing is written.
pub fn write_pkt_line(out: &mut Vec<u8>, data: &[u8]) -> (r: Result<(), PktError>)
    ensures
        match r {
            Ok(_) => data@.len() <= 0xfffb && final(out)@ == old(out)@ + pkt_bytes(data@),
            Err(e) => data@.len() > 0xfffb && final(out)@ == old(out)@ && e == PktError::TooLong(
                data@.len() as usize,
            ),
        },
{
    if data.len() > 0xfffb {
        return Err(PktError::TooLong(data.len()));
    }
    let len: usize = data.len() + 4;
    out.push(digit_of_value((len / 4096 % 16) as u8));
    out.push(digit_of_value((len / 256 % 16) as u8));
    out.push(digit_of_value((len / 16 % 16) as u8));
    out.push(digit_of_value((len % 16) as u8));
    push_bytes(out, data);
    assert(out@ =~= old(out)@ + pkt_bytes(data@));
    Ok(())
}

/// Writes a flush to the end of `out`.
pub fn write_flush(out: &mut Vec<u8>)
    ensures
        final(out)@ == old(out)@ + text("0000"),
{
    push_text(out, "0000");
}

/// Four digits tell the number that they were made of.
pub proof fn lemma_hex4(n: int)
    requires
        0 <= n < 65536,
    ensures
        radix16(hex4(n)) == Some(n as nat),
{
    let d = hex4(n);
    assert(d[0] != 43);
    assert(d != seq![43u8]) by {
        assert(d.len() == 4);
    }
    let a = d.drop_last();
    let b = a.drop_last();
    let c = b.drop_last();
    assert(c.drop_last() =~= Seq::empty());
    assert(c.last() == d[0] && b.last() == d[1] && a.last() == d[2] && d.last() == d[3]);
    assert(hex_number(c.drop_last()) == Some(0nat));
    assert(hex_number(c) == Some((n / 4096 % 16) as nat));
    assert(hex_number(b) == Some((16 * (n / 4096 % 16) + n / 256 % 16) as nat));
    assert(hex_number(a) == Some(
        (16 * (16 * (n / 4096 % 16) + n / 256 % 16) + n / 16 % 16) as nat,
    ));
}

/// A pkt-line that was written is read back, whatever stands before and after
/// it.
pub proof fn lemma_pkt_read_back(before: Seq<u8>, line: Seq<u8>, after: Seq<u8>)
    requires
        line.len() <= 0xfffb,
    ensures
        pkt_line(before + pkt_bytes(line) + after, before.len() as int) == Ok::<
            (Option<Seq<u8>>, int),
            PktError,
        >((Some(line), (before + pkt_bytes(line)).len() as int)),
{
    let data = before + pkt_bytes(line) + after;
    let pos = before.len() as int;
    assert(data.subrange(pos, pos + 4) =~= hex4(line.len() as int + 4));
    lemma_hex4(line.len() as int + 4);
    assert(data.subrange(pos + 4, pos + 4 + line.len()) =~= line);
}

/// A flush that was written ends the list of lines.
pub proof fn lemma_flush_read_back(before: Seq<u8>, after: Seq<u8>)
    ensures
        pkt_line(before + text("0000") + after, before.len() as int) == Ok::<
            (Option<Seq<u8>>, int),
            PktError,
        >((None, before.len() as int + 4)),
{
    reveal_strlit("0000");
    vstd::utf8::is_ascii_chars_encode_utf8("0000"@);
    let data = before + text("0000") + after;
    let pos = before.len() as int;
    assert(text("0000").len() == 4);
    assert(data.subrange(pos, pos + 4) =~= hex4(0));
    lemma_hex4(0);
}

// ---------------------------------------------------------------------------
// Ref advertisement
// ---------------------------------------------------------------------------

/// Why an advertisement of refs cannot be read.
#[derive(Clone, Copy, PartialEq, Eq, Structural, Debug)]
pub enum RefError {
    /// A pkt-line that cannot be read.
    Pkt(PktError),
    /// A line that is not UTF-8.
    NotUtf8,
    /// A line that does not begin with an id in hexadecimal digits.
    BadId,
    /// A line with no ASCII character between the id and the name.
    BadSeparator,
}

/// The refs of a remote, by name, and what it says it can do.
#[verifier::ext_equal]
pub struct RefModel {
    pub refs: Map<Seq<u8>, Seq<u8>>,
    pub capabilities: Seq<u8>,
}

/// The bytes that pairs of hexadecimal digits stand for.
pub open spec fn hex_bytes(digits: Seq<u8>) -> Seq<u8> {
    Seq::new(
        digits.len() / 2,
        |i: int| (16 * hex_value(digits[2 * i])->0 + hex_value(digits[2 * i + 1])->0) as u8,
    )
}

/// `s` without the newlines at its end.
pub open spec fn without_newlines(s: Seq<u8>) -> Seq<u8>
    decreases s.len(),
{
    if s.len() > 0 && s.last() == 10 {
        without_newlines(s.drop_last())
    } else {
        s
    }
}

impl RefModel {
    /// With a line more: an id of forty digits, a separator, the name of the
    /// ref, and on the line that has them a NUL and the capabilities. A line
    /// too short for that is passed over.
    pub open spec fn with_line(self, line: Seq<u8>) -> Result<RefModel, RefError> {
        if !vstd::utf8::valid_utf8(line) {
            Err(RefError::NotUtf8)
        } else if line.len() < 41 {
            Ok(self)
        } else if !hex_pairs(line.take(40)) {
            Err(RefError::BadId)
        } else if line[40] >= 128 {
            Err(RefError::BadSeparator)
        } else {
            let oid = hex_bytes(line.take(40));
            let rest = line.skip(41);
            match position(rest, 0) {
                Some(nul) => Ok(
                    RefModel {
                        refs: self.refs.insert(rest.take(nul), oid),
                        capabilities: rest.skip(nul + 1),
                    },
                ),
                None => Ok(
                    RefModel { refs: self.refs.insert(without_newlines(rest), oid), ..self },
                ),
            }
        }
    }

    /// With the lines from `pos` on, up to a flush or the end of the data; and
    /// where they end.
    pub open spec fn with_lines(self, data: Seq<u8>, pos: int) -> Result<(RefModel, int), RefError>
        decreases data.len() - pos,
    {
        match pkt_line(data, pos) {
            Err(e) => Err(RefError::Pkt(e)),
            Ok((None, end)) => Ok((self, end)),
            Ok((Some(line), end)) => match self.with_line(line) {
                Err(e) => Err(e),
                Ok(next) => if pos < end <= data.len() {
                    next.with_lines(data, end)
                } else {
                    Ok((next, end))
                },
            },
        }
    }
}

/// No refs yet.
pub open spec fn no_refs() -> RefModel {
    RefModel { refs: Map::empty(), capabilities: Seq::empty() }
}

/// The refs of a remote, by name, and what it says it can do.
pub struct RefAdvertisement {
    pub refs: ByteMap<ObjectId>,
    pub capabilities: Vec<u8>,
}

impl View for RefAdvertisement {
    type V = RefModel;

    open spec fn view(&self) -> RefModel {
        RefModel {
            refs: self.refs@.map_values(|oid: ObjectId| oid@),
            capabilities: self.capabilities@,
        }
    }
}

impl RefAdvertisement {
    /// No refs yet.
    pub fn new() -> (r: RefAdvertisement)
        ensures
            r@ == no_refs(),
    {
        let r = RefAdvertisement { refs: ByteMap::new(), capabilities: Vec::new() };
        assert(r@ =~= no_refs());
        r
    }

    /// The id of the ref with this name.
    pub fn get(&self, name: &[u8]) -> (r: Option<ObjectId>)
        ensures
            match r {
                Some(oid) => self@.refs.contains_key(name@) && self@.refs[name@] == oid@,
                None => !self@.refs.contains_key(name@),
            },
    {
        match self.refs.get(name) {
            Some(oid) => Some(*oid),
            None => None,
        }
    }

    /// Takes in a line. One that cannot be read changes nothing.
    pub fn add_line(&mut self, line: &[u8]) -> (r: Result<(), RefError>)
        ensures
            match r {
                Ok(_) => old(self)@.with_line(line@) == Ok::<RefModel, RefError>(final(self)@),
                Err(e) => old(self)@.with_line(line@) == Err::<RefModel, RefError>(e)
                    && final(self)@ == old(self)@,
            },
    {
        if utf8_text(line).is_none() {
            return Err(RefError::NotUtf8);
        }
        if line.len() < 41 {
            return Ok(());
        }
        let digits = &line[0..40];
        assert(digits@ =~= line@.take(40));
        let bytes = match hex_decode(digits) {
            Some(bytes) => bytes,
            None => {
                return Err(RefError::BadId);
            },
        };
        if line[40] >= 128 {
            return Err(RefError::BadSeparator);
        }
        let oid = ObjectId::from_bytes(bytes.as_slice());
        assert(oid@ =~= hex_bytes(line@.take(40)));
        let rest = &line[41..line.len()];
        assert(rest@ =~= line@.skip(41));
        match find_byte(rest, 0) {
            Some(nul) => {
                assert(rest@.subrange(0, nul as int) =~= rest@.take(nul as int));
                assert(rest@.subrange(nul + 1, rest@.len() as int) =~= rest@.skip(nul + 1));
                self.refs.insert(&rest[0..nul], oid);
                self.capabilities = copy_bytes(&rest[nul + 1..rest.len()]);
            },
            None => {
                self.refs.insert(trim_newlines(rest), oid);
            },
        }
        assert(self@.refs =~= old(self)@.with_line(line@)->Ok_0.refs);
        Ok(())
    }
}

fn trim_newlines(s: &[u8]) -> (r: &[u8])
    ensures
        r@ == without_newlines(s@),
{
    let mut n: usize = s.len();
    assert(s@.take(n as int) =~= s@);
    while n > 0 && s[n - 1] == 10
        invariant
            n <= s@.len(),
            without_newlines(s@) == without_newlines(s@.take(n as int)),
        decreases n,
    {
        assert(s@.take(n as int).drop_last() =~= s@.take(n - 1));
        n -= 1;
    }
    assert(s@.subrange(0, n as int) =~= s@.take(n as int));
    &s[0..n]
}

/// Reads an advertisement at `pos`, up to a flush or the end of the data, and
/// moves `pos` behind it.
pub fn read_refs(data: &[u8], pos: &mut usize) -> (r: Result<RefAdvertisement, RefError>)
    ensures
        match r {
            Ok(adv) => no_refs().with_lines(data@, *old(pos) as int) == Ok::<
                (RefModel, int),
                RefError,
            >((adv@, *final(pos) as int)),
            Err(e) => no_refs().with_lines(data@, *old(pos) as int) == Err::<
                (RefModel, int),
                RefError,
            >(e) && *final(pos) == *old(pos),
        },
{
    let ghost start = *pos as int;
    let mut adv = RefAdvertisement::new();
    let mut at: usize = *pos;
    loop
        invariant
            start == *old(pos),
            *pos == *old(pos),
            no_refs().with_lines(data@, start) == adv@.with_lines(data@, at as int),
        decreases data@.len() - at,
    {
        match read_pkt_line(data, &mut at) {
            Err(e) => {
                return Err(RefError::Pkt(e));
            },
            Ok(None) => {
                *pos = at;
                return Ok(adv);
            },
            Ok(Some(line)) => {
                match adv.add_line(line.as_slice()) {
                    Err(e) => {
                        return Err(e);
                    },
                    Ok(_) => {},
                }
            },
        }
    }
}

// ---------------------------------------------------------------------------
// Capabilities
// ---------------------------------------------------------------------------

/// ASCII white space.
pub open spec fn white(b: u8) -> bool {
    b == 32 || b == 9 || b == 10 || b == 12 || b == 13
}

/// How many bytes there are before the first white space.
pub open spec fn word_len(s: Seq<u8>) -> nat
    decreases s.len(),
{
    if s.len() == 0 || white(s[0]) {
        0
    } else {
        1 + word_len(s.drop_first())
    }
}

/// The words of `s`, which white space parts.
pub open spec fn words(s: Seq<u8>) -> Seq<Seq<u8>>
    decreases s.len(),
{
    if s.len() == 0 {
        Seq::empty()
    } else if white(s[0]) {
        words(s.drop_first())
    } else {
        let n = word_len(s);
        if n > 0 && n <= s.len() {
            seq![s.take(n as int)] + words(s.skip(n as int))
        } else {
            Seq::empty()
        }
    }
}

/// A capability that a fetch makes use of.
pub open spec fn fetch_capability(word: Seq<u8>) -> bool {
    word == text("multi_ack") || word == text("multi_ack_detailed") || word == text("no-progress")
        || word == text("ofs-delta")
}

/// What stands before the first equals sign.
pub open spec fn before_equals(word: Seq<u8>) -> Seq<u8> {
    match position(word, 61) {
        Some(i) => word.take(i),
        None => word,
    }
}

/// A capability that a push makes use of: its name tells, whatever value it
/// has.
pub open spec fn push_capability(word: Seq<u8>) -> bool {
    let name = before_equals(word);
    name == text("report-status") || name == text("side-band-64k") || name == text("quiet") || name
        == text("agent")
}

/// The words among `ws` that a push, or a fetch, makes use of.
pub open spec fn useful(ws: Seq<Seq<u8>>, push: bool) -> Seq<Seq<u8>>
    decreases ws.len(),
{
    if ws.len() == 0 {
        Seq::empty()
    } else {
        let rest = useful(ws.drop_first(), push);
        if (push && push_capability(ws[0])) || (!push && fetch_capability(ws[0])) {
            seq![ws[0]] + rest
        } else {
            rest
        }
    }
}

/// The words with a space between any two.
pub open spec fn spaced(ws: Seq<Seq<u8>>) -> Seq<u8>
    decreases ws.len(),
{
    if ws.len() == 0 {
        Seq::empty()
    } else if ws.len() == 1 {
        ws[0]
    } else {
        spaced(ws.drop_last()) + seq![32u8] + ws.last()
    }
}

fn is_white(b: u8) -> (r: bool)
    ensures
        r == white(b),
{
    b == 32 || b == 9 || b == 10 || b == 12 || b == 13
}

fn is_useful(word: &[u8], push: bool) -> (r: bool)
    ensures
        r == ((push && push_capability(word@)) || (!push && fetch_capability(word@))),
{
    if push {
        let name = match find_byte(word, 61) {
            Some(i) => {
                assert(word@.subrange(0, i as int) =~= word@.take(i as int));
                &word[0..i]
            },
            None => word,
        };
        same_bytes(name, "report-status".as_bytes()) || same_bytes(
            name,
            "side-band-64k".as_bytes(),
        ) || same_bytes(name, "quiet".as_bytes()) || same_bytes(name, "agent".as_bytes())
    } else {
        same_bytes(word, "multi_ack".as_bytes()) || same_bytes(
            word,
            "multi_ack_detailed".as_bytes(),
        ) || same_bytes(word, "no-progress".as_bytes()) || same_bytes(word, "ofs-delta".as_bytes())
    }
}

fn measure_word(s: &[u8], start: usize) -> (r: usize)
    requires
        start <= s@.len(),
    ensures
        r == word_len(s@.skip(start as int)),
        r <= s@.len() - start,
{
    let mut n: usize = 0;
    assert(s@.skip(start as int).skip(0) =~= s@.skip(start as int));
    while n < s.len() - start && !is_white(s[start + n])
        invariant
            start + n <= s@.len(),
            word_len(s@.skip(start as int)) == n + word_len(s@.skip(start + n)),
        decreases s@.len() - start - n,
    {
        assert(s@.skip(start + n).drop_first() =~= s@.skip(start + n + 1));
        assert(s@.skip(start + n)[0] == s@[start + n]);
        n += 1;
    }
    proof {
        if start + n < s@.len() {
            assert(s@.skip(start + n)[0] == s@[start + n]);
        }
    }
    n
}

/// The capabilities, out of those that the remote has, that a push, or a
/// fetch, makes use of, with a space between any two.
pub fn select_capabilities(capabilities: &[u8], push: bool) -> (r: Vec<u8>)
    ensures
        r@ == spaced(useful(words(capabilities@), push)),
{
    let s = capabilities;
    let ghost all = useful(words(s@), push);
    let ghost mut chosen: Seq<Seq<u8>> = Seq::empty();
    let mut out: Vec<u8> = Vec::new();
    let mut some = false;
    let mut i: usize = 0;
    assert(s@.skip(0) =~= s@);
    assert(chosen + all =~= all);
    while i < s.len()
        invariant
            i <= s@.len(),
            chosen + useful(words(s@.skip(i as int)), push) == all,
            out@ == spaced(chosen),
            some == (chosen.len() > 0),
        decreases s@.len() - i,
    {
        let ghost rest = s@.skip(i as int);
        assert(rest[0] == s@[i as int]);
        if is_white(s[i]) {
            assert(rest.drop_first() =~= s@.skip(i + 1));
            i += 1;
        } else {
            let n: usize = measure_word(s, i);
            assert(word_len(rest) == 1 + word_len(rest.drop_first()));
            let word = &s[i..i + n];
            proof {
                assert(word@ =~= rest.take(n as int));
                assert(rest.skip(n as int) =~= s@.skip(i + n));
                assert(words(rest).drop_first() =~= words(rest.skip(n as int)));
                assert(words(rest)[0] == word@);
            }
            if is_useful(word, push) {
                if some {
                    out.push(32);
                }
                push_bytes(&mut out, word);
                some = true;
                proof {
                    let next = chosen.push(word@);
                    assert(next.drop_last() =~= chosen);
                    assert(out@ =~= spaced(next));
                    assert(chosen + useful(words(rest), push) =~= next + useful(
                        words(rest.skip(n as int)),
                        push,
                    ));
                    chosen = next;
                }
            }
            i = i + n;
        }
    }
    assert(s@.skip(i as int) =~= Seq::empty());
    assert(chosen =~= all);
    out
}

// ---------------------------------------------------------------------------
// Fetch
// ---------------------------------------------------------------------------

/// Why nothing can be asked of a remote, or its answer is a refusal.
#[derive(Clone, Copy, PartialEq, Eq, Structural, Debug)]
pub enum TransportError {
    /// The remote has no such branch.
    NoBranch,
    /// A line that cannot be written.
    Pkt(PktError),
    /// The remote refused what was pushed.
    Rejected,
}

/// What a fetch brought: the commit that the branch leads to, and the pack.
pub struct FetchResult {
    pub head_commit_oid: ObjectId,
    pub packfile: Vec<u8>,
}

/// The name of the ref of a branch.
pub open spec fn branch_ref(branch: Seq<u8>) -> Seq<u8> {
    text("refs/heads/") + branch
}

/// The line that asks for an object.
pub open spec fn want_line(oid: Seq<u8>, capabilities: Seq<u8>) -> Seq<u8> {
    let caps = spaced(useful(words(capabilities), false));
    text("want ") + hex_of(oid) + (if caps.len() == 0 {
        Seq::empty()
    } else {
        text(" ") + caps
    }) + text("\n")
}

/// What a fetch sends: the line that asks for an object, a flush, and that
/// this is all.
pub open spec fn fetch_bytes(oid: Seq<u8>, capabilities: Seq<u8>) -> Seq<u8> {
    pkt_bytes(want_line(oid, capabilities)) + text("0000") + pkt_bytes(text("done\n"))
}

fn ref_of_branch(branch: &str) -> (r: Vec<u8>)
    ensures
        r@ == branch_ref(text(branch)),
{
    let mut name: Vec<u8> = Vec::new();
    push_text(&mut name, "refs/heads/");
    assert(name@ =~= text("refs/heads/"));
    push_text(&mut name, branch);
    name
}

/// What is sent to fetch a branch from a remote with these refs, behind the
/// commit that it leads to.
pub open spec fn fetch_asked(refs: RefModel, branch: Seq<u8>) -> Result<
    (Seq<u8>, Seq<u8>),
    TransportError,
> {
    let name = branch_ref(branch);
    let oid = refs.refs[name];
    let want = want_line(oid, refs.capabilities);
    if !refs.refs.contains_key(name) {
        Err(TransportError::NoBranch)
    } else if want.len() > 0xfffb {
        Err(TransportError::Pkt(PktError::TooLong(want.len() as usize)))
    } else {
        Ok((oid, fetch_bytes(oid, refs.capabilities)))
    }
}

/// What to send to fetch a branch from a remote with these refs, and the
/// commit that it leads to.
pub fn fetch_request(adv: &RefAdvertisement, branch: &str) -> (r: Result<
    (ObjectId, Vec<u8>),
    TransportError,
>)
    ensures
        match r {
            Ok((head, request)) => fetch_asked(adv@, text(branch)) == Ok::<
                (Seq<u8>, Seq<u8>),
                TransportError,
            >((head@, request@)),
            Err(e) => fetch_asked(adv@, text(branch)) == Err::<
                (Seq<u8>, Seq<u8>),
                TransportError,
            >(e),
        },
{
    let name = ref_of_branch(branch);
    let head = match adv.get(name.as_slice()) {
        Some(oid) => oid,
        None => {
            return Err(TransportError::NoBranch);
        },
    };
    let caps = select_capabilities(adv.capabilities.as_slice(), false);
    let mut want: Vec<u8> = Vec::new();
    push_text(&mut want, "want ");
    push_bytes(&mut want, hex_encode(head.as_bytes()).as_slice());
    if caps.len() > 0 {
        push_text(&mut want, " ");
        push_bytes(&mut want, caps.as_slice());
    }
    push_text(&mut want, "\n");
    assert(want@ =~= want_line(head@, adv@.capabilities));
    let mut request: Vec<u8> = Vec::new();
    match write_pkt_line(&mut request, want.as_slice()) {
        Ok(_) => {},
        Err(e) => {
            return Err(TransportError::Pkt(e));
        },
    }
    write_flush(&mut request);
    proof {
        reveal_strlit("done\n");
        vstd::utf8::is_ascii_chars_encode_utf8("done\n"@);
    }
    match write_pkt_line(&mut request, "done\n".as_bytes()) {
        Ok(_) => {},
        Err(e) => {
            return Err(TransportError::Pkt(e));
        },
    }
    assert(request@ =~= fetch_bytes(head@, adv@.capabilities));
    Ok((head, request))
}

/// Whether a line that says which commits both sides have stands at `pos` of a
/// reply, and where it ends. The last eight bytes are never looked at.
pub open spec fn acknowledgement(raw: Seq<u8>, pos: int) -> Option<int> {
    if pos + 8 > raw.len() {
        None
    } else {
        match radix16(raw.subrange(pos, pos + 4)) {
            None => None,
            Some(n) => if n < 4 || pos + n > raw.len() {
                None
            } else {
                let line = raw.subrange(pos + 4, pos + n);
                if begins_with(line, text("NAK")) || begins_with(line, text("ACK")) {
                    Some(pos + n)
                } else {
                    None
                }
            },
        }
    }
}

/// Where the pack starts in what is left of a reply from `pos` on: behind the
/// acknowledgements.
pub open spec fn pack_offset(raw: Seq<u8>, pos: int) -> int
    decreases raw.len() - pos,
{
    match acknowledgement(raw, pos) {
        Some(end) => if pos < end <= raw.len() {
            pack_offset(raw, end)
        } else {
            pos
        },
        None => pos,
    }
}

/// The pack in the reply to a fetch: what stands behind the acknowledgements.
pub fn fetched_pack(raw: &[u8]) -> (r: Vec<u8>)
    ensures
        0 <= pack_offset(raw@, 0) <= raw@.len(),
        r@ == raw@.skip(pack_offset(raw@, 0)),
{
    let mut offset: usize = 0;
    while raw.len() >= 8 && offset <= raw.len() - 8
        invariant
            offset <= raw@.len(),
            pack_offset(raw@, 0) == pack_offset(raw@, offset as int),
        ensures
            offset <= raw@.len(),
            pack_offset(raw@, 0) == offset,
        decreases raw@.len() - offset,
    {
        let n: usize = match parse_radix16(&raw[offset..offset + 4]) {
            Some(n) => n,
            None => {
                break;
            },
        };
        if n < 4 || n > raw.len() - offset {
            break;
        }
        let line = &raw[offset + 4..offset + n];
        if !has_prefix(line, "NAK".as_bytes()) && !has_prefix(line, "ACK".as_bytes()) {
            break;
        }
        offset += n;
    }
    assert(raw@.subrange(offset as int, raw@.len() as int) =~= raw@.skip(offset as int));
    copy_bytes(&raw[offset..raw.len()])
}

// ---------------------------------------------------------------------------
// Push
// ---------------------------------------------------------------------------

/// The id that stands for no object.
pub open spec fn zero_oid() -> Seq<u8> {
    Seq::new(20, |i: int| 0u8)
}

/// The line that asks to move a branch from one commit to another.
pub open spec fn push_line(
    refs: RefModel,
    branch: Seq<u8>,
    new: Seq<u8>,
) -> Seq<u8> {
    let name = branch_ref(branch);
    let from = if refs.refs.contains_key(name) {
        refs.refs[name]
    } else {
        zero_oid()
    };
    hex_of(from) + text(" ") + hex_of(new) + text(" ") + name + seq![0u8] + spaced(
        useful(words(refs.capabilities), true),
    ) + text("\n")
}

/// What is sent before the pack, to a remote with these refs: the line that
/// asks, and a flush.
pub open spec fn push_asked(refs: RefModel, branch: Seq<u8>, new: Seq<u8>) -> Result<
    Seq<u8>,
    TransportError,
> {
    let line = push_line(refs, branch, new);
    if line.len() > 0xfffb {
        Err(TransportError::Pkt(PktError::TooLong(line.len() as usize)))
    } else {
        Ok(pkt_bytes(line) + text("0000"))
    }
}

/// What to send before the pack, to a remote with these refs, so that the
/// branch leads to a new commit.
pub fn push_request(adv: &RefAdvertisement, branch: &str, new_commit_oid: &ObjectId) -> (r: Result<
    Vec<u8>,
    TransportError,
>)
    ensures
        match r {
            Ok(request) => push_asked(adv@, text(branch), new_commit_oid@) == Ok::<
                Seq<u8>,
                TransportError,
            >(request@),
            Err(e) => push_asked(adv@, text(branch), new_commit_oid@) == Err::<
                Seq<u8>,
                TransportError,
            >(e),
        },
{
    let name = ref_of_branch(branch);
    let from = match adv.get(name.as_slice()) {
        Some(oid) => oid,
        None => {
            let zero = ObjectId { bytes: [0u8; 20] };
            assert(zero@ =~= zero_oid());
            zero
        },
    };
    let mut line: Vec<u8> = hex_encode(from.as_bytes());
    push_text(&mut line, " ");
    push_bytes(&mut line, hex_encode(new_commit_oid.as_bytes()).as_slice());
    push_text(&mut line, " ");
    push_bytes(&mut line, name.as_slice());
    line.push(0);
    push_bytes(
        &mut line,
        select_capabilities(adv.capabilities.as_slice(), true).as_slice(),
    );
    push_text(&mut line, "\n");
    assert(line@ =~= push_line(adv@, text(branch), new_commit_oid@));
    let mut request: Vec<u8> = Vec::new();
    match write_pkt_line(&mut request, line.as_slice()) {
        Ok(_) => {},
        Err(e) => {
            return Err(TransportError::Pkt(e));
        },
    }
    write_flush(&mut request);
    assert(request@ =~= pkt_bytes(line@) + text("0000"));
    Ok(request)
}

/// A line starts at `i`: at the start of all, behind a newline, or behind the
/// byte that tells the first band.
pub open spec fn line_starts(report: Seq<u8>, i: int) -> bool {
    i == 0 || report[i - 1] == 10 || report[i - 1] == 1
}

/// What a line says stands at `i`: where the line starts, or behind the four
/// digits that tell its length.
pub open spec fn line_speaks(report: Seq<u8>, i: int) -> bool {
    ||| line_starts(report, i)
    ||| i >= 4 && line_starts(report, i - 4) && forall|k: int|
        i - 4 <= k < i ==> hex_value(#[trigger] report[k]) is Some
}

/// What a line says stands at `i`, and begins with `start`.
pub open spec fn line_begins(report: Seq<u8>, i: int, start: Seq<u8>) -> bool {
    0 <= i <= report.len() && line_speaks(report, i) && begins_with(report.skip(i), start)
}

/// What some line says begins with `start`.
pub open spec fn has_line(report: Seq<u8>, start: Seq<u8>) -> bool {
    exists|i: int| #[trigger] line_begins(report, i, start)
}

fn starts_line(report: &[u8], i: usize) -> (r: bool)
    requires
        i <= report@.len(),
    ensures
        r == line_starts(report@, i as int),
{
    i == 0 || report[i - 1] == 10 || report[i - 1] == 1
}

fn speaks_at(report: &[u8], i: usize) -> (r: bool)
    requires
        i <= report@.len(),
    ensures
        r == line_speaks(report@, i as int),
{
    if starts_line(report, i) {
        return true;
    }
    if i < 4 || !starts_line(report, i - 4) {
        return false;
    }
    let mut k: usize = i - 4;
    while k < i
        invariant
            4 <= i <= report@.len(),
            i - 4 <= k <= i,
            !line_starts(report@, i as int),
            line_starts(report@, i - 4),
            forall|x: int| i - 4 <= x < k ==> hex_value(#[trigger] report@[x]) is Some,
        decreases i - k,
    {
        if value_of_digit(report[k]).is_none() {
            assert(hex_value(report@[k as int]) is None);
            return false;
        }
        k += 1;
    }
    true
}

fn holds_line(report: &[u8], start: &[u8]) -> (r: bool)
    ensures
        r == has_line(report@, start@),
{
    let mut i: usize = 0;
    while i <= report.len()
        invariant
            i <= report@.len() + 1,
            forall|k: int| 0 <= k < i ==> !#[trigger] line_begins(report@, k, start@),
        decreases report@.len() + 1 - i,
    {
        assert(report@.subrange(i as int, report@.len() as int) =~= report@.skip(i as int));
        if speaks_at(report, i) && has_prefix(&report[i..report.len()], start) {
            assert(line_begins(report@, i as int, start@));
            return true;
        }
        if i == report.len() {
            return false;
        }
        i += 1;
    }
    false
}

/// What a remote's report on a push says: that it was taken, with no line `ng`;
/// or that it was not, and may be tried again on top of what is there now.
/// Anything else is a refusal.
pub open spec fn push_verdict(report: Seq<u8>) -> Result<bool, TransportError> {
    if holds_text(report, text("unpack ok")) && !has_line(report, text("ng ")) {
        Ok(true)
    } else if has_line(report, text("ng ")) || holds_text(report, text("non-fast-forward"))
        || holds_text(report, text("fetch first")) || holds_text(report, text("NG")) {
        Ok(false)
    } else {
        Err(TransportError::Rejected)
    }
}

/// What a remote's report on a push says.
pub fn push_outcome(report: &[u8]) -> (r: Result<bool, TransportError>)
    ensures
        r == push_verdict(report@),
{
    let refused = holds_line(report, "ng ".as_bytes());
    if has_part(report, "unpack ok".as_bytes()) && !refused {
        Ok(true)
    } else if refused || has_part(report, "non-fast-forward".as_bytes()) || has_part(
        report,
        "fetch first".as_bytes(),
    ) || has_part(report, "NG".as_bytes()) {
        Ok(false)
    } else {
        Err(TransportError::Rejected)
    }
}

/// A push asks a remote with these capabilities for bands.
pub open spec fn asks_for_bands(ws: Seq<Seq<u8>>) -> bool
    decreases ws.len(),
{
    ws.len() > 0 && (before_equals(ws[0]) == text("side-band-64k") || asks_for_bands(
        ws.drop_first(),
    ))
}

/// Whether a push asks a remote with these capabilities for bands, so that its
/// report comes in the first of them.
pub fn uses_side_band(capabilities: &[u8]) -> (r: bool)
    ensures
        r == asks_for_bands(words(capabilities@)),
{
    let s = capabilities;
    let mut i: usize = 0;
    assert(s@.skip(0) =~= s@);
    while i < s.len()
        invariant
            i <= s@.len(),
            s@ == capabilities@,
            asks_for_bands(words(s@)) == asks_for_bands(words(s@.skip(i as int))),
        decreases s@.len() - i,
    {
        let ghost rest = s@.skip(i as int);
        assert(rest[0] == s@[i as int]);
        if is_white(s[i]) {
            assert(rest.drop_first() =~= s@.skip(i + 1));
            i += 1;
        } else {
            let n: usize = measure_word(s, i);
            assert(word_len(rest) == 1 + word_len(rest.drop_first()));
            let word = &s[i..i + n];
            proof {
                assert(word@ =~= rest.take(n as int));
                assert(rest.skip(n as int) =~= s@.skip(i + n));
                assert(words(rest).drop_first() =~= words(rest.skip(n as int)));
                assert(words(rest)[0] == word@);
            }
            let name = match find_byte(word, 61) {
                Some(k) => {
                    assert(word@.subrange(0, k as int) =~= word@.take(k as int));
                    &word[0..k]
                },
                None => word,
            };
            if same_bytes(name, "side-band-64k".as_bytes()) {
                return true;
            }
            i = i + n;
        }
    }
    assert(s@.skip(i as int) =~= Seq::empty());
    false
}

/// The lines from `pos` on, up to a flush or the end of the data, put
/// together.
pub open spec fn report_of(data: Seq<u8>, pos: int) -> Result<Seq<u8>, PktError>
    decreases data.len() - pos,
{
    match pkt_line(data, pos) {
        Err(e) => Err(e),
        Ok((None, _)) => Ok(Seq::empty()),
        Ok((Some(line), end)) => if pos < end <= data.len() {
            match report_of(data, end) {
                Ok(rest) => Ok(line + rest),
                Err(e) => Err(e),
            }
        } else {
            Ok(line)
        },
    }
}

/// Reads a remote's report on a push.
pub fn read_report(data: &[u8]) -> (r: Result<Vec<u8>, PktError>)
    ensures
        match r {
            Ok(report) => report_of(data@, 0) == Ok::<Seq<u8>, PktError>(report@),
            Err(e) => report_of(data@, 0) == Err::<Seq<u8>, PktError>(e),
        },
{
    let mut report: Vec<u8> = Vec::new();
    let mut at: usize = 0;
    loop
        invariant
            report_of(data@, 0) =~~= match report_of(data@, at as int) {
                Ok(rest) => Ok::<Seq<u8>, PktError>(report@ + rest),
                Err(e) => Err::<Seq<u8>, PktError>(e),
            },
        decreases data@.len() - at,
    {
        let ghost before = report@;
        let ghost from = at as int;
        match read_pkt_line(data, &mut at) {
            Err(e) => {
                return Err(e);
            },
            Ok(None) => {
                assert(report@ + Seq::<u8>::empty() =~= report@);
                return Ok(report);
            },
            Ok(Some(line)) => {
                push_bytes(&mut report, line.as_slice());
                proof {
                    let rest = report_of(data@, at as int);
                    if rest is Ok {
                        assert(report@ + rest->Ok_0 =~= before + (line@ + rest->Ok_0));
                    }
                }
            },
        }
    }
}

/// What a list of lines is.
pub open spec fn line_models(lines: Seq<Vec<u8>>) -> Seq<Seq<u8>> {
    lines.map_values(|line: Vec<u8>| line@)
}

/// The lines, put together.
pub open spec fn joined_lines(lines: Seq<Seq<u8>>) -> Seq<u8>
    decreases lines.len(),
{
    if lines.len() == 0 {
        Seq::empty()
    } else {
        joined_lines(lines.drop_last()) + lines.last()
    }
}

/// What the first band carries: the lines that begin with its byte, without
/// it, put together.
pub open spec fn first_band(lines: Seq<Seq<u8>>) -> Seq<u8>
    decreases lines.len(),
{
    if lines.len() == 0 {
        Seq::empty()
    } else {
        let front = first_band(lines.drop_last());
        let line = lines.last();
        if line.len() > 0 && line[0] == 1 {
            front + line.drop_first()
        } else {
            front
        }
    }
}

/// The report that the lines of a remote make up: the lines, put together; or,
/// with bands, the lines that the first band carries. A band that does not
/// carry lines is taken as it is.
pub open spec fn report_model(lines: Seq<Seq<u8>>, side_band: bool) -> Seq<u8> {
    if side_band {
        match report_of(first_band(lines), 0) {
            Ok(report) => report,
            Err(_) => first_band(lines),
        }
    } else {
        joined_lines(lines)
    }
}

/// The report that the lines of a remote make up.
pub fn report_text(lines: &[Vec<u8>], side_band: bool) -> (r: Vec<u8>)
    ensures
        r@ == report_model(line_models(lines@), side_band),
{
    let ghost all = line_models(lines@);
    let mut out: Vec<u8> = Vec::new();
    let mut i: usize = 0;
    assert(all.take(0) =~= Seq::empty());
    while i < lines.len()
        invariant
            i <= lines@.len(),
            all == line_models(lines@),
            out@ == if side_band {
                first_band(all.take(i as int))
            } else {
                joined_lines(all.take(i as int))
            },
        decreases lines@.len() - i,
    {
        assert(all.take(i + 1).drop_last() =~= all.take(i as int));
        assert(all.take(i + 1).last() == all[i as int]);
        let line = lines[i].as_slice();
        if !side_band {
            push_bytes(&mut out, line);
        } else if line.len() > 0 && line[0] == 1 {
            assert(line@.subrange(1, line@.len() as int) =~= line@.drop_first());
            push_bytes(&mut out, &line[1..line.len()]);
        }
        i += 1;
    }
    assert(all.take(i as int) =~= all);
    if side_band {
        if let Ok(report) = read_report(out.as_slice()) {
            return report;
        }
    }
    out
}

// ---------------------------------------------------------------------------
// Attempts
// ---------------------------------------------------------------------------

/// How often a fetch, a push or a whole change is tried.
pub const MAX_RETRIES: u32 = 3;

/// What to do after an attempt.
#[derive(Clone, Copy, PartialEq, Eq, Structural, Debug)]
pub enum Retry {
    /// What came out stands.
    Stop,
    /// Try again, as the attempt of this number.
    Again(u32),
}

/// What to do after the attempt of this number, counted from one: a failure is
/// tried again until there have been three attempts.
pub open spec fn next_attempt(attempt: u32, failed: bool) -> Retry {
    if failed && attempt < MAX_RETRIES {
        Retry::Again((attempt + 1) as u32)
    } else {
        Retry::Stop
    }
}

/// What to do after the attempt of this number.
pub fn after_attempt(attempt: u32, failed: bool) -> (r: Retry)
    ensures
        r == next_attempt(attempt, failed),
{
    if failed && attempt < MAX_RETRIES {
        Retry::Again(attempt + 1)
    } else {
        Retry::Stop
    }
}

} // verus!
