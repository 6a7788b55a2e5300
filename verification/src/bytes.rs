//! Byte strings: comparing, searching and copying them, and the plain-text
//! numbers (decimal) that Git objects and protocol lines are written with.

use vstd::prelude::*;
use vstd::utf8::encode_utf8;

verus! {

/// The bytes of a piece of text.
pub open spec fn text(s: &str) -> Seq<u8> {
    encode_utf8(s@)
}

/// Where `b` occurs first in `s`.
pub open spec fn position(s: Seq<u8>, b: u8) -> Option<int>
    decreases s.len(),
{
    if s.len() == 0 {
        None
    } else if s[0] == b {
        Some(0)
    } else {
        match position(s.drop_first(), b) {
            Some(i) => Some(i + 1),
            None => None,
        }
    }
}

/// `s` begins with `prefix`.
pub open spec fn begins_with(s: Seq<u8>, prefix: Seq<u8>) -> bool {
    prefix.len() <= s.len() && s.subrange(0, prefix.len() as int) == prefix
}

/// `part` stands somewhere in `s`, in one piece.
pub open spec fn holds_text(s: Seq<u8>, part: Seq<u8>) -> bool {
    exists|i: int|
        0 <= i <= s.len() - part.len() && #[trigger] s.subrange(i, i + part.len()) == part
}

/// The decimal digits of `n`, without leading zeros.
pub open spec fn decimal(n: nat) -> Seq<u8>
    decreases n,
{
    if n < 10 {
        seq![(48 + n) as u8]
    } else {
        decimal(n / 10).push((48 + n % 10) as u8)
    }
}

/// `position` is the first index that holds `b`, and is absent only where no
/// index holds it.
pub proof fn lemma_position(s: Seq<u8>, b: u8)
    ensures
        position(s, b) matches Some(i) ==> 0 <= i < s.len() && s[i] == b && forall|j: int|
            0 <= j < i ==> s[j] != b,
        position(s, b) is None ==> forall|j: int| 0 <= j < s.len() ==> s[j] != b,
    decreases s.len(),
{
    if s.len() > 0 && s[0] != b {
        let t = s.drop_first();
        lemma_position(t, b);
        match position(t, b) {
            Some(i) => {
                assert forall|j: int| 0 <= j < i + 1 implies s[j] != b by {
                    if j > 0 {
                        assert(t[j - 1] == s[j]);
                    }
                }
            },
            None => {
                assert forall|j: int| 0 <= j < s.len() implies s[j] != b by {
                    if j > 0 {
                        assert(t[j - 1] == s[j]);
                    }
                }
            },
        }
    }
}

/// An index that holds `b`, with none before it, is the `position` of `b`.
pub proof fn lemma_position_is(s: Seq<u8>, b: u8, i: int)
    requires
        0 <= i < s.len(),
        s[i] == b,
        forall|j: int| 0 <= j < i ==> s[j] != b,
    ensures
        position(s, b) == Some(i),
{
    lemma_position(s, b);
    match position(s, b) {
        Some(k) => {
            if k < i {
                assert(s[k] != b);
            }
        },
        None => {
            assert(s[i] != b);
        },
    }
}

/// A string without `b` has no `position` of it.
pub proof fn lemma_position_none(s: Seq<u8>, b: u8)
    requires
        forall|j: int| 0 <= j < s.len() ==> s[j] != b,
    ensures
        position(s, b) is None,
{
    lemma_position(s, b);
}

/// Whether two byte strings are the same.
pub fn same_bytes(a: &[u8], b: &[u8]) -> (r: bool)
    ensures
        r == (a@ == b@),
{
    if a.len() != b.len() {
        return false;
    }
    let mut i: usize = 0;
    while i < a.len()
        invariant
            i <= a.len(),
            a.len() == b.len(),
            forall|j: int| 0 <= j < i ==> a@[j] == b@[j],
        decreases a.len() - i,
    {
        if a[i] != b[i] {
            return false;
        }
        i += 1;
    }
    assert(a@ =~= b@);
    true
}

/// A copy of `s`.
pub fn copy_bytes(s: &[u8]) -> (r: Vec<u8>)
    ensures
        r@ == s@,
{
    let mut r: Vec<u8> = Vec::new();
    push_bytes(&mut r, s);
    assert(r@ =~= s@);
    r
}

/// Puts `s` at the end of `buf`.
pub fn push_bytes(buf: &mut Vec<u8>, s: &[u8])
    ensures
        final(buf)@ == old(buf)@ + s@,
{
    buf.extend_from_slice(s);
    assert(buf@ =~= old(buf)@ + s@);
}

/// Puts the bytes of a piece of text at the end of `buf`.
pub fn push_text(buf: &mut Vec<u8>, s: &str)
    ensures
        final(buf)@ == old(buf)@ + text(s),
{
    push_bytes(buf, s.as_bytes());
}

/// Where `b` occurs first in `s`.
pub fn find_byte(s: &[u8], b: u8) -> (r: Option<usize>)
    ensures
        match r {
            Some(i) => position(s@, b) == Some(i as int) && i < s.len(),
            None => position(s@, b) is None,
        },
{
    let mut i: usize = 0;
    while i < s.len()
        invariant
            i <= s.len(),
            forall|j: int| 0 <= j < i ==> s@[j] != b,
        decreases s.len() - i,
    {
        if s[i] == b {
            proof {
                lemma_position_is(s@, b, i as int);
            }
            return Some(i);
        }
        i += 1;
    }
    proof {
        lemma_position_none(s@, b);
    }
    None
}

/// Whether `s` begins with `prefix`.
pub fn has_prefix(s: &[u8], prefix: &[u8]) -> (r: bool)
    ensures
        r == begins_with(s@, prefix@),
{
    if prefix.len() > s.len() {
        return false;
    }
    same_bytes(&s[0..prefix.len()], prefix)
}

/// Whether `part` stands somewhere in `s`, in one piece.
pub fn has_part(s: &[u8], part: &[u8]) -> (r: bool)
    ensures
        r == holds_text(s@, part@),
{
    if part.len() > s.len() {
        return false;
    }
    let last: usize = s.len() - part.len();
    let mut i: usize = 0;
    while i <= last
        invariant
            last == s.len() - part.len(),
            i <= last + 1,
            forall|j: int|
                0 <= j < i ==> #[trigger] s@.subrange(j, j + part@.len()) != part@,
        decreases last + 1 - i,
    {
        if same_bytes(&s[i..i + part.len()], part) {
            return true;
        }
        if i == last {
            return false;
        }
        i += 1;
    }
    false
}

/// Puts the decimal digits of `n` at the end of `buf`.
pub fn push_decimal(buf: &mut Vec<u8>, n: u64)
    ensures
        final(buf)@ == old(buf)@ + decimal(n as nat),
    decreases n,
{
    if n < 10 {
        buf.push(48 + n as u8);
        assert(buf@ =~= old(buf)@ + decimal(n as nat));
    } else {
        push_decimal(buf, n / 10);
        buf.push(48 + (n % 10) as u8);
        assert(buf@ =~= old(buf)@ + decimal(n as nat));
    }
}

} // verus!
