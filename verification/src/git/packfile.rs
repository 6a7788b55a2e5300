//! Packfiles: the numbers and deltas that they are made of, reading the
//! objects of one, and writing one.

use std::collections::HashMap;

use vstd::prelude::*;

use crate::bytes::{
    begins_with, decimal, has_prefix, push_bytes, push_decimal, push_text, same_bytes, text,
};
use crate::oid::{ObjectId, ObjectMap};
use crate::outside::{deflate, inflate, sha1_digest, sha1_of, zlib_deflated, zlib_inflated};
use crate::store::ByteMap;

verus! {

broadcast use vstd::std_specs::hash::group_hash_axioms;

// ---------------------------------------------------------------------------
// Object types
// ---------------------------------------------------------------------------

pub const OBJ_COMMIT: u8 = 1;

pub const OBJ_TREE: u8 = 2;

pub const OBJ_BLOB: u8 = 3;

pub const OBJ_OFS_DELTA: u8 = 6;

pub const OBJ_REF_DELTA: u8 = 7;

/// Why a pack or a delta cannot be read or written.
#[derive(Clone, Copy, PartialEq, Eq, Structural, Debug)]
pub enum PackError {
    /// The data does not begin as a pack does.
    BadMagic,
    /// The pack is of a version other than 2 and 3.
    UnsupportedVersion(u32),
    /// The data ends too early.
    Truncated,
    /// The last twenty bytes are not the digest of those before.
    BadChecksum,
    /// A number takes more bytes than a machine word has room for.
    NumberTooLong,
    /// No sound zlib stream stands at this byte, or none could be written.
    Zlib(usize),
    /// The object at this byte builds on an offset where no object starts.
    MissingBase(usize),
    /// A delta copies from beyond the end of its base.
    CopyOutOfRange,
}

// ---------------------------------------------------------------------------
// Varint helpers
// ---------------------------------------------------------------------------

/// The number of values of a machine word.
pub open spec fn word() -> int {
    usize::MAX + 1
}

/// 128 to the power of `n`.
pub open spec fn pow128(n: nat) -> int
    decreases n,
{
    if n == 0 {
        1
    } else {
        128 * pow128((n - 1) as nat)
    }
}

/// A number in groups of seven bits, the lowest first, each but the last with
/// its high bit set: its value, and where it ends. It may take up to `room`
/// bytes.
pub open spec fn varint(data: Seq<u8>, pos: int, room: nat) -> Result<(nat, int), PackError>
    decreases room,
{
    if pos >= data.len() {
        Err(PackError::Truncated)
    } else if room == 0 {
        Err(PackError::NumberTooLong)
    } else if data[pos] < 128 {
        Ok((data[pos] as nat, pos + 1))
    } else {
        match varint(data, pos + 1, (room - 1) as nat) {
            Ok((v, end)) => Ok(((data[pos] - 128 + 128 * v) as nat, end)),
            Err(e) => Err(e),
        }
    }
}

/// The groups of seven bits that stand for `n`.
pub open spec fn groups(n: nat) -> Seq<u8>
    decreases n,
{
    if n < 128 {
        seq![n as u8]
    } else {
        seq![(128 + n % 128) as u8] + groups(n / 128)
    }
}

/// How many groups fit into a word that holds `taken` bits already.
pub open spec fn group_room(taken: nat) -> nat {
    ((usize::BITS - taken + 6) / 7) as nat
}

/// The header of a packed object: its type, its size, and where it ends.
pub open spec fn size_type(data: Seq<u8>, pos: int) -> Result<(u8, usize, int), PackError> {
    if pos >= data.len() {
        Err(PackError::Truncated)
    } else {
        let kind = ((data[pos] / 16) % 8) as u8;
        let low = (data[pos] % 16) as int;
        if data[pos] < 128 {
            Ok((kind, low as usize, pos + 1))
        } else {
            match varint(data, pos + 1, group_room(4)) {
                Ok((v, end)) => Ok((kind, ((low + 16 * v) % word()) as usize, end)),
                Err(e) => Err(e),
            }
        }
    }
}

/// The bytes of the header of an object of this type and size.
pub open spec fn size_type_bytes(kind: u8, size: nat) -> Seq<u8> {
    let first = (kind % 8) * 16 + size % 16;
    if size < 16 {
        seq![first as u8]
    } else {
        seq![(128 + first) as u8] + groups(size / 16)
    }
}

proof fn lemma_pow128_10()
    ensures
        pow128(10) == 0x40_0000_0000_0000_0000,
{
    reveal_with_fuel(pow128, 11);
}

fn read_varint(data: &[u8], pos: usize, room: u32) -> (r: Result<(u128, usize), PackError>)
    requires
        room <= 10,
        pos <= data@.len(),
    ensures
        match r {
            Ok((v, end)) => varint(data@, pos as int, room as nat) == Ok::<(nat, int), PackError>(
                (v as nat, end as int),
            ) && v < pow128(room as nat) && pos < end <= data@.len(),
            Err(e) => varint(data@, pos as int, room as nat) == Err::<(nat, int), PackError>(e),
        },
    decreases room,
{
    proof {
        lemma_pow128_10();
        lemma_pow128_grows(room as nat, 10);
    }
    if pos >= data.len() {
        return Err(PackError::Truncated);
    }
    if room == 0 {
        return Err(PackError::NumberTooLong);
    }
    proof {
        lemma_pow128_grows(0, (room - 1) as nat);
    }
    let b: u8 = data[pos];
    if b < 128 {
        return Ok((b as u128, pos + 1));
    }
    match read_varint(data, pos + 1, room - 1) {
        Ok((v, end)) => Ok(((b - 128) as u128 + 128 * v, end)),
        Err(e) => Err(e),
    }
}

proof fn lemma_pow128_grows(a: nat, b: nat)
    requires
        a <= b,
    ensures
        1 <= pow128(a) <= pow128(b),
    decreases b,
{
    if a < b {
        lemma_pow128_grows(a, (b - 1) as nat);
    } else if a > 0 {
        lemma_pow128_grows((a - 1) as nat, (a - 1) as nat);
    }
}

/// Reads the header of a packed object at `pos`: its type and its size. `pos`
/// moves behind it, and stays where it is if there is no header to read.
pub fn decode_size_type(data: &[u8], pos: &mut usize) -> (r: Result<(u8, usize), PackError>)
    ensures
        match r {
            Ok((kind, size)) => size_type(data@, *old(pos) as int) == Ok::<
                (u8, usize, int),
                PackError,
            >((kind, size, *final(pos) as int)) && *old(pos) < *final(pos) <= data@.len() && kind
                < 8,
            Err(e) => size_type(data@, *old(pos) as int) == Err::<(u8, usize, int), PackError>(e)
                && *final(pos) == *old(pos),
        },
{
    let start: usize = *pos;
    if start >= data.len() {
        return Err(PackError::Truncated);
    }
    let b: u8 = data[start];
    let kind: u8 = (b / 16) % 8;
    let low: u8 = b % 16;
    if b < 128 {
        *pos = start + 1;
        return Ok((kind, low as usize));
    }
    let room: u32 = (usize::BITS - 4 + 6) / 7;
    match read_varint(data, start + 1, room) {
        Ok((v, end)) => {
            proof {
                lemma_pow128_10();
                lemma_pow128_grows(room as nat, 10);
            }
            *pos = end;
            let modulus: u128 = usize::MAX as u128 + 1;
            let size: usize = ((low as u128 + 16 * v) % modulus) as usize;
            Ok((kind, size))
        },
        Err(e) => Err(e),
    }
}

/// The header of an object of this type and size.
pub fn encode_size_type(kind: u8, size: usize) -> (r: Vec<u8>)
    ensures
        r@ == size_type_bytes(kind, size as nat),
{
    let mut buf: Vec<u8> = Vec::new();
    let first: u8 = (kind % 8) * 16 + (size % 16) as u8;
    if size < 16 {
        buf.push(first);
        assert(buf@ =~= size_type_bytes(kind, size as nat));
        return buf;
    }
    buf.push(128 + first);
    let mut remaining: usize = size / 16;
    let ghost head = buf@;
    while remaining >= 128
        invariant
            head + groups((size / 16) as nat) == buf@ + groups(remaining as nat),
        decreases remaining,
    {
        let ghost before = buf@;
        buf.push(128 + (remaining % 128) as u8);
        assert(before + groups(remaining as nat) =~= buf@ + groups((remaining / 128) as nat));
        remaining = remaining / 128;
    }
    let ghost before = buf@;
    buf.push(remaining as u8);
    assert(before + groups(remaining as nat) =~= buf@);
    assert(head =~= seq![(128 + first) as u8]);
    buf
}

/// A number is read back from the groups that stand for it.
pub proof fn lemma_groups_read_back(data: Seq<u8>, pos: int, n: nat, room: nat)
    requires
        0 <= pos,
        pos + groups(n).len() <= data.len(),
        data.subrange(pos, pos + groups(n).len()) == groups(n),
        n < pow128(room),
        room > 0,
    ensures
        varint(data, pos, room) == Ok::<(nat, int), PackError>((n, pos + groups(n).len())),
    decreases room,
{
    let g = groups(n);
    let piece = data.subrange(pos, pos + g.len());
    assert(g.len() >= 1);
    assert(piece[0] == data[pos]);
    if n >= 128 {
        assert(pow128(1) == 128) by {
            reveal_with_fuel(pow128, 2);
        }
        let rest = groups(n / 128);
        assert(g.len() == 1 + rest.len());
        assert(data.subrange(pos + 1, pos + 1 + rest.len()) =~= rest) by {
            assert forall|i: int| 0 <= i < rest.len() implies data.subrange(
                pos + 1,
                pos + 1 + rest.len(),
            )[i] == rest[i] by {
                assert(piece[i + 1] == data[pos + 1 + i]);
                assert(g[i + 1] == rest[i]);
            }
        }
        lemma_groups_read_back(data, pos + 1, n / 128, (room - 1) as nat);
        assert(g[0] == (128 + n % 128) as u8);
    }
}

/// The header of an object tells the type and the size that it was made from:
/// what `encode_size_type` writes, `decode_size_type` reads back.
pub proof fn lemma_size_type_read_back(data: Seq<u8>, pos: int, kind: u8, size: usize)
    requires
        0 <= pos,
        pos + size_type_bytes(kind, size as nat).len() <= data.len(),
        data.subrange(pos, pos + size_type_bytes(kind, size as nat).len()) == size_type_bytes(
            kind,
            size as nat,
        ),
    ensures
        size_type(data, pos) == Ok::<(u8, usize, int), PackError>(
            (kind % 8, size, pos + size_type_bytes(kind, size as nat).len()),
        ),
{
    let h = size_type_bytes(kind, size as nat);
    let piece = data.subrange(pos, pos + h.len());
    assert(piece[0] == data[pos]);
    let first = (kind % 8) * 16 + size % 16;
    if size >= 16 {
        let rest = groups((size / 16) as nat);
        assert(data.subrange(pos + 1, pos + 1 + rest.len()) =~= rest) by {
            assert forall|i: int| 0 <= i < rest.len() implies data.subrange(
                pos + 1,
                pos + 1 + rest.len(),
            )[i] == rest[i] by {
                assert(piece[i + 1] == data[pos + 1 + i]);
                assert(h[i + 1] == rest[i]);
            }
        }
        reveal_with_fuel(pow128, 11);
        lemma_groups_read_back(data, pos + 1, (size / 16) as nat, group_room(4));
        vstd::arithmetic::div_mod::lemma_small_mod(size as nat, word() as nat);
        assert((data[pos] % 16) as int + 16 * (size / 16) == size);
    }
}

// ---------------------------------------------------------------------------
// Object hashing
// ---------------------------------------------------------------------------

/// What an object of this type is called.
pub open spec fn kind_name(kind: u8) -> Seq<u8> {
    if kind == OBJ_COMMIT {
        text("commit")
    } else if kind == OBJ_TREE {
        text("tree")
    } else {
        text("blob")
    }
}

/// A type that an object can be stored with.
pub open spec fn plain_kind(kind: u8) -> bool {
    kind == OBJ_COMMIT || kind == OBJ_TREE || kind == OBJ_BLOB
}

/// The id of an object: the digest of its type, its length and its content.
pub open spec fn object_id(kind: u8, content: Seq<u8>) -> Seq<u8> {
    sha1_of(kind_name(kind) + seq![32u8] + decimal(content.len()) + seq![0u8] + content)@
}

/// The id of an object of this type.
pub fn hash_object(kind: u8, content: &[u8]) -> (r: ObjectId)
    requires
        plain_kind(kind),
    ensures
        r@ == object_id(kind, content@),
{
    let mut buf: Vec<u8> = Vec::new();
    if kind == OBJ_COMMIT {
        push_text(&mut buf, "commit");
    } else if kind == OBJ_TREE {
        push_text(&mut buf, "tree");
    } else {
        push_text(&mut buf, "blob");
    }
    assert(buf@ =~= kind_name(kind));
    buf.push(32);
    assert(buf@ =~= kind_name(kind) + seq![32u8]);
    push_decimal(&mut buf, content.len() as u64);
    buf.push(0);
    assert(buf@ =~= kind_name(kind) + seq![32u8] + decimal(content@.len()) + seq![0u8]);
    push_bytes(&mut buf, content);
    ObjectId { bytes: sha1_digest(buf.as_slice()) }
}

// ---------------------------------------------------------------------------
// Delta resolution
// ---------------------------------------------------------------------------

/// A number of `n` bytes, the lowest first, of which only those stand in the
/// delta whose bit is set in `flags`, the others being zero: its value, and
/// where it ends.
pub open spec fn operand(delta: Seq<u8>, pos: int, flags: int, n: nat) -> Option<(nat, int)>
    decreases n,
{
    if n == 0 {
        Some((0, pos))
    } else if flags % 2 == 0 {
        match operand(delta, pos, flags / 2, (n - 1) as nat) {
            Some((v, end)) => Some((256 * v, end)),
            None => None,
        }
    } else if pos >= delta.len() {
        None
    } else {
        match operand(delta, pos + 1, flags / 2, (n - 1) as nat) {
            Some((v, end)) => Some((delta[pos] as nat + 256 * v, end)),
            None => None,
        }
    }
}

/// What `first` and then `rest` give, where `rest` can be had.
pub open spec fn preceded(first: Seq<u8>, rest: Result<Seq<u8>, PackError>) -> Result<
    Seq<u8>,
    PackError,
> {
    match rest {
        Ok(r) => Ok(first + r),
        Err(e) => Err(e),
    }
}

/// The piece of `base` that a copy takes: up to `size` bytes from `offset` on.
pub open spec fn copied(base: Seq<u8>, offset: int, size: int) -> Seq<u8> {
    base.subrange(
        offset,
        if offset + size < base.len() {
            offset + size
        } else {
            base.len() as int
        },
    )
}

/// What the commands from `pos` on make of `base`. A command from 128 on
/// copies from the base: its low four bits tell which bytes of the offset
/// follow, the next three which bytes of the size, and a size of zero stands
/// for 65536. A command from 1 to 127 is that many bytes to insert, which
/// follow it. Zero does nothing.
pub open spec fn delta_commands(base: Seq<u8>, delta: Seq<u8>, pos: int) -> Result<
    Seq<u8>,
    PackError,
>
    decreases delta.len() - pos,
{
    if pos < 0 || pos >= delta.len() {
        Ok(Seq::empty())
    } else {
        let cmd = delta[pos] as int;
        if cmd >= 128 {
            match operand(delta, pos + 1, cmd, 4) {
                None => Err(PackError::Truncated),
                Some((offset, mid)) => match operand(delta, mid, cmd / 16, 3) {
                    None => Err(PackError::Truncated),
                    Some((size, end)) => {
                        if offset > base.len() {
                            Err(PackError::CopyOutOfRange)
                        } else if !(pos < end <= delta.len()) {
                            Err(PackError::Truncated)
                        } else {
                            preceded(
                                copied(
                                    base,
                                    offset as int,
                                    if size == 0 {
                                        65536
                                    } else {
                                        size as int
                                    },
                                ),
                                delta_commands(base, delta, end),
                            )
                        }
                    },
                },
            }
        } else if pos + 1 + cmd > delta.len() {
            Err(PackError::Truncated)
        } else {
            preceded(
                delta.subrange(pos + 1, pos + 1 + cmd),
                delta_commands(base, delta, pos + 1 + cmd),
            )
        }
    }
}

/// What a delta makes of `base`: after the sizes of the base and of the
/// result, which are not looked at, come the commands.
pub open spec fn delta_applied(base: Seq<u8>, delta: Seq<u8>) -> Result<Seq<u8>, PackError> {
    match varint(delta, 0, group_room(0)) {
        Err(e) => Err(e),
        Ok((_, mid)) => match varint(delta, mid, group_room(0)) {
            Err(e) => Err(e),
            Ok((_, start)) => delta_commands(base, delta, start),
        },
    }
}

proof fn lemma_operand_shifted(h: Seq<u8>, s: Seq<u8>, p: int, flags: int, n: nat)
    requires
        0 <= p,
    ensures
        operand(h + s, h.len() + p, flags, n) == match operand(s, p, flags, n) {
            Some((v, end)) => Some((v, h.len() + end)),
            None => None,
        },
    decreases n,
{
    if n > 0 {
        if flags % 2 == 0 {
            lemma_operand_shifted(h, s, p, flags / 2, (n - 1) as nat);
        } else if p < s.len() {
            lemma_operand_shifted(h, s, p + 1, flags / 2, (n - 1) as nat);
        }
    }
}

proof fn lemma_commands_shifted(base: Seq<u8>, h: Seq<u8>, s: Seq<u8>, p: int)
    requires
        0 <= p,
    ensures
        delta_commands(base, h + s, h.len() + p) == delta_commands(base, s, p),
    decreases s.len() - p,
{
    if p < s.len() {
        let all = h + s;
        let at = h.len() + p;
        let cmd = s[p] as int;
        assert(all[at] == s[p]);
        if cmd >= 128 {
            lemma_operand_shifted(h, s, p + 1, cmd, 4);
            match operand(s, p + 1, cmd, 4) {
                Some((offset, mid)) => {
                    lemma_operand_within(s, p + 1, cmd, 4);
                    lemma_operand_shifted(h, s, mid, cmd / 16, 3);
                    match operand(s, mid, cmd / 16, 3) {
                        Some((size, end)) => {
                            if p < end <= s.len() {
                                lemma_commands_shifted(base, h, s, end);
                            }
                        },
                        None => {},
                    }
                },
                None => {},
            }
        } else if p + 1 + cmd <= s.len() {
            assert(all.subrange(at + 1, at + 1 + cmd) =~= s.subrange(p + 1, p + 1 + cmd));
            lemma_commands_shifted(base, h, s, p + 1 + cmd);
        }
    }
}

proof fn lemma_operand_within(s: Seq<u8>, p: int, flags: int, n: nat)
    requires
        0 <= p <= s.len(),
    ensures
        operand(s, p, flags, n) matches Some((v, end)) ==> p <= end <= s.len(),
    decreases n,
{
    if n > 0 {
        if flags % 2 == 0 {
            lemma_operand_within(s, p, flags / 2, (n - 1) as nat);
        } else if p < s.len() {
            lemma_operand_within(s, p + 1, flags / 2, (n - 1) as nat);
        }
    }
}

proof fn lemma_operand_extended(s: Seq<u8>, more: Seq<u8>, p: int, flags: int, n: nat)
    requires
        0 <= p <= s.len(),
        operand(s, p, flags, n) is Some,
    ensures
        operand(s + more, p, flags, n) == operand(s, p, flags, n),
    decreases n,
{
    if n > 0 {
        if flags % 2 == 0 {
            lemma_operand_extended(s, more, p, flags / 2, (n - 1) as nat);
        } else {
            assert((s + more)[p] == s[p]);
            lemma_operand_extended(s, more, p + 1, flags / 2, (n - 1) as nat);
        }
    }
}

proof fn lemma_commands_joined(base: Seq<u8>, first: Seq<u8>, second: Seq<u8>, p: int)
    requires
        0 <= p <= first.len(),
        delta_commands(base, first, p) is Ok,
    ensures
        delta_commands(base, first + second, p) == preceded(
            delta_commands(base, first, p)->Ok_0,
            delta_commands(base, second, 0),
        ),
    decreases first.len() - p,
{
    let all = first + second;
    if p == first.len() {
        lemma_commands_shifted(base, first, second, 0);
        match delta_commands(base, second, 0) {
            Ok(r) => {
                assert(Seq::<u8>::empty() + r =~= r);
            },
            Err(_) => {},
        }
    } else {
        let cmd = first[p] as int;
        assert(all[p] == first[p]);
        let (piece, end) = if cmd >= 128 {
            let (offset, mid) = operand(first, p + 1, cmd, 4)->0;
            lemma_operand_within(first, p + 1, cmd, 4);
            lemma_operand_extended(first, second, p + 1, cmd, 4);
            let (size, end) = operand(first, mid, cmd / 16, 3)->0;
            lemma_operand_within(first, mid, cmd / 16, 3);
            lemma_operand_extended(first, second, mid, cmd / 16, 3);
            (
                copied(
                    base,
                    offset as int,
                    if size == 0 {
                        65536
                    } else {
                        size as int
                    },
                ),
                end,
            )
        } else {
            assert(all.subrange(p + 1, p + 1 + cmd) =~= first.subrange(p + 1, p + 1 + cmd));
            (first.subrange(p + 1, p + 1 + cmd), p + 1 + cmd)
        };
        lemma_commands_joined(base, first, second, end);
        let rest = delta_commands(base, first, end)->Ok_0;
        match delta_commands(base, second, 0) {
            Ok(r) => {
                assert(piece + (rest + r) =~= piece + rest + r);
            },
            Err(_) => {},
        }
    }
}

proof fn lemma_varint_extended(s: Seq<u8>, more: Seq<u8>, p: int, room: nat)
    requires
        0 <= p,
        varint(s, p, room) is Ok,
    ensures
        varint(s + more, p, room) == varint(s, p, room),
        p < varint(s, p, room)->Ok_0.1 <= s.len(),
    decreases room,
{
    assert((s + more)[p] == s[p]);
    if s[p] >= 128 {
        lemma_varint_extended(s, more, p + 1, (room - 1) as nat);
    }
}

/// The two sizes that a delta begins with, and nothing behind them.
pub open spec fn delta_head(h: Seq<u8>) -> bool {
    varint(h, 0, group_room(0)) matches Ok((_, mid)) && (varint(h, mid, group_room(0)) matches Ok(
        (_, end),
    ) && end == h.len())
}

/// Behind the two sizes a delta is its commands: what the sizes are does not
/// change what it makes of `base`.
pub proof fn lemma_delta_sizes_ignored(base: Seq<u8>, head: Seq<u8>, commands: Seq<u8>)
    requires
        delta_head(head),
    ensures
        delta_applied(base, head + commands) == delta_commands(base, commands, 0),
        delta_applied(base, head) == Ok::<Seq<u8>, PackError>(Seq::empty()),
{
    lemma_varint_extended(head, commands, 0, group_room(0));
    let mid = varint(head, 0, group_room(0))->Ok_0.1;
    lemma_varint_extended(head, commands, mid, group_room(0));
    lemma_commands_shifted(base, head, commands, 0);
}

/// The results of two runs of commands are joined where the runs are.
pub proof fn lemma_delta_joins(
    base: Seq<u8>,
    head: Seq<u8>,
    first: Seq<u8>,
    second: Seq<u8>,
)
    requires
        delta_head(head),
        delta_applied(base, head + first) is Ok,
        delta_applied(base, head + second) is Ok,
    ensures
        delta_applied(base, head + first + second) == Ok::<Seq<u8>, PackError>(
            delta_applied(base, head + first)->Ok_0 + delta_applied(base, head + second)->Ok_0,
        ),
{
    lemma_delta_sizes_ignored(base, head, first);
    lemma_delta_sizes_ignored(base, head, second);
    assert(head + first + second =~= head + (first + second));
    lemma_delta_sizes_ignored(base, head, first + second);
    lemma_commands_joined(base, first, second, 0);
}

fn read_operand(delta: &[u8], pos: usize, flags: u8, n: u8) -> (r: Option<(u64, usize)>)
    requires
        pos <= delta@.len(),
        n <= 4,
    ensures
        match r {
            Some((v, end)) => operand(delta@, pos as int, flags as int, n as nat) == Some(
                (v as nat, end as int),
            ) && pos <= end <= delta@.len() && v < operand_bound(n as nat),
            None => operand(delta@, pos as int, flags as int, n as nat) is None,
        },
    decreases n,
{
    proof {
        reveal_with_fuel(operand_bound, 5);
    }
    if n == 0 {
        return Some((0, pos));
    }
    if flags % 2 == 0 {
        match read_operand(delta, pos, flags / 2, n - 1) {
            Some((v, end)) => Some((256 * v, end)),
            None => None,
        }
    } else if pos >= delta.len() {
        None
    } else {
        match read_operand(delta, pos + 1, flags / 2, n - 1) {
            Some((v, end)) => Some((delta[pos] as u64 + 256 * v, end)),
            None => None,
        }
    }
}

spec fn operand_bound(n: nat) -> int
    decreases n,
{
    if n == 0 {
        1
    } else {
        256 * operand_bound((n - 1) as nat)
    }
}

/// What the delta makes of `base`.
pub fn apply_delta(base: &[u8], delta: &[u8]) -> (r: Result<Vec<u8>, PackError>)
    ensures
        match r {
            Ok(out) => delta_applied(base@, delta@) == Ok::<Seq<u8>, PackError>(out@),
            Err(e) => delta_applied(base@, delta@) == Err::<Seq<u8>, PackError>(e),
        },
{
    let room: u32 = (usize::BITS + 6) / 7;
    let mid: usize = match read_varint(delta, 0, room) {
        Ok((_, end)) => end,
        Err(e) => {
            return Err(e);
        },
    };
    let start: usize = match read_varint(delta, mid, room) {
        Ok((_, end)) => end,
        Err(e) => {
            return Err(e);
        },
    };
    let mut result: Vec<u8> = Vec::new();
    let mut pos: usize = start;
    while pos < delta.len()
        invariant
            pos <= delta@.len(),
            delta_applied(base@, delta@) =~~= preceded(
                result@,
                delta_commands(base@, delta@, pos as int),
            ),
        decreases delta@.len() - pos,
    {
        let ghost before = result@;
        let ghost mut piece: Seq<u8> = Seq::empty();
        let ghost at = pos as int;
        let cmd: u8 = delta[pos];
        if cmd >= 128 {
            let (offset, mid): (u64, usize) = match read_operand(delta, pos + 1, cmd, 4) {
                Some(x) => x,
                None => {
                    return Err(PackError::Truncated);
                },
            };
            let (size, end): (u64, usize) = match read_operand(delta, mid, cmd / 16, 3) {
                Some(x) => x,
                None => {
                    return Err(PackError::Truncated);
                },
            };
            proof {
                reveal_with_fuel(operand_bound, 5);
            }
            if offset > base.len() as u64 {
                return Err(PackError::CopyOutOfRange);
            }
            let take: u64 = if size == 0 {
                65536
            } else {
                size
            };
            let stop: usize = if offset + take < base.len() as u64 {
                (offset + take) as usize
            } else {
                base.len()
            };
            push_bytes(&mut result, &base[offset as usize..stop]);
            pos = end;
            proof {
                piece = copied(base@, offset as int, take as int);
            }
        } else {
            let size: usize = cmd as usize;
            if size > delta.len() - pos - 1 {
                return Err(PackError::Truncated);
            }
            push_bytes(&mut result, &delta[pos + 1..pos + 1 + size]);
            pos = pos + 1 + size;
            proof {
                piece = delta@.subrange(at + 1, at + 1 + size);
            }
        }
        proof {
            assert(result@ =~= before + piece);
            let rest = delta_commands(base@, delta@, pos as int);
            if rest is Ok {
                assert(result@ + rest->Ok_0 =~= before + (piece + rest->Ok_0));
            }
        }
    }
    proof {
        assert(result@ + Seq::<u8>::empty() =~= result@);
    }
    Ok(result)
}

// ---------------------------------------------------------------------------
// Packfile parser
// ---------------------------------------------------------------------------

/// What has been read of a pack: the objects by id, their types, the ids of
/// those at each offset, and the deltas whose base is yet to be seen.
#[verifier::ext_equal]
pub struct PackState {
    pub pos: int,
    pub objects: Map<Seq<u8>, Seq<u8>>,
    pub kinds: Map<Seq<u8>, u8>,
    pub offsets: Map<usize, Seq<u8>>,
    pub deferred: Seq<(Seq<u8>, Seq<u8>)>,
}

/// What an object in a pack is built on.
pub enum BaseModel {
    Nothing,
    At(int),
    Id(Seq<u8>),
}

/// A distance back in the pack: groups of seven bits, the highest first, each
/// but the last with its high bit set and one added.
pub open spec fn back_distance(data: Seq<u8>, pos: int, high: int) -> Option<(int, int)>
    decreases data.len() - pos,
{
    if pos < 0 || pos >= data.len() {
        None
    } else {
        let v = (high * 128 + data[pos] % 128) % word();
        if data[pos] < 128 {
            Some((v, pos + 1))
        } else {
            back_distance(data, pos + 1, (v + 1) % word())
        }
    }
}

/// What the object of type `kind` that starts at `start` is built on, as told
/// at `pos`, and where its content starts.
pub open spec fn base_of(data: Seq<u8>, start: int, kind: u8, pos: int) -> Result<
    (BaseModel, int),
    PackError,
> {
    if kind == OBJ_OFS_DELTA {
        match back_distance(data, pos, 0) {
            None => Err(PackError::Truncated),
            Some((distance, end)) => if distance > start {
                Err(PackError::MissingBase(start as usize))
            } else {
                Ok((BaseModel::At(start - distance), end))
            },
        }
    } else if kind == OBJ_REF_DELTA {
        if pos + 20 > data.len() {
            Err(PackError::Truncated)
        } else {
            Ok((BaseModel::Id(data.subrange(pos, pos + 20)), pos + 20))
        }
    } else {
        Ok((BaseModel::Nothing, pos))
    }
}

impl PackState {
    /// The state with an object more.
    pub open spec fn with_object(self, kind: u8, content: Seq<u8>, start: int) -> PackState {
        let oid = object_id(kind, content);
        PackState {
            objects: self.objects.insert(oid, content),
            kinds: self.kinds.insert(oid, kind),
            offsets: self.offsets.insert(start as usize, oid),
            ..self
        }
    }

    /// The state with an object more, which a delta makes of the one with id
    /// `base`.
    pub open spec fn with_delta(self, base: Seq<u8>, delta: Seq<u8>, start: int) -> Result<
        PackState,
        PackError,
    > {
        match delta_applied(self.objects[base], delta) {
            Ok(content) => Ok(self.with_object(self.kinds[base], content, start)),
            Err(e) => Err(e),
        }
    }

    /// The state after an object of which type, base and content are known.
    pub open spec fn stored(self, kind: u8, base: BaseModel, content: Seq<u8>, start: int) -> Result<
        PackState,
        PackError,
    > {
        match base {
            BaseModel::At(offset) => if self.offsets.contains_key(offset as usize) {
                self.with_delta(self.offsets[offset as usize], content, start)
            } else {
                Err(PackError::MissingBase(start as usize))
            },
            BaseModel::Id(oid) => if self.kinds.contains_key(oid) {
                self.with_delta(oid, content, start)
            } else {
                Ok(PackState { deferred: self.deferred.push((oid, content)), ..self })
            },
            BaseModel::Nothing => if plain_kind(kind) {
                Ok(self.with_object(kind, content, start))
            } else {
                Ok(self)
            },
        }
    }

    /// The state after the next object.
    pub open spec fn next(self, data: Seq<u8>) -> Result<PackState, PackError> {
        match size_type(data, self.pos) {
            Err(e) => Err(e),
            Ok((kind, _, mid)) => match base_of(data, self.pos, kind, mid) {
                Err(e) => Err(e),
                Ok((base, body)) => match zlib_inflated(data.skip(body)) {
                    None => Err(PackError::Zlib(body as usize)),
                    Some((content, used)) => (PackState { pos: body + used, ..self }).stored(
                        kind,
                        base,
                        content,
                        self.pos,
                    ),
                },
            },
        }
    }

    /// The state after `count` more objects.
    pub open spec fn after(self, data: Seq<u8>, count: nat) -> Result<PackState, PackError>
        decreases count,
    {
        if count == 0 {
            Ok(self)
        } else {
            match self.next(data) {
                Ok(st) => st.after(data, (count - 1) as nat),
                Err(e) => Err(e),
            }
        }
    }

    /// The objects once the deltas from `i` on that have waited for their base
    /// are resolved, in turn. One whose base did not come is left out.
    pub open spec fn resolved(self, i: int) -> Result<Map<Seq<u8>, Seq<u8>>, PackError>
        decreases self.deferred.len() - i,
    {
        if i < 0 || i >= self.deferred.len() {
            Ok(self.objects)
        } else if self.kinds.contains_key(self.deferred[i].0) {
            match self.with_delta(self.deferred[i].0, self.deferred[i].1, self.pos) {
                Ok(st) => (PackState { deferred: self.deferred, ..st }).resolved(i + 1),
                Err(e) => Err(e),
            }
        } else {
            self.resolved(i + 1)
        }
    }

    /// Types are known of stored objects, and offsets of objects whose type is
    /// known.
    pub open spec fn consistent(self) -> bool {
        &&& forall|oid: Seq<u8>| #[trigger]
            self.kinds.contains_key(oid) ==> self.objects.contains_key(oid) && plain_kind(
                self.kinds[oid],
            )
        &&& forall|at: usize| #[trigger]
            self.offsets.contains_key(at) ==> self.kinds.contains_key(self.offsets[at])
    }
}

/// A number of four bytes, the highest first.
pub open spec fn be32(data: Seq<u8>, pos: int) -> int {
    ((data[pos] * 256 + data[pos + 1]) * 256 + data[pos + 2]) * 256 + data[pos + 3]
}

/// Nothing read yet of the pack's objects.
pub open spec fn pack_start() -> PackState {
    PackState {
        pos: 12,
        objects: Map::empty(),
        kinds: Map::empty(),
        offsets: Map::empty(),
        deferred: Seq::empty(),
    }
}

/// The objects of a pack, by id.
pub open spec fn unpacked(data: Seq<u8>) -> Result<Map<Seq<u8>, Seq<u8>>, PackError> {
    if data.len() < 12 || !begins_with(data, text("PACK")) {
        Err(PackError::BadMagic)
    } else if !(2 <= be32(data, 4) <= 3) {
        Err(PackError::UnsupportedVersion(be32(data, 4) as u32))
    } else if data.len() < 20 {
        Err(PackError::Truncated)
    } else if sha1_of(data.take(data.len() - 20))@ != data.skip(data.len() - 20) {
        Err(PackError::BadChecksum)
    } else {
        match pack_start().after(data, be32(data, 8) as nat) {
            Ok(st) => st.resolved(0),
            Err(e) => Err(e),
        }
    }
}

enum Base {
    Nothing,
    At(usize),
    Id(ObjectId),
}

impl Base {
    spec fn model(self) -> BaseModel {
        match self {
            Base::Nothing => BaseModel::Nothing,
            Base::At(offset) => BaseModel::At(offset as int),
            Base::Id(oid) => BaseModel::Id(oid@),
        }
    }
}

struct PackReader {
    pos: usize,
    objects: ObjectMap,
    kinds: ByteMap<u8>,
    offsets: HashMap<usize, ObjectId>,
    deferred: Vec<(ObjectId, Vec<u8>)>,
}

impl View for PackReader {
    type V = PackState;

    closed spec fn view(&self) -> PackState {
        PackState {
            pos: self.pos as int,
            objects: self.objects@,
            kinds: self.kinds@,
            offsets: self.offsets@.map_values(|oid: ObjectId| oid@),
            deferred: self.deferred@.map_values(|d: (ObjectId, Vec<u8>)| (d.0@, d.1@)),
        }
    }
}

fn read_base(data: &[u8], start: usize, kind: u8, pos: usize) -> (r: Result<
    (Base, usize),
    PackError,
>)
    requires
        pos <= data@.len(),
    ensures
        match r {
            Ok((base, end)) => base_of(data@, start as int, kind, pos as int) == Ok::<
                (BaseModel, int),
                PackError,
            >((base.model(), end as int)) && end <= data@.len(),
            Err(e) => base_of(data@, start as int, kind, pos as int) == Err::<
                (BaseModel, int),
                PackError,
            >(e),
        },
{
    if kind == OBJ_OFS_DELTA {
        let modulus: u128 = usize::MAX as u128 + 1;
        let mut at: usize = pos;
        let mut high: u128 = 0;
        while at < data.len()
            invariant
                at <= data@.len(),
                modulus == word(),
                high < modulus,
                kind == OBJ_OFS_DELTA,
                back_distance(data@, pos as int, 0) == back_distance(data@, at as int, high as int),
            decreases data@.len() - at,
        {
            let b: u8 = data[at];
            let v: u128 = (high * 128 + (b % 128) as u128) % modulus;
            at += 1;
            if b < 128 {
                let distance: usize = v as usize;
                if distance > start {
                    return Err(PackError::MissingBase(start));
                }
                return Ok((Base::At(start - distance), at));
            }
            high = (v + 1) % modulus;
        }
        Err(PackError::Truncated)
    } else if kind == OBJ_REF_DELTA {
        if data.len() - pos < 20 {
            return Err(PackError::Truncated);
        }
        Ok((Base::Id(ObjectId::from_bytes(&data[pos..pos + 20])), pos + 20))
    } else {
        Ok((Base::Nothing, pos))
    }
}

impl PackReader {
    fn put_object(&mut self, kind: u8, content: Vec<u8>, start: usize)
        requires
            plain_kind(kind),
            old(self)@.consistent(),
        ensures
            final(self)@ == old(self)@.with_object(kind, content@, start as int),
            final(self)@.consistent(),
    {
        let oid = hash_object(kind, content.as_slice());
        self.objects.insert(&oid, content);
        self.kinds.insert(oid.as_bytes(), kind);
        self.offsets.insert(start, oid);
        proof {
            assert(self@.offsets =~= old(self)@.offsets.insert(start, oid@));
            assert(self@ =~= old(self)@.with_object(kind, content@, start as int));
        }
    }

    fn put_delta(&mut self, base: &ObjectId, delta: &Vec<u8>, start: usize) -> (r: Result<
        (),
        PackError,
    >)
        requires
            old(self)@.consistent(),
            old(self)@.kinds.contains_key(base@),
        ensures
            match r {
                Ok(_) => old(self)@.with_delta(base@, delta@, start as int) == Ok::<
                    PackState,
                    PackError,
                >(final(self)@) && final(self)@.consistent(),
                Err(e) => old(self)@.with_delta(base@, delta@, start as int) == Err::<
                    PackState,
                    PackError,
                >(e),
            },
    {
        match (self.objects.get(base), self.kinds.get(base.as_bytes())) {
            (Some(content), Some(kind)) => {
                let kind: u8 = *kind;
                match apply_delta(content.as_slice(), delta.as_slice()) {
                    Ok(made) => {
                        self.put_object(kind, made, start);
                        Ok(())
                    },
                    Err(e) => Err(e),
                }
            },
            _ => Err(PackError::MissingBase(start)),
        }
    }

    fn put(&mut self, kind: u8, base: Base, content: Vec<u8>, start: usize) -> (r: Result<
        (),
        PackError,
    >)
        requires
            old(self)@.consistent(),
        ensures
            match r {
                Ok(_) => old(self)@.stored(kind, base.model(), content@, start as int) == Ok::<
                    PackState,
                    PackError,
                >(final(self)@) && final(self)@.consistent(),
                Err(e) => old(self)@.stored(kind, base.model(), content@, start as int) == Err::<
                    PackState,
                    PackError,
                >(e),
            },
    {
        match base {
            Base::At(offset) => {
                let found: Option<ObjectId> = match self.offsets.get(&offset) {
                    Some(oid) => Some(*oid),
                    None => None,
                };
                match found {
                    Some(oid) => {
                        assert(self@.offsets[offset] == oid@);
                        self.put_delta(&oid, &content, start)
                    },
                    None => Err(PackError::MissingBase(start)),
                }
            },
            Base::Id(oid) => {
                if self.kinds.get(oid.as_bytes()).is_some() {
                    self.put_delta(&oid, &content, start)
                } else {
                    self.deferred.push((oid, content));
                    proof {
                        assert(self@.deferred =~= old(self)@.deferred.push((oid@, content@)));
                        assert(self@ =~= PackState {
                            deferred: old(self)@.deferred.push((oid@, content@)),
                            ..old(self)@
                        });
                    }
                    Ok(())
                }
            },
            Base::Nothing => {
                if kind == OBJ_COMMIT || kind == OBJ_TREE || kind == OBJ_BLOB {
                    self.put_object(kind, content, start);
                }
                Ok(())
            },
        }
    }

    fn advance(&mut self, data: &[u8]) -> (r: Result<(), PackError>)
        requires
            old(self)@.consistent(),
        ensures
            match r {
                Ok(_) => old(self)@.next(data@) == Ok::<PackState, PackError>(final(self)@)
                    && final(self)@.consistent(),
                Err(e) => old(self)@.next(data@) == Err::<PackState, PackError>(e),
            },
    {
        let start: usize = self.pos;
        let mut pos: usize = start;
        let (kind, _): (u8, usize) = match decode_size_type(data, &mut pos) {
            Ok(x) => x,
            Err(e) => {
                return Err(e);
            },
        };
        let (base, body): (Base, usize) = match read_base(data, start, kind, pos) {
            Ok(x) => x,
            Err(e) => {
                return Err(e);
            },
        };
        assert(data@.subrange(body as int, data@.len() as int) =~= data@.skip(body as int));
        match inflate(&data[body..data.len()]) {
            Some(x) => {
                self.pos = body + x.consumed;
                self.put(kind, base, x.content, start)
            },
            None => Err(PackError::Zlib(body)),
        }
    }
}

/// The objects of a pack, by id.
pub fn parse_packfile(data: &[u8]) -> (r: Result<ObjectMap, PackError>)
    ensures
        match r {
            Ok(objects) => unpacked(data@) == Ok::<Map<Seq<u8>, Seq<u8>>, PackError>(objects@),
            Err(e) => unpacked(data@) == Err::<Map<Seq<u8>, Seq<u8>>, PackError>(e),
        },
{
    if data.len() < 12 || !has_prefix(data, "PACK".as_bytes()) {
        return Err(PackError::BadMagic);
    }
    let version: u32 = read_be32(data, 4);
    if version < 2 || version > 3 {
        return Err(PackError::UnsupportedVersion(version));
    }
    let count: u32 = read_be32(data, 8);
    if data.len() < 20 {
        return Err(PackError::Truncated);
    }
    let body: usize = data.len() - 20;
    assert(data@.subrange(0, body as int) =~= data@.take(body as int));
    assert(data@.subrange(body as int, data@.len() as int) =~= data@.skip(body as int));
    let digest = sha1_digest(&data[0..body]);
    if !same_bytes(digest.as_slice(), &data[body..data.len()]) {
        return Err(PackError::BadChecksum);
    }
    let mut reader = PackReader {
        pos: 12,
        objects: ObjectMap::new(),
        kinds: ByteMap::new(),
        offsets: HashMap::new(),
        deferred: Vec::new(),
    };
    assert(reader@ =~= pack_start());
    let mut i: u32 = 0;
    while i < count
        invariant
            i <= count,
            reader@.consistent(),
            pack_start().after(data@, count as nat) == reader@.after(data@, (count - i) as nat),
            count == be32(data@, 8),
            unpacked(data@) == match pack_start().after(data@, be32(data@, 8) as nat) {
                Ok(st) => st.resolved(0),
                Err(e) => Err(e),
            },
        decreases count - i,
    {
        match reader.advance(data) {
            Ok(_) => {},
            Err(e) => {
                return Err(e);
            },
        }
        i += 1;
    }
    let mut deferred: Vec<(ObjectId, Vec<u8>)> = Vec::new();
    std::mem::swap(&mut deferred, &mut reader.deferred);
    let ghost waiting = deferred@.map_values(|d: (ObjectId, Vec<u8>)| (d.0@, d.1@));
    let mut k: usize = 0;
    assert((PackState { deferred: waiting, ..reader@ }) =~= pack_start().after(
        data@,
        count as nat,
    )->Ok_0);
    while k < deferred.len()
        invariant
            k <= deferred@.len(),
            waiting == deferred@.map_values(|d: (ObjectId, Vec<u8>)| (d.0@, d.1@)),
            reader@.consistent(),
            unpacked(data@) == (PackState { deferred: waiting, ..reader@ }).resolved(k as int),
        decreases deferred@.len() - k,
    {
        let base: ObjectId = deferred[k].0;
        let ghost st = PackState { deferred: waiting, ..reader@ };
        assert(waiting[k as int] == (deferred@[k as int].0@, deferred@[k as int].1@));
        if reader.kinds.get(base.as_bytes()).is_some() {
            let at: usize = reader.pos;
            match reader.put_delta(&base, &deferred[k].1, at) {
                Ok(_) => {},
                Err(e) => {
                    return Err(e);
                },
            }
        }
        k += 1;
    }
    Ok(reader.objects)
}

fn read_be32(data: &[u8], pos: usize) -> (r: u32)
    requires
        pos + 4 <= data@.len(),
    ensures
        r == be32(data@, pos as int),
{
    ((data[pos] as u32 * 256 + data[pos + 1] as u32) * 256 + data[pos + 2] as u32) * 256
        + data[pos + 3] as u32
}

// ---------------------------------------------------------------------------
// Packfile builder
// ---------------------------------------------------------------------------

/// What a list of objects to pack is: the type and the content of each.
pub open spec fn entry_views(entries: Seq<(u8, &[u8])>) -> Seq<(u8, Seq<u8>)> {
    entries.map_values(|e: (u8, &[u8])| (e.0, e.1@))
}

/// The four bytes of a number, the highest first.
pub open spec fn be32_bytes(n: int) -> Seq<u8> {
    seq![
        (n / 0x100_0000 % 256) as u8,
        (n / 0x1_0000 % 256) as u8,
        (n / 0x100 % 256) as u8,
        (n % 256) as u8,
    ]
}

/// The first twelve bytes of a pack of `count` objects.
pub open spec fn pack_header(count: int) -> Seq<u8> {
    text("PACK") + be32_bytes(2) + be32_bytes(count % 0x1_0000_0000)
}

/// One object as it stands in a pack, where its content can be compressed.
pub open spec fn packed_entry(e: (u8, Seq<u8>)) -> Option<Seq<u8>> {
    match zlib_deflated(e.1) {
        Some(z) => Some(size_type_bytes(e.0, e.1.len()) + z),
        None => None,
    }
}

/// The objects of a pack, one after the other.
pub open spec fn pack_body(es: Seq<(u8, Seq<u8>)>) -> Option<Seq<u8>>
    decreases es.len(),
{
    if es.len() == 0 {
        Some(Seq::empty())
    } else {
        match (pack_body(es.drop_last()), packed_entry(es.last())) {
            (Some(front), Some(last)) => Some(front + last),
            _ => None,
        }
    }
}

/// The bytes of a pack: header, objects, and the digest of both.
pub open spec fn pack_bytes(es: Seq<(u8, Seq<u8>)>) -> Option<Seq<u8>> {
    match pack_body(es) {
        Some(body) => {
            let front = pack_header(es.len() as int) + body;
            Some(front + sha1_of(front)@)
        },
        None => None,
    }
}

/// The objects of a list, by id.
pub open spec fn objects_of(es: Seq<(u8, Seq<u8>)>) -> Map<Seq<u8>, Seq<u8>>
    decreases es.len(),
{
    if es.len() == 0 {
        Map::empty()
    } else {
        objects_of(es.drop_last()).insert(object_id(es.last().0, es.last().1), es.last().1)
    }
}

/// All objects are of a type that an object can be stored with.
pub open spec fn plain_kinds(es: Seq<(u8, Seq<u8>)>) -> bool {
    forall|i: int| 0 <= i < es.len() ==> plain_kind((#[trigger] es[i]).0)
}

/// What the content of `e` is compressed to, decompresses to it, whatever
/// follows; and its length is that of something held in memory.
spec fn comes_back(e: (u8, Seq<u8>)) -> bool {
    &&& e.1.len() <= usize::MAX
    &&& zlib_deflated(e.1) matches Some(z) ==> forall|rest: Seq<u8>| #[trigger]
        zlib_inflated(z + rest) == Some((e.1, z.len()))
}

proof fn lemma_body_prefix(es: Seq<(u8, Seq<u8>)>, k: int)
    requires
        0 <= k <= es.len(),
        pack_body(es) is Some,
    ensures
        pack_body(es.take(k)) is Some,
        pack_body(es.take(k))->0.len() <= pack_body(es)->0.len(),
        pack_body(es)->0.take(pack_body(es.take(k))->0.len() as int) == pack_body(es.take(k))->0,
    decreases es.len(),
{
    if k == es.len() {
        assert(es.take(k) =~= es);
        assert(pack_body(es)->0.take(pack_body(es)->0.len() as int) =~= pack_body(es)->0);
    } else {
        let front = es.drop_last();
        lemma_body_prefix(front, k);
        assert(front.take(k) =~= es.take(k));
        let b = pack_body(es)->0;
        let f = pack_body(front)->0;
        let t = pack_body(es.take(k))->0;
        assert(b.take(t.len() as int) =~= f.take(t.len() as int));
    }
}

proof fn lemma_next_packed(data: Seq<u8>, tail: Seq<u8>, es: Seq<(u8, Seq<u8>)>, k: int, st: PackState)
    requires
        pack_body(es) is Some,
        plain_kinds(es),
        0 <= k < es.len(),
        comes_back(es[k]),
        data == pack_header(es.len() as int) + pack_body(es)->0 + tail,
        pack_header(es.len() as int).len() == 12,
        st.pos == 12 + pack_body(es.take(k))->0.len(),
    ensures
        st.next(data) == Ok::<PackState, PackError>(
            (PackState { pos: (12 + pack_body(es.take(k + 1))->0.len()) as int, ..st }).with_object(
                es[k].0,
                es[k].1,
                st.pos,
            ),
        ),
{
    let h = pack_header(es.len() as int);
    let all = pack_body(es)->0;
    let one = es.take(k + 1);
    lemma_body_prefix(es, k);
    lemma_body_prefix(es, k + 1);
    assert(one.drop_last() =~= es.take(k));
    assert(one.last() == es[k]);
    let front = pack_body(es.take(k))->0;
    let upto = pack_body(one)->0;
    let z = zlib_deflated(es[k].1)->0;
    let head = size_type_bytes(es[k].0, es[k].1.len());
    assert(upto == front + (head + z));
    let body = st.pos + head.len();
    assert(data.subrange(st.pos, body) =~= head) by {
        assert forall|i: int| 0 <= i < head.len() implies data.subrange(st.pos, body)[i]
            == head[i] by {
            assert(all.take(upto.len() as int)[front.len() + i] == upto[front.len() + i]);
        }
    }
    lemma_size_type_read_back(data, st.pos, es[k].0, es[k].1.len() as usize);
    let rest = data.skip(body + z.len());
    assert(data.skip(body) =~= z + rest) by {
        assert forall|i: int| 0 <= i < z.len() implies data.skip(body)[i] == z[i] by {
            assert(all.take(upto.len() as int)[front.len() + head.len() + i] == upto[front.len()
                + head.len() + i]);
        }
    }
    assert(zlib_inflated(z + rest) == Some((es[k].1, z.len())));
    assert(plain_kind(es[k].0));
    assert(es[k].0 % 8 == es[k].0);
    assert(body + z.len() == 12 + upto.len());
}

proof fn lemma_after_packed(
    data: Seq<u8>,
    tail: Seq<u8>,
    es: Seq<(u8, Seq<u8>)>,
    k: int,
    st: PackState,
)
    requires
        pack_body(es) is Some,
        plain_kinds(es),
        forall|i: int| 0 <= i < es.len() ==> comes_back(#[trigger] es[i]),
        0 <= k <= es.len(),
        data == pack_header(es.len() as int) + pack_body(es)->0 + tail,
        pack_header(es.len() as int).len() == 12,
        st.pos == 12 + pack_body(es.take(k))->0.len(),
        st.objects == objects_of(es.take(k)),
        st.deferred.len() == 0,
    ensures
        st.after(data, (es.len() - k) as nat) matches Ok(end) && end.objects == objects_of(es)
            && end.deferred.len() == 0,
    decreases es.len() - k,
{
    if k == es.len() {
        assert(es.take(k) =~= es);
    } else {
        lemma_next_packed(data, tail, es, k, st);
        let next = st.next(data)->Ok_0;
        assert(es.take(k + 1).drop_last() =~= es.take(k));
        lemma_after_packed(data, tail, es, k + 1, next);
    }
}

proof fn lemma_header_bytes(count: int)
    requires
        0 <= count,
    ensures
        pack_header(count).len() == 12,
        be32(pack_header(count), 4) == 2,
        be32(pack_header(count), 8) == count % 0x1_0000_0000,
        begins_with(pack_header(count), text("PACK")),
{
    reveal_strlit("PACK");
    vstd::utf8::is_ascii_chars_encode_utf8("PACK"@);
    let h = pack_header(count);
    assert(text("PACK").len() == 4);
    assert(h.subrange(0, 4) =~= text("PACK"));
    let n = count % 0x1_0000_0000;
    assert(h[4] == 0 && h[5] == 0 && h[6] == 0 && h[7] == 2);
    assert(h[8] == be32_bytes(n)[0] && h[9] == be32_bytes(n)[1] && h[10] == be32_bytes(n)[2]
        && h[11] == be32_bytes(n)[3]);
}

proof fn lemma_pack_read_back(es: Seq<(u8, Seq<u8>)>)
    requires
        pack_bytes(es) is Some,
        plain_kinds(es),
        es.len() < 0x1_0000_0000,
        forall|i: int| 0 <= i < es.len() ==> comes_back(#[trigger] es[i]),
    ensures
        unpacked(pack_bytes(es)->0) == Ok::<Map<Seq<u8>, Seq<u8>>, PackError>(objects_of(es)),
{
    let h = pack_header(es.len() as int);
    let front = h + pack_body(es)->0;
    let digest = sha1_of(front)@;
    let data = front + digest;
    lemma_header_bytes(es.len() as int);
    assert(data.subrange(0, 4) =~= h.subrange(0, 4));
    assert forall|i: int| 0 <= i < 12 implies data[i] == h[i] by {}
    assert(be32(data, 4) == be32(h, 4));
    assert(be32(data, 8) == be32(h, 8));
    assert(data.take(data.len() - 20) =~= front);
    assert(data.skip(data.len() - 20) =~= digest);
    assert(es.take(0) =~= Seq::empty());
    lemma_after_packed(data, digest, es, 0, pack_start());
}

fn push_be32(buf: &mut Vec<u8>, n: u32)
    ensures
        final(buf)@ == old(buf)@ + be32_bytes(n as int),
{
    buf.push((n / 0x100_0000 % 256) as u8);
    buf.push((n / 0x1_0000 % 256) as u8);
    buf.push((n / 0x100 % 256) as u8);
    buf.push((n % 256) as u8);
    assert(buf@ =~= old(buf)@ + be32_bytes(n as int));
}

/// A pack of these objects. Reading it gives the objects back, by id, as long
/// as each is of a type that an object can be stored with and their number
/// fits into the header.
pub fn build_packfile(entries: &[(u8, &[u8])]) -> (r: Result<Vec<u8>, PackError>)
    ensures
        match r {
            Ok(out) => pack_bytes(entry_views(entries@)) == Some(out@) && (plain_kinds(
                entry_views(entries@),
            ) && entries@.len() < 0x1_0000_0000 ==> unpacked(out@) == Ok::<
                Map<Seq<u8>, Seq<u8>>,
                PackError,
            >(objects_of(entry_views(entries@)))),
            Err(e) => pack_bytes(entry_views(entries@)) is None && e is Zlib,
        },
{
    let ghost es = entry_views(entries@);
    let count: u32 = (entries.len() as u64 % 0x1_0000_0000) as u32;
    let mut pack: Vec<u8> = Vec::new();
    push_text(&mut pack, "PACK");
    push_be32(&mut pack, 2);
    push_be32(&mut pack, count);
    assert(pack@ =~= pack_header(es.len() as int));
    assert(es.take(0) =~= Seq::empty());
    assert(pack@ =~= pack_header(es.len() as int) + pack_body(es.take(0))->0);
    let mut i: usize = 0;
    while i < entries.len()
        invariant
            i <= entries@.len(),
            es == entry_views(entries@),
            pack_body(es.take(i as int)) is Some,
            pack@ == pack_header(es.len() as int) + pack_body(es.take(i as int))->0,
            forall|j: int| 0 <= j < i ==> comes_back(#[trigger] es[j]),
        decreases entries@.len() - i,
    {
        let (kind, content) = entries[i];
        let ghost upto = es.take(i + 1);
        assert(upto.drop_last() =~= es.take(i as int));
        assert(upto.last() == (kind, content@));
        let header = encode_size_type(kind, content.len());
        match deflate(content) {
            Some(compressed) => {
                push_bytes(&mut pack, header.as_slice());
                push_bytes(&mut pack, compressed.as_slice());
                assert(pack@ =~= pack_header(es.len() as int) + pack_body(upto)->0);
                assert(comes_back(es[i as int]));
            },
            None => {
                proof {
                    if pack_body(es) is Some {
                        lemma_body_prefix(es, i + 1);
                    }
                }
                return Err(PackError::Zlib(pack.len()));
            },
        }
        i += 1;
    }
    assert(es.take(i as int) =~= es);
    let checksum = sha1_digest(pack.as_slice());
    push_bytes(&mut pack, checksum.as_slice());
    proof {
        if plain_kinds(es) && es.len() < 0x1_0000_0000 {
            lemma_pack_read_back(es);
        }
    }
    Ok(pack)
}

} // verus!
