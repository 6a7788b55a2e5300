//! What a delta says, byte by byte: numbers, copies and insertions, and what
//! they come to.

use vstd::prelude::*;

use crate::git::packfile::{
    PackError, delta_applied, delta_commands, delta_head, group_room, lemma_delta_joins,
    lemma_delta_sizes_ignored, operand, varint,
};

verus! {

// ---------------------------------------------------------------------------
// Numbers
// ---------------------------------------------------------------------------

/// The bytes of one number: all but the last have their high bit set.
pub open spec fn whole_number(s: Seq<u8>) -> bool {
    s.len() > 0 && s.last() < 128 && forall|i: int| 0 <= i < s.len() - 1 ==> #[trigger] s[i] >= 128
}

/// The number that these bytes stand for, seven bits each, the lowest first.
pub open spec fn number_value(s: Seq<u8>) -> nat
    decreases s.len(),
{
    if s.len() == 0 {
        0
    } else {
        (s[0] % 128) as nat + 128 * number_value(s.drop_first())
    }
}

/// A number is read where it stands, whatever is before and behind it, as long
/// as there is room for it.
pub proof fn lemma_number_read(before: Seq<u8>, s: Seq<u8>, behind: Seq<u8>, room: nat)
    requires
        whole_number(s),
        s.len() <= room,
    ensures
        varint(before + s + behind, before.len() as int, room) == Ok::<(nat, int), PackError>(
            (number_value(s), (before.len() + s.len()) as int),
        ),
    decreases s.len(),
{
    let all = before + s + behind;
    let at = before.len() as int;
    assert(all[at] == s[0]);
    if s.len() == 1 {
        assert(s[0] == s.last());
        assert(number_value(s.drop_first()) == 0);
    } else {
        assert(s[0] >= 128);
        let rest = s.drop_first();
        assert(rest.last() == s.last());
        assert forall|i: int| 0 <= i < rest.len() - 1 implies #[trigger] rest[i] >= 128 by {
            assert(rest[i] == s[i + 1]);
        }
        assert(before.push(s[0]) + rest + behind =~= all);
        lemma_number_read(before.push(s[0]), rest, behind, (room - 1) as nat);
    }
}

/// A number that does not end is refused: where the bytes run out, or where
/// they take more room than there is.
pub proof fn lemma_number_without_end(before: Seq<u8>, s: Seq<u8>, room: nat)
    requires
        forall|i: int| 0 <= i < s.len() ==> #[trigger] s[i] >= 128,
    ensures
        varint(before + s, before.len() as int, room) == Err::<(nat, int), PackError>(
            if s.len() <= room {
                PackError::Truncated
            } else {
                PackError::NumberTooLong
            },
        ),
    decreases s.len(),
{
    if s.len() > 0 && room > 0 {
        let rest = s.drop_first();
        assert((before + s)[before.len() as int] == s[0]);
        assert(s[0] >= 128);
        assert forall|i: int| 0 <= i < rest.len() implies #[trigger] rest[i] >= 128 by {
            assert(rest[i] == s[i + 1]);
        }
        assert(before.push(s[0]) + rest =~= before + s);
        lemma_number_without_end(before.push(s[0]), rest, (room - 1) as nat);
    }
}

/// Two numbers are what a delta begins with.
pub proof fn lemma_sizes_are_a_head(from: Seq<u8>, to: Seq<u8>)
    requires
        whole_number(from),
        whole_number(to),
        7 * from.len() <= usize::BITS + 6,
        7 * to.len() <= usize::BITS + 6,
    ensures
        delta_head(from + to),
{
    let none = Seq::<u8>::empty();
    lemma_number_read(none, from, to, group_room(0));
    lemma_number_read(from, to, none, group_room(0));
    assert(none + from + to =~= from + to);
    assert(from + to + none =~= from + to);
}

// ---------------------------------------------------------------------------
// Single commands
// ---------------------------------------------------------------------------

/// A byte that stands there, or does not.
pub open spec fn maybe_byte(there: bool, b: u8) -> Seq<u8> {
    if there {
        seq![b]
    } else {
        Seq::empty()
    }
}

/// The value of a byte that stands there, and zero of one that does not.
pub open spec fn worth(there: bool, b: u8) -> int {
    if there {
        b as int
    } else {
        0
    }
}

/// One, or zero.
pub open spec fn bit(there: bool) -> int {
    if there {
        1
    } else {
        0
    }
}

/// The operands of a copy: four bytes of the offset and three of the size, of
/// which only those are sent that are marked.
pub struct CopyOperands {
    pub marks: Seq<bool>,
    pub bytes: Seq<u8>,
}

impl CopyOperands {
    /// There are seven bytes, each with its mark.
    pub open spec fn whole(self) -> bool {
        self.marks.len() == 7 && self.bytes.len() == 7
    }

    /// Where the copy begins in the base.
    pub open spec fn offset(self) -> int {
        worth(self.marks[0], self.bytes[0]) + 0x100 * worth(self.marks[1], self.bytes[1])
            + 0x1_0000 * worth(self.marks[2], self.bytes[2]) + 0x100_0000 * worth(
            self.marks[3],
            self.bytes[3],
        )
    }

    /// The size that is sent.
    pub open spec fn stated(self) -> int {
        worth(self.marks[4], self.bytes[4]) + 0x100 * worth(self.marks[5], self.bytes[5])
            + 0x1_0000 * worth(self.marks[6], self.bytes[6])
    }

    /// How many bytes are copied: zero stands for 65536.
    pub open spec fn size(self) -> int {
        if self.stated() == 0 {
            65536
        } else {
            self.stated()
        }
    }

    /// The byte that the command begins with.
    pub open spec fn opcode(self) -> int {
        128 + bit(self.marks[0]) + 2 * bit(self.marks[1]) + 4 * bit(self.marks[2]) + 8 * bit(
            self.marks[3],
        ) + 16 * bit(self.marks[4]) + 32 * bit(self.marks[5]) + 64 * bit(self.marks[6])
    }

    /// The bytes of the command.
    pub open spec fn command(self) -> Seq<u8> {
        seq![self.opcode() as u8] + maybe_byte(self.marks[0], self.bytes[0]) + maybe_byte(
            self.marks[1],
            self.bytes[1],
        ) + maybe_byte(self.marks[2], self.bytes[2]) + maybe_byte(self.marks[3], self.bytes[3])
            + maybe_byte(self.marks[4], self.bytes[4]) + maybe_byte(self.marks[5], self.bytes[5])
            + maybe_byte(self.marks[6], self.bytes[6])
    }

    spec fn bits(self, k: int) -> int
        decreases 7 - k,
    {
        if k >= 7 {
            1
        } else {
            bit(self.marks[k]) + 2 * self.bits(k + 1)
        }
    }

    spec fn value(self, k: int, n: nat) -> int
        decreases n,
    {
        if n == 0 {
            0
        } else {
            worth(self.marks[k], self.bytes[k]) + 256 * self.value(k + 1, (n - 1) as nat)
        }
    }

    spec fn row(self, k: int, n: nat) -> Seq<u8>
        decreases n,
    {
        if n == 0 {
            Seq::empty()
        } else {
            maybe_byte(self.marks[k], self.bytes[k]) + self.row(k + 1, (n - 1) as nat)
        }
    }
}

proof fn lemma_operand_row(c: CopyOperands, before: Seq<u8>, behind: Seq<u8>, k: int, n: nat)
    requires
        0 <= k,
        k + n <= 7,
    ensures
        operand(before + c.row(k, n) + behind, before.len() as int, c.bits(k), n) == Some(
            (c.value(k, n) as nat, (before.len() + c.row(k, n).len()) as int),
        ),
        c.value(k, n) >= 0,
    decreases n,
{
    if n > 0 {
        let all = before + c.row(k, n) + behind;
        let rest = c.row(k + 1, (n - 1) as nat);
        let first = maybe_byte(c.marks[k], c.bytes[k]);
        let b = c.bits(k + 1);
        assert(c.bits(k) == bit(c.marks[k]) + 2 * b);
        assert((bit(c.marks[k]) + 2 * b) / 2 == b);
        assert((bit(c.marks[k]) + 2 * b) % 2 == bit(c.marks[k]));
        lemma_operand_row(c, before + first, behind, k + 1, (n - 1) as nat);
        assert(before + first + rest + behind =~= all);
        if c.marks[k] {
            assert(all[before.len() as int] == c.bytes[k]);
        }
    }
}

/// What the seven operands come to, all at once.
proof fn lemma_rows(c: CopyOperands)
    ensures
        c.opcode() == c.bits(0),
        c.bits(0) / 16 == c.bits(4),
        128 <= c.opcode() < 256,
        c.offset() == c.value(0, 4),
        c.stated() == c.value(4, 3),
        c.command() == seq![c.opcode() as u8] + c.row(0, 4) + c.row(4, 3),
{
    reveal_with_fuel(CopyOperands::bits, 8);
    reveal_with_fuel(CopyOperands::value, 5);
    reveal_with_fuel(CopyOperands::row, 5);
    let low = bit(c.marks[0]) + 2 * bit(c.marks[1]) + 4 * bit(c.marks[2]) + 8 * bit(c.marks[3]);
    assert(c.bits(0) == low + 16 * c.bits(4));
    assert((low + 16 * c.bits(4)) / 16 == c.bits(4)) by {
        assert(0 <= low < 16);
    }
    assert(c.command() =~= seq![c.opcode() as u8] + c.row(0, 4) + c.row(4, 3));
}

/// A delta that is one copy: byte `i` of the result is byte `offset + i` of
/// the base, for as many bytes as the size says, or as there are. A copy from
/// beyond the end is refused.
pub proof fn lemma_single_copy(base: Seq<u8>, head: Seq<u8>, c: CopyOperands)
    requires
        delta_head(head),
        c.whole(),
    ensures
        match delta_applied(base, head + c.command()) {
            Ok(r) => {
                &&& c.offset() <= base.len()
                &&& c.offset() + c.size() <= base.len() ==> r.len() == c.size()
                &&& c.offset() + c.size() > base.len() ==> c.offset() + r.len() == base.len()
                &&& forall|i: int| 0 <= i < r.len() ==> #[trigger] r[i] == base[c.offset() + i]
            },
            Err(e) => c.offset() > base.len() && e == PackError::CopyOutOfRange,
        },
{
    let command = c.command();
    lemma_delta_sizes_ignored(base, head, command);
    lemma_rows(c);
    let none = Seq::<u8>::empty();
    let op = seq![c.opcode() as u8];
    lemma_operand_row(c, op, c.row(4, 3), 0, 4);
    lemma_operand_row(c, op + c.row(0, 4), none, 4, 3);
    assert(op + c.row(0, 4) + c.row(4, 3) + none =~= command);
    assert(command[0] == c.opcode() as u8);
    let end = command.len() as int;
    assert(delta_commands(base, command, end) == Ok::<Seq<u8>, PackError>(none));
}

/// A copy whose operands are not all there is refused.
pub proof fn lemma_copy_cut_short(base: Seq<u8>, head: Seq<u8>, c: CopyOperands, n: int)
    requires
        delta_head(head),
        c.whole(),
        0 < n < c.command().len(),
    ensures
        delta_applied(base, head + c.command().take(n)) == Err::<Seq<u8>, PackError>(
            PackError::Truncated,
        ),
{
    let command = c.command();
    let cut = command.take(n);
    lemma_delta_sizes_ignored(base, head, cut);
    lemma_rows(c);
    let op = seq![c.opcode() as u8];
    let first = c.row(0, 4);
    if n < 1 + first.len() {
        assert(cut =~= op + first.take(n - 1));
        lemma_operand_cut(c, op, 0, 4, n - 1);
    } else {
        let second = c.row(4, 3);
        assert(cut =~= op + first + second.take(n - 1 - first.len()));
        lemma_operand_row(c, op, second.take(n - 1 - first.len()), 0, 4);
        lemma_operand_cut(c, op + first, 4, 3, n - 1 - first.len());
    }
    assert(cut[0] == c.opcode() as u8);
}

proof fn lemma_operand_cut(c: CopyOperands, before: Seq<u8>, k: int, n: nat, m: int)
    requires
        0 <= k,
        k + n <= 7,
        0 <= m < c.row(k, n).len(),
    ensures
        operand(before + c.row(k, n).take(m), before.len() as int, c.bits(k), n) is None,
    decreases n,
{
    let all = before + c.row(k, n).take(m);
    let rest = c.row(k + 1, (n - 1) as nat);
    let b = c.bits(k + 1);
    assert(c.bits(k) == bit(c.marks[k]) + 2 * b);
    assert((bit(c.marks[k]) + 2 * b) / 2 == b);
    assert((bit(c.marks[k]) + 2 * b) % 2 == bit(c.marks[k]));
    if !c.marks[k] {
        assert(c.row(k, n) =~= rest);
        lemma_operand_cut(c, before, k + 1, (n - 1) as nat, m);
    } else if m > 0 {
        assert(before.push(c.bytes[k]) + rest.take(m - 1) =~= all);
        assert(all[before.len() as int] == c.bytes[k]);
        lemma_operand_cut(c, before.push(c.bytes[k]), k + 1, (n - 1) as nat, m - 1);
    }
}

/// A delta that is one insertion: the result is the bytes that are sent.
pub proof fn lemma_single_insertion(base: Seq<u8>, head: Seq<u8>, data: Seq<u8>)
    requires
        delta_head(head),
        0 < data.len() < 128,
    ensures
        delta_applied(base, head + seq![data.len() as u8] + data) == Ok::<Seq<u8>, PackError>(data),
{
    let command = seq![data.len() as u8] + data;
    assert(head + seq![data.len() as u8] + data =~= head + command);
    lemma_delta_sizes_ignored(base, head, command);
    assert(command[0] == data.len());
    assert(command.subrange(1, data.len() + 1int) =~= data);
    assert(delta_commands(base, command, command.len() as int) == Ok::<Seq<u8>, PackError>(
        Seq::empty(),
    ));
    assert(data + Seq::<u8>::empty() =~= data);
}

/// An insertion whose bytes are not all there is refused.
pub proof fn lemma_insertion_cut_short(base: Seq<u8>, head: Seq<u8>, n: u8, data: Seq<u8>)
    requires
        delta_head(head),
        data.len() < n < 128,
    ensures
        delta_applied(base, head + seq![n] + data) == Err::<Seq<u8>, PackError>(
            PackError::Truncated,
        ),
{
    let command = seq![n] + data;
    assert(head + seq![n] + data =~= head + command);
    lemma_delta_sizes_ignored(base, head, command);
    assert(command[0] == n);
}

// ---------------------------------------------------------------------------
// Whole deltas
// ---------------------------------------------------------------------------

/// One command of a delta.
pub enum Command {
    Copy(CopyOperands),
    Insert(Seq<u8>),
}

impl Command {
    /// The bytes of the command.
    pub open spec fn bytes(self) -> Seq<u8> {
        match self {
            Command::Copy(c) => c.command(),
            Command::Insert(data) => seq![data.len() as u8] + data,
        }
    }

    /// A command as Git makes them: a copy stays within the base, an insertion
    /// is of 1 to 127 bytes.
    pub open spec fn fits(self, base: Seq<u8>) -> bool {
        match self {
            Command::Copy(c) => c.whole() && c.offset() + c.size() <= base.len(),
            Command::Insert(data) => 0 < data.len() < 128,
        }
    }

    /// How many bytes it adds.
    pub open spec fn gain(self) -> int {
        match self {
            Command::Copy(c) => c.size(),
            Command::Insert(data) => data.len() as int,
        }
    }

    /// Byte `i` of what it adds.
    pub open spec fn byte(self, base: Seq<u8>, i: int) -> u8 {
        match self {
            Command::Copy(c) => base[c.offset() + i],
            Command::Insert(data) => data[i],
        }
    }
}

/// The bytes of commands, one after the other.
pub open spec fn all_bytes(cs: Seq<Command>) -> Seq<u8>
    decreases cs.len(),
{
    if cs.len() == 0 {
        Seq::empty()
    } else {
        all_bytes(cs.drop_last()) + cs.last().bytes()
    }
}

/// How many bytes commands add.
pub open spec fn all_gain(cs: Seq<Command>) -> int
    decreases cs.len(),
{
    if cs.len() == 0 {
        0
    } else {
        all_gain(cs.drop_last()) + cs.last().gain()
    }
}

/// The byte `b` stands at this place.
pub open spec fn stands_at(r: Seq<u8>, at: int, b: u8) -> bool {
    0 <= at < r.len() && r[at] == b
}

/// Behind what the commands before it made stand the bytes of each command,
/// and nothing else.
pub open spec fn made_of(base: Seq<u8>, cs: Seq<Command>, r: Seq<u8>) -> bool {
    &&& r.len() == all_gain(cs)
    &&& forall|k: int, i: int|
        #![trigger cs[k].byte(base, i)]
        0 <= k < cs.len() && 0 <= i < cs[k].gain() ==> stands_at(
            r,
            all_gain(cs.take(k)) + i,
            cs[k].byte(base, i),
        )
}

proof fn lemma_made_joined(base: Seq<u8>, cs: Seq<Command>, x: Seq<u8>, y: Seq<u8>)
    requires
        cs.len() > 0,
        made_of(base, cs.drop_last(), x),
        y.len() == cs.last().gain(),
        forall|i: int| 0 <= i < y.len() ==> #[trigger] y[i] == cs.last().byte(base, i),
    ensures
        made_of(base, cs, x + y),
{
    let front = cs.drop_last();
    let r = x + y;
    assert(r.len() == all_gain(cs));
    assert forall|k: int, i: int|
        #![trigger cs[k].byte(base, i)]
        0 <= k < cs.len() && 0 <= i < cs[k].gain() implies stands_at(
        r,
        all_gain(cs.take(k)) + i,
        cs[k].byte(base, i),
    ) by {
        if k < front.len() {
            assert(cs.take(k) =~= front.take(k));
            assert(front[k] == cs[k]);
            assert(stands_at(x, all_gain(front.take(k)) + i, front[k].byte(base, i)));
        } else {
            assert(cs.take(k) =~= front);
            assert(cs[k] == cs.last());
            assert(y[i] == cs.last().byte(base, i));
            assert(r[x.len() + i] == y[i]);
        }
    }
}

/// What a single command makes.
proof fn lemma_single_command(base: Seq<u8>, head: Seq<u8>, c: Command)
    requires
        delta_head(head),
        c.fits(base),
    ensures
        match delta_applied(base, head + c.bytes()) {
            Ok(r) => r.len() == c.gain() && forall|i: int|
                0 <= i < r.len() ==> #[trigger] r[i] == c.byte(base, i),
            Err(_) => false,
        },
{
    match c {
        Command::Copy(operands) => {
            lemma_single_copy(base, head, operands);
        },
        Command::Insert(data) => {
            lemma_single_insertion(base, head, data);
            assert(head + seq![data.len() as u8] + data =~= head + c.bytes());
        },
    }
}

/// A delta as Git makes them is applied: the result is made of what each of
/// its commands adds. So it has the size that the delta states where that is
/// the sum of theirs.
pub proof fn lemma_delta_applied(base: Seq<u8>, head: Seq<u8>, cs: Seq<Command>)
    requires
        delta_head(head),
        forall|i: int| 0 <= i < cs.len() ==> (#[trigger] cs[i]).fits(base),
    ensures
        match delta_applied(base, head + all_bytes(cs)) {
            Ok(r) => r.len() == all_gain(cs) && made_of(base, cs, r),
            Err(_) => false,
        },
    decreases cs.len(),
{
    if cs.len() == 0 {
        lemma_delta_sizes_ignored(base, head, Seq::empty());
        assert(head + all_bytes(cs) =~= head);
    } else {
        let front = cs.drop_last();
        let last = cs.last();
        assert(last == cs[cs.len() - 1]);
        assert forall|i: int| 0 <= i < front.len() implies (#[trigger] front[i]).fits(base) by {
            assert(front[i] == cs[i]);
        }
        lemma_delta_applied(base, head, front);
        lemma_single_command(base, head, last);
        lemma_delta_joins(base, head, all_bytes(front), last.bytes());
        assert(head + all_bytes(front) + last.bytes() =~= head + all_bytes(cs));
        lemma_made_joined(
            base,
            cs,
            delta_applied(base, head + all_bytes(front))->Ok_0,
            delta_applied(base, head + last.bytes())->Ok_0,
        );
    }
}

/// A delta whose sizes are written out is applied, and the result has the size
/// that it states where that is what its commands add.
pub proof fn lemma_stated_size_is_reached(
    base: Seq<u8>,
    from: Seq<u8>,
    to: Seq<u8>,
    cs: Seq<Command>,
)
    requires
        whole_number(from),
        whole_number(to),
        7 * from.len() <= usize::BITS + 6,
        7 * to.len() <= usize::BITS + 6,
        forall|i: int| 0 <= i < cs.len() ==> (#[trigger] cs[i]).fits(base),
        number_value(to) == all_gain(cs),
    ensures
        delta_applied(base, from + to + all_bytes(cs)) matches Ok(r) && r.len() == number_value(to),
{
    lemma_sizes_are_a_head(from, to);
    lemma_delta_applied(base, from + to, cs);
}

} // verus!
