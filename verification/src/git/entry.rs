//! The entries of a tree object, their order, and sorting by it.

use vstd::prelude::*;

use crate::bytes::{begins_with, copy_bytes, find_byte, has_prefix, position, text};
use crate::oid::ObjectId;

verus! {

/// The mode of a tree entry: the octal digits that stand for it in a tree
/// object, such as `100644` or `40000`.
pub struct EntryMode {
    pub octal: Vec<u8>,
}

/// An entry of a tree object.
pub struct TreeEntry {
    pub mode: EntryMode,
    pub filename: Vec<u8>,
    pub oid: ObjectId,
}

/// What an entry is: the digits of its mode, its name, and the id it names.
#[verifier::ext_equal]
pub struct EntryModel {
    pub octal: Seq<u8>,
    pub name: Seq<u8>,
    pub oid: Seq<u8>,
}

impl View for EntryMode {
    type V = Seq<u8>;

    open spec fn view(&self) -> Seq<u8> {
        self.octal@
    }
}

impl View for TreeEntry {
    type V = EntryModel;

    open spec fn view(&self) -> EntryModel {
        EntryModel { octal: self.mode@, name: self.filename@, oid: self.oid@ }
    }
}

/// What a list of entries is.
pub open spec fn models(entries: Seq<TreeEntry>) -> Seq<EntryModel> {
    entries.map_values(|e: TreeEntry| e@)
}

/// Digits of a mode: one to six octal digits.
pub open spec fn octal_digits(octal: Seq<u8>) -> bool {
    1 <= octal.len() <= 6 && forall|i: int| 0 <= i < octal.len() ==> 48 <= #[trigger] octal[i] <= 55
}

/// Whether the mode is that of a tree: the fifth digit from the right is `4`,
/// whatever stands before it.
pub open spec fn tree_mode(octal: Seq<u8>) -> bool {
    ||| octal.len() == 5 && octal[0] == 52
    ||| octal.len() == 6 && octal[1] == 52
}

/// The digits of a mode as a tree object is written with them: five digits
/// for a tree, `040000` for one from old writers, and six for all else.
pub open spec fn regular_mode(octal: Seq<u8>) -> bool {
    &&& octal_digits(octal)
    &&& {
        ||| octal.len() == 5 && octal[0] == 52
        ||| octal == seq![48u8, 52u8, 48u8, 48u8, 48u8, 48u8]
        ||| octal.len() == 6 && octal[0] <= 49 && octal[1] != 52 && octal != seq![
            48u8,
            48u8,
            48u8,
            48u8,
            48u8,
            48u8,
        ]
    }
}

/// The digits that a mode is given to the writer of tree objects by. A tree's
/// mode that a tree object shows with a leading zero, other than `040000`, is
/// one that the writer knows by a leading one.
pub open spec fn given_mode(octal: Seq<u8>) -> Seq<u8> {
    if octal.len() == 6 && octal[0] == 48 && octal[1] == 52 && octal != seq![
        48u8,
        52u8,
        48u8,
        48u8,
        48u8,
        48u8,
    ] {
        octal.update(0, 49)
    } else {
        octal
    }
}

/// The entries as they are given to the writer of tree objects.
pub open spec fn given(es: Seq<EntryModel>) -> Seq<EntryModel> {
    es.map_values(|e: EntryModel| EntryModel { octal: given_mode(e.octal), ..e })
}

/// An entry that a tree object holds unchanged: its mode is regular, its name
/// holds no NUL, and its id is twenty bytes long.
pub open spec fn regular_entry(e: EntryModel) -> bool {
    regular_mode(e.octal) && position(e.name, 0) is None && e.oid.len() == 20
}

/// A list of regular entries.
pub open spec fn regular_entries(es: Seq<EntryModel>) -> bool {
    forall|i: int| 0 <= i < es.len() ==> regular_entry(#[trigger] es[i])
}

/// The bytes of one entry in a tree object: digits, space, name, NUL, id.
pub open spec fn entry_bytes(e: EntryModel) -> Seq<u8> {
    e.octal + seq![32u8] + e.name + seq![0u8] + e.oid
}

/// The bytes of a tree object.
pub open spec fn tree_bytes(es: Seq<EntryModel>) -> Seq<u8>
    decreases es.len(),
{
    if es.len() == 0 {
        Seq::empty()
    } else {
        tree_bytes(es.drop_last()) + entry_bytes(es.last())
    }
}

/// The mode of a directory.
pub open spec fn directory_mode() -> Seq<u8> {
    text("40000")
}

/// The mode of a plain file.
pub open spec fn file_mode() -> Seq<u8> {
    text("100644")
}

impl EntryMode {
    /// The mode of a directory.
    pub fn tree() -> (r: EntryMode)
        ensures
            r@ == directory_mode(),
    {
        EntryMode { octal: copy_bytes("40000".as_bytes()) }
    }

    /// The mode of a plain file.
    pub fn blob() -> (r: EntryMode)
        ensures
            r@ == file_mode(),
    {
        EntryMode { octal: copy_bytes("100644".as_bytes()) }
    }

    /// Whether the mode is that of a tree.
    pub fn is_tree(&self) -> (r: bool)
        ensures
            r == tree_mode(self@),
    {
        let o = &self.octal;
        (o.len() == 5 && o[0] == 52) || (o.len() == 6 && o[1] == 52)
    }

    /// A copy of the mode.
    pub fn duplicate(&self) -> (r: EntryMode)
        ensures
            r@ == self@,
    {
        EntryMode { octal: copy_bytes(self.octal.as_slice()) }
    }
}

impl TreeEntry {
    /// A copy of the entry.
    pub fn duplicate(&self) -> (r: TreeEntry)
        ensures
            r@ == self@,
    {
        TreeEntry {
            mode: self.mode.duplicate(),
            filename: copy_bytes(self.filename.as_slice()),
            oid: self.oid,
        }
    }
}

/// The two modes that the library writes are regular.
pub proof fn lemma_own_modes()
    ensures
        regular_mode(directory_mode()),
        tree_mode(directory_mode()),
        regular_mode(file_mode()),
        !tree_mode(file_mode()),
{
    reveal_strlit("40000");
    reveal_strlit("100644");
    vstd::utf8::is_ascii_chars_encode_utf8("40000"@);
    vstd::utf8::is_ascii_chars_encode_utf8("100644"@);
    assert(directory_mode() =~= seq![52u8, 48u8, 48u8, 48u8, 48u8]);
    assert(file_mode() =~= seq![49u8, 48u8, 48u8, 54u8, 52u8, 52u8]);
}

// ---------------------------------------------------------------------------
// Order
// ---------------------------------------------------------------------------

/// What a name compares by where its bytes have run out: nothing, or the `/`
/// that a directory's name is taken to end in.
pub open spec fn end_rank(name: Seq<u8>, tree: bool) -> int {
    if name.len() > 0 {
        name[0] as int
    } else if tree {
        47
    } else {
        -1
    }
}

/// Whether name `a` comes before name `b` in a tree: byte by byte, and where
/// one ends, a directory's name as if `/` followed.
pub open spec fn name_before(a: Seq<u8>, a_tree: bool, b: Seq<u8>, b_tree: bool) -> bool
    decreases a.len(),
{
    if a.len() > 0 && b.len() > 0 {
        if a[0] != b[0] {
            a[0] < b[0]
        } else {
            name_before(a.drop_first(), a_tree, b.drop_first(), b_tree)
        }
    } else {
        end_rank(a, a_tree) < end_rank(b, b_tree)
    }
}

/// Whether entry `a` comes before entry `b`.
pub open spec fn entry_before(a: EntryModel, b: EntryModel) -> bool {
    name_before(a.name, tree_mode(a.octal), b.name, tree_mode(b.octal))
}

/// Puts `e` into a sorted list, behind the entries that it does not precede.
pub open spec fn placed(es: Seq<EntryModel>, e: EntryModel) -> Seq<EntryModel>
    decreases es.len(),
{
    if es.len() == 0 || !entry_before(e, es.last()) {
        es.push(e)
    } else {
        placed(es.drop_last(), e).push(es.last())
    }
}

/// The entries in the order of a tree; those that are equal in it keep theirs.
pub open spec fn in_tree_order(es: Seq<EntryModel>) -> Seq<EntryModel>
    decreases es.len(),
{
    if es.len() == 0 {
        es
    } else {
        placed(in_tree_order(es.drop_last()), es.last())
    }
}

/// No entry stands behind one that it precedes.
pub open spec fn ordered(es: Seq<EntryModel>) -> bool {
    forall|i: int, j: int|
        0 <= i < j < es.len() ==> !entry_before(#[trigger] es[j], #[trigger] es[i])
}

/// The name of `b` goes on with `/` where the directory name `a` ends: the two
/// compare as equal.
pub open spec fn goes_on(a: EntryModel, b: EntryModel) -> bool {
    tree_mode(a.octal) && begins_with(b.name, a.name.push(47))
}

/// The names of `x` and `y` go on from the directory `dir`, so that both
/// compare as equal to it, but one comes before the other: the order is none.
pub open spec fn clash(dir: EntryModel, x: EntryModel, y: EntryModel) -> bool {
    goes_on(dir, x) && goes_on(dir, y) && entry_before(x, y)
}

/// No entries clash.
pub open spec fn clash_free(es: Seq<EntryModel>) -> bool {
    forall|i: int, j: int, k: int|
        0 <= i < es.len() && 0 <= j < es.len() && 0 <= k < es.len() ==> !#[trigger] clash(
            es[i],
            es[j],
            es[k],
        )
}

fn is_before(a: &[u8], a_tree: bool, b: &[u8], b_tree: bool) -> (r: bool)
    ensures
        r == name_before(a@, a_tree, b@, b_tree),
{
    let mut i: usize = 0;
    assert(a@.skip(0) =~= a@);
    assert(b@.skip(0) =~= b@);
    while i < a.len() && i < b.len()
        invariant
            i <= a.len(),
            i <= b.len(),
            name_before(a@, a_tree, b@, b_tree) == name_before(
                a@.skip(i as int),
                a_tree,
                b@.skip(i as int),
                b_tree,
            ),
        decreases a.len() - i,
    {
        if a[i] != b[i] {
            return a[i] < b[i];
        }
        assert(a@.skip(i as int).drop_first() =~= a@.skip(i + 1));
        assert(b@.skip(i as int).drop_first() =~= b@.skip(i + 1));
        i += 1;
    }
    let x: i32 = if i < a.len() {
        a[i] as i32
    } else if a_tree {
        47
    } else {
        -1
    };
    let y: i32 = if i < b.len() {
        b[i] as i32
    } else if b_tree {
        47
    } else {
        -1
    };
    x < y
}

/// The padded name: a directory's name with its `/`.
spec fn padded(e: EntryModel) -> Seq<u8> {
    if tree_mode(e.octal) {
        e.name.push(47)
    } else {
        e.name
    }
}

/// Plain lexicographic order.
spec fn lex(a: Seq<u8>, b: Seq<u8>) -> bool
    decreases a.len(),
{
    if b.len() == 0 {
        false
    } else if a.len() == 0 {
        true
    } else if a[0] != b[0] {
        a[0] < b[0]
    } else {
        lex(a.drop_first(), b.drop_first())
    }
}

proof fn lemma_lex_transitive(a: Seq<u8>, b: Seq<u8>, c: Seq<u8>)
    requires
        !lex(b, a),
        !lex(c, b),
    ensures
        !lex(c, a),
    decreases a.len(),
{
    if a.len() > 0 && b.len() > 0 && c.len() > 0 && a[0] == b[0] && b[0] == c[0] {
        lemma_lex_transitive(a.drop_first(), b.drop_first(), c.drop_first());
    }
}

/// Where two names do not clash, the order is the lexicographic order of the
/// padded names.
proof fn lemma_before_is_lex(a: Seq<u8>, at: bool, b: Seq<u8>, bt: bool)
    requires
        !(at && begins_with(b, a.push(47))),
        !(bt && begins_with(a, b.push(47))),
    ensures
        name_before(a, at, b, bt) == lex(
            if at {
                a.push(47)
            } else {
                a
            },
            if bt {
                b.push(47)
            } else {
                b
            },
        ),
    decreases a.len(),
{
    let pa = if at {
        a.push(47)
    } else {
        a
    };
    let pb = if bt {
        b.push(47)
    } else {
        b
    };
    if a.len() > 0 && b.len() > 0 {
        if a[0] == b[0] {
            let a1 = a.drop_first();
            let b1 = b.drop_first();
            if at && begins_with(b1, a1.push(47)) {
                assert(b.subrange(0, a.push(47).len() as int) =~= a.push(47)) by {
                    assert forall|i: int| 0 <= i < a.len() + 1 implies b[i] == a.push(47)[i] by {
                        if i > 0 {
                            assert(b1.subrange(0, a1.push(47).len() as int)[i - 1] == a1.push(47)[i - 1]);
                        }
                    }
                }
            }
            if bt && begins_with(a1, b1.push(47)) {
                assert(a.subrange(0, b.push(47).len() as int) =~= b.push(47)) by {
                    assert forall|i: int| 0 <= i < b.len() + 1 implies a[i] == b.push(47)[i] by {
                        if i > 0 {
                            assert(a1.subrange(0, b1.push(47).len() as int)[i - 1] == b1.push(47)[i - 1]);
                        }
                    }
                }
            }
            lemma_before_is_lex(a1, at, b1, bt);
            assert(pa.drop_first() =~= if at {
                a1.push(47)
            } else {
                a1
            });
            assert(pb.drop_first() =~= if bt {
                b1.push(47)
            } else {
                b1
            });
        }
    } else {
        reveal_with_fuel(lex, 2);
        if a.len() == 0 && b.len() > 0 && at && b[0] == 47 {
            assert(b.subrange(0, 1) =~= a.push(47));
        }
        if b.len() == 0 && a.len() > 0 && bt && a[0] == 47 {
            assert(a.subrange(0, 1) =~= b.push(47));
        }
    }
}

proof fn lemma_lex_asymmetric(a: Seq<u8>, b: Seq<u8>)
    requires
        lex(a, b),
    ensures
        !lex(b, a),
        a != b,
    decreases a.len(),
{
    if a.len() > 0 && b.len() > 0 && a[0] == b[0] {
        lemma_lex_asymmetric(a.drop_first(), b.drop_first());
    }
}

proof fn lemma_prefix_front(s: Seq<u8>, prefix: Seq<u8>)
    requires
        prefix.len() > 0,
    ensures
        begins_with(s, prefix) == (s.len() > 0 && s[0] == prefix[0] && begins_with(
            s.drop_first(),
            prefix.drop_first(),
        )),
{
    let n = prefix.len() as int;
    if begins_with(s, prefix) {
        assert(s.subrange(0, n)[0] == prefix[0]);
        assert(s.drop_first().subrange(0, n - 1) =~= s.subrange(0, n).drop_first());
    }
    if s.len() > 0 && s[0] == prefix[0] && begins_with(s.drop_first(), prefix.drop_first()) {
        assert forall|i: int| 0 <= i < n implies s[i] == prefix[i] by {
            if i > 0 {
                assert(s.drop_first().subrange(0, n - 1)[i - 1] == prefix.drop_first()[i - 1]);
            }
        }
        assert(s.subrange(0, n) =~= prefix);
    }
}

proof fn lemma_prefix_lex(s: Seq<u8>, prefix: Seq<u8>)
    requires
        begins_with(s, prefix),
    ensures
        !lex(s, prefix),
    decreases s.len(),
{
    if prefix.len() > 0 {
        lemma_prefix_front(s, prefix);
        lemma_prefix_lex(s.drop_first(), prefix.drop_first());
    }
}

/// What lies between a string and one that goes on from it goes on from it.
proof fn lemma_between(prefix: Seq<u8>, m: Seq<u8>, s: Seq<u8>)
    requires
        begins_with(s, prefix),
        !lex(m, prefix),
        !lex(s, m),
    ensures
        begins_with(m, prefix),
    decreases prefix.len(),
{
    if prefix.len() > 0 {
        lemma_prefix_front(s, prefix);
        lemma_prefix_front(m, prefix);
        lemma_between(prefix.drop_first(), m.drop_first(), s.drop_first());
    } else {
        assert(m.subrange(0, 0) =~= prefix);
    }
}

proof fn lemma_goes_on_equal(a: Seq<u8>, b: Seq<u8>, bt: bool)
    requires
        begins_with(b, a.push(47)),
    ensures
        !name_before(a, true, b, bt),
        !name_before(b, bt, a, true),
    decreases a.len(),
{
    lemma_prefix_front(b, a.push(47));
    if a.len() > 0 {
        assert(a.push(47).drop_first() =~= a.drop_first().push(47));
        lemma_goes_on_equal(a.drop_first(), b.drop_first(), bt);
    }
}

proof fn lemma_prefix_chain(a: Seq<u8>, b: Seq<u8>, c: Seq<u8>)
    requires
        begins_with(a, b),
        begins_with(b, c),
    ensures
        begins_with(a, c),
{
    assert(a.subrange(0, c.len() as int) =~= a.subrange(0, b.len() as int).subrange(
        0,
        c.len() as int,
    ));
}

/// Padded names tell whether a name goes on from a directory.
proof fn lemma_goes_on_padded(a: EntryModel, b: EntryModel)
    requires
        tree_mode(a.octal),
    ensures
        goes_on(a, b) ==> begins_with(padded(b), padded(a)),
        begins_with(padded(b), padded(a)) ==> goes_on(a, b) || padded(a) == padded(b),
{
    let pa = padded(a);
    let pb = padded(b);
    let n = pa.len() as int;
    if goes_on(a, b) {
        assert(pb.subrange(0, n) =~= b.name.subrange(0, n));
    }
    if begins_with(pb, pa) {
        if n <= b.name.len() {
            assert(b.name.subrange(0, n) =~= pb.subrange(0, n));
        } else {
            assert(pb.subrange(0, n) =~= pb);
        }
    }
}

proof fn lemma_same_directory(a: EntryModel, b: EntryModel, c: EntryModel)
    requires
        tree_mode(a.octal),
        padded(a) == padded(b),
        goes_on(a, c),
    ensures
        goes_on(b, c) || goes_on(a, b),
{
    if tree_mode(b.octal) {
        assert(a.name =~= padded(a).drop_last());
        assert(b.name =~= padded(b).drop_last());
    } else {
        assert(b.name.subrange(0, padded(a).len() as int) =~= padded(a));
    }
}

proof fn lemma_not_before_transitive(a: EntryModel, b: EntryModel, c: EntryModel)
    requires
        clash_free(seq![a, b, c]),
        !entry_before(b, a),
        !entry_before(c, b),
    ensures
        !entry_before(c, a),
{
    if entry_before(c, a) {
        let s = seq![a, b, c];
        assert(s[0] == a && s[1] == b && s[2] == c);
        assert(!clash(s[1], s[2], s[0]));
        let (pa, pb, pc) = (padded(a), padded(b), padded(c));
        if goes_on(a, c) {
            lemma_goes_on_equal(a.name, c.name, tree_mode(c.octal));
        }
        if goes_on(c, a) {
            lemma_goes_on_equal(c.name, a.name, tree_mode(a.octal));
        }
        lemma_before_is_lex(c.name, tree_mode(c.octal), a.name, tree_mode(a.octal));
        lemma_lex_asymmetric(pc, pa);
        if !goes_on(a, b) && !goes_on(b, a) {
            lemma_before_is_lex(b.name, tree_mode(b.octal), a.name, tree_mode(a.octal));
        }
        if !goes_on(b, c) && !goes_on(c, b) {
            lemma_before_is_lex(c.name, tree_mode(c.octal), b.name, tree_mode(b.octal));
        }
        if goes_on(a, b) {
            lemma_goes_on_padded(a, b);
            lemma_prefix_lex(pb, pa);
        }
        if goes_on(b, c) {
            lemma_goes_on_padded(b, c);
            lemma_prefix_lex(pc, pb);
        }
        if goes_on(b, a) {
            lemma_goes_on_padded(b, a);
        }
        if goes_on(c, b) {
            lemma_goes_on_padded(c, b);
        }
        if tree_mode(c.octal) {
            lemma_goes_on_padded(c, a);
        }
        if tree_mode(b.octal) {
            lemma_goes_on_padded(b, c);
        }
        if goes_on(b, a) && goes_on(b, c) {
            assert(clash(b, c, a));
        } else if goes_on(b, a) && goes_on(c, b) {
            lemma_prefix_chain(pa, pb, pc);
        } else if goes_on(a, b) && goes_on(c, b) {
            let (m, n) = (pa.len() as int, pc.len() as int);
            if n <= m {
                assert(pb.subrange(0, m).subrange(0, n) =~= pb.subrange(0, n));
                assert(begins_with(pa, pc));
            } else {
                assert(pb.subrange(0, n).subrange(0, m) =~= pb.subrange(0, m));
                lemma_prefix_lex(pc, pa);
            }
        } else if goes_on(b, a) {
            lemma_between(pb, pc, pa);
            lemma_same_directory(b, c, a);
        } else if goes_on(c, b) {
            lemma_between(pc, pa, pb);
        } else {
            lemma_lex_transitive(pa, pb, pc);
        }
    }
}

proof fn lemma_before_asymmetric(a: Seq<u8>, at: bool, b: Seq<u8>, bt: bool)
    ensures
        name_before(a, at, b, bt) ==> !name_before(b, bt, a, at),
    decreases a.len(),
{
    if a.len() > 0 && b.len() > 0 && a[0] == b[0] {
        lemma_before_asymmetric(a.drop_first(), at, b.drop_first(), bt);
    }
}

// ---------------------------------------------------------------------------
// Sorting
// ---------------------------------------------------------------------------

/// `placed` only adds its entry.
pub proof fn lemma_placed_adds(es: Seq<EntryModel>, e: EntryModel)
    ensures
        placed(es, e).len() == es.len() + 1,
        placed(es, e).to_multiset() == es.to_multiset().insert(e),
    decreases es.len(),
{
    broadcast use vstd::seq_lib::group_to_multiset_ensures;

    if es.len() > 0 && entry_before(e, es.last()) {
        lemma_placed_adds(es.drop_last(), e);
        assert(es.drop_last().push(es.last()) =~= es);
        assert(es.to_multiset() =~= es.drop_last().to_multiset().insert(es.last()));
        assert(placed(es, e).to_multiset() =~= es.to_multiset().insert(e));
    }
}

/// Sorting keeps every entry, as often as it stood in the list.
pub proof fn lemma_tree_order_keeps(es: Seq<EntryModel>)
    ensures
        in_tree_order(es).len() == es.len(),
        in_tree_order(es).to_multiset() == es.to_multiset(),
    decreases es.len(),
{
    broadcast use vstd::seq_lib::group_to_multiset_ensures;

    if es.len() > 0 {
        lemma_tree_order_keeps(es.drop_last());
        lemma_placed_adds(in_tree_order(es.drop_last()), es.last());
        assert(es.drop_last().push(es.last()) =~= es);
        assert(es.to_multiset() =~= es.drop_last().to_multiset().insert(es.last()));
    }
}

/// Lists with the same entries hold the same entries somewhere.
pub proof fn lemma_same_entries(a: Seq<EntryModel>, b: Seq<EntryModel>)
    requires
        a.to_multiset() == b.to_multiset(),
    ensures
        forall|e: EntryModel| #[trigger] a.contains(e) <==> b.contains(e),
{
    broadcast use vstd::seq_lib::group_to_multiset_ensures;

    assert forall|e: EntryModel| #[trigger] a.contains(e) <==> b.contains(e) by {
        assert(a.contains(e) <==> a.to_multiset().count(e) > 0);
        assert(b.contains(e) <==> b.to_multiset().count(e) > 0);
    }
}

/// Entries from a list that is free of clashes are.
pub proof fn lemma_clash_free_entries(a: Seq<EntryModel>, b: Seq<EntryModel>)
    requires
        clash_free(a),
        forall|e: EntryModel| #[trigger] b.contains(e) ==> a.contains(e),
    ensures
        clash_free(b),
{
    assert forall|i: int, j: int, k: int|
        0 <= i < b.len() && 0 <= j < b.len() && 0 <= k < b.len() implies !#[trigger] clash(
        b[i],
        b[j],
        b[k],
    ) by {
        assert(b.contains(b[i]) && b.contains(b[j]) && b.contains(b[k]));
        let x = choose|x: int| 0 <= x < a.len() && a[x] == b[i];
        let y = choose|y: int| 0 <= y < a.len() && a[y] == b[j];
        let z = choose|z: int| 0 <= z < a.len() && a[z] == b[k];
        assert(!clash(a[x], a[y], a[z]));
    }
}

proof fn lemma_placed_ordered(es: Seq<EntryModel>, e: EntryModel)
    requires
        ordered(es),
        clash_free(es.push(e)),
    ensures
        ordered(placed(es, e)),
    decreases es.len(),
{
    let all = es.push(e);
    let n = es.len() as int;
    assert(all[n] == e);
    if es.len() == 0 {
    } else if !entry_before(e, es.last()) {
        assert forall|i: int, j: int| 0 <= i < j < all.len() implies !entry_before(
            #[trigger] all[j],
            #[trigger] all[i],
        ) by {
            if j == n && i < n - 1 {
                let three = seq![es[i], es[n - 1], e];
                assert forall|x: EntryModel| #[trigger] three.contains(x) implies all.contains(x) by {
                    let k = choose|k: int| 0 <= k < three.len() && three[k] == x;
                    assert(all[i] == es[i] && all[n - 1] == es[n - 1]);
                }
                lemma_clash_free_entries(all, three);
                assert(!entry_before(es[n - 1], es[i]));
                lemma_not_before_transitive(es[i], es[n - 1], e);
            }
        }
    } else {
        let head = es.drop_last();
        let last = es.last();
        assert forall|x: EntryModel| #[trigger] head.push(e).contains(x) implies all.contains(x) by {
            let k = choose|k: int| 0 <= k < head.push(e).len() && head.push(e)[k] == x;
            if k < head.len() {
                assert(all[k] == x);
            }
        }
        lemma_clash_free_entries(all, head.push(e));
        assert(ordered(head)) by {
            assert forall|i: int, j: int| 0 <= i < j < head.len() implies !entry_before(
                #[trigger] head[j],
                #[trigger] head[i],
            ) by {
                assert(head[j] == es[j] && head[i] == es[i]);
            }
        }
        lemma_placed_ordered(head, e);
        let front = placed(head, e);
        let r = front.push(last);
        lemma_placed_adds(head, e);
        lemma_before_asymmetric(e.name, tree_mode(e.octal), last.name, tree_mode(last.octal));
        assert forall|i: int, j: int| 0 <= i < j < r.len() implies !entry_before(
            #[trigger] r[j],
            #[trigger] r[i],
        ) by {
            if j == r.len() - 1 {
                lemma_placed_members(head, e);
                assert(front.contains(front[i]));
                let x = front[i];
                if x == e {
                } else {
                    assert(head.contains(x));
                    let k = choose|k: int| 0 <= k < head.len() && head[k] == x;
                    assert(es[k] == x && es[n - 1] == last);
                    assert(!entry_before(es[n - 1], es[k]));
                }
            } else {
                assert(r[i] == front[i] && r[j] == front[j]);
            }
        }
    }
}

/// The members of `placed` are the old ones and the new.
pub proof fn lemma_placed_members(es: Seq<EntryModel>, e: EntryModel)
    ensures
        forall|x: EntryModel| #[trigger] placed(es, e).contains(x) <==> es.contains(x) || x == e,
{
    broadcast use vstd::seq_lib::group_to_multiset_ensures;

    lemma_placed_adds(es, e);
    assert forall|x: EntryModel| #[trigger] placed(es, e).contains(x) <==> es.contains(x) || x
        == e by {
        assert(placed(es, e).contains(x) <==> placed(es, e).to_multiset().count(x) > 0);
        assert(es.contains(x) <==> es.to_multiset().count(x) > 0);
    }
}

/// Where no entries clash, sorting orders them.
pub proof fn lemma_tree_order_orders(es: Seq<EntryModel>)
    requires
        clash_free(es),
    ensures
        ordered(in_tree_order(es)),
    decreases es.len(),
{
    if es.len() > 0 {
        let head = es.drop_last();
        assert forall|x: EntryModel| #[trigger] head.contains(x) implies es.contains(x) by {
            let k = choose|k: int| 0 <= k < head.len() && head[k] == x;
            assert(es[k] == x);
        }
        lemma_clash_free_entries(es, head);
        lemma_tree_order_orders(head);
        lemma_tree_order_keeps(head);
        lemma_same_entries(in_tree_order(head), head);
        let all = in_tree_order(head).push(es.last());
        assert forall|x: EntryModel| #[trigger] all.contains(x) implies es.contains(x) by {
            let k = choose|k: int| 0 <= k < all.len() && all[k] == x;
            if k < all.len() - 1 {
                assert(in_tree_order(head).contains(in_tree_order(head)[k]));
                assert(head.contains(x));
            } else {
                assert(es[es.len() - 1] == x);
            }
        }
        lemma_clash_free_entries(es, all);
        lemma_placed_ordered(in_tree_order(head), es.last());
    }
}

fn place_of(es: &Vec<TreeEntry>, e: &TreeEntry) -> (r: usize)
    ensures
        r <= es@.len(),
        placed(models(es@), e@) == models(es@).insert(r as int, e@),
{
    let tree = e.mode.is_tree();
    let mut n: usize = es.len();
    let ghost all = models(es@);
    assert(all.subrange(0, n as int) =~= all);
    assert(all.subrange(n as int, all.len() as int) =~= Seq::empty());
    while n > 0
        invariant
            n <= es@.len(),
            all == models(es@),
            tree == tree_mode(e.mode@),
            placed(all, e@) =~= placed(all.subrange(0, n as int), e@) + all.subrange(
                n as int,
                all.len() as int,
            ),
        ensures
            n <= es@.len(),
            placed(all, e@) == all.subrange(0, n as int).push(e@) + all.subrange(
                n as int,
                all.len() as int,
            ),
        decreases n,
    {
        let ghost head = all.subrange(0, n as int);
        let last = &es[n - 1];
        assert(head.last() == last@);
        if !is_before(
            e.filename.as_slice(),
            tree,
            last.filename.as_slice(),
            last.mode.is_tree(),
        ) {
            break;
        }
        n -= 1;
        assert(head.drop_last() =~= all.subrange(0, n as int));
    }
    assert(all.subrange(0, n as int).push(e@) + all.subrange(n as int, all.len() as int)
        =~= all.insert(n as int, e@));
    n
}

/// The entries in the order of a tree.
pub fn sort_entries(entries: &Vec<TreeEntry>) -> (r: Vec<TreeEntry>)
    ensures
        models(r@) == in_tree_order(models(entries@)),
{
    let mut r: Vec<TreeEntry> = Vec::new();
    let mut i: usize = 0;
    let ghost all = models(entries@);
    assert(models(r@) =~= in_tree_order(all.subrange(0, 0)));
    while i < entries.len()
        invariant
            i <= entries@.len(),
            all == models(entries@),
            models(r@) == in_tree_order(all.subrange(0, i as int)),
        decreases entries@.len() - i,
    {
        let ghost before = r@;
        let e = entries[i].duplicate();
        let ghost model = e@;
        let at: usize = place_of(&r, &e);
        r.insert(at, e);
        i += 1;
        assert(models(r@) =~= models(before).insert(at as int, model));
        assert(all.subrange(0, i as int).drop_last() =~= all.subrange(0, i - 1));
        assert(all.subrange(0, i as int).last() == model);
    }
    assert(all.subrange(0, i as int) =~= all);
    r
}

fn goes_on_from(dir: &TreeEntry, e: &TreeEntry) -> (r: bool)
    ensures
        r == goes_on(dir@, e@),
{
    if !dir.mode.is_tree() {
        return false;
    }
    let mut prefix = copy_bytes(dir.filename.as_slice());
    prefix.push(47);
    has_prefix(e.filename.as_slice(), prefix.as_slice())
}

fn has_clash(entries: &Vec<TreeEntry>, i: usize, j: usize) -> (r: bool)
    requires
        i < entries@.len(),
        j < entries@.len(),
    ensures
        r == exists|k: int|
            0 <= k < entries@.len() && #[trigger] clash(
                models(entries@)[i as int],
                models(entries@)[j as int],
                models(entries@)[k],
            ),
{
    let ghost all = models(entries@);
    if !goes_on_from(&entries[i], &entries[j]) {
        return false;
    }
    let mut k: usize = 0;
    while k < entries.len()
        invariant
            k <= entries@.len(),
            i < entries@.len(),
            j < entries@.len(),
            all == models(entries@),
            goes_on(all[i as int], all[j as int]),
            forall|z: int| 0 <= z < k ==> !#[trigger] clash(all[i as int], all[j as int], all[z]),
        decreases entries@.len() - k,
    {
        assert(all[k as int] == entries@[k as int]@);
        if goes_on_from(&entries[i], &entries[k]) && is_before(
            entries[j].filename.as_slice(),
            entries[j].mode.is_tree(),
            entries[k].filename.as_slice(),
            entries[k].mode.is_tree(),
        ) {
            assert(clash(all[i as int], all[j as int], all[k as int]));
            return true;
        }
        k += 1;
    }
    false
}

/// Whether no entries clash.
pub fn check_clashes(entries: &Vec<TreeEntry>) -> (r: bool)
    ensures
        r == clash_free(models(entries@)),
{
    let ghost all = models(entries@);
    let mut j: usize = 0;
    while j < entries.len()
        invariant
            j <= entries@.len(),
            all == models(entries@),
            forall|x: int, y: int, z: int|
                0 <= x < all.len() && 0 <= y < j && 0 <= z < all.len() ==> !#[trigger] clash(
                    all[x],
                    all[y],
                    all[z],
                ),
        decreases entries@.len() - j,
    {
        let name = entries[j].filename.as_slice();
        assert(all[j as int].name == name@);
        if find_byte(name, 47).is_some() {
            let mut i: usize = 0;
            while i < entries.len()
                invariant
                    i <= entries@.len(),
                    j < entries@.len(),
                    all == models(entries@),
                    forall|x: int, z: int|
                        0 <= x < i && 0 <= z < all.len() ==> !#[trigger] clash(
                            all[x],
                            all[j as int],
                            all[z],
                        ),
                decreases entries@.len() - i,
            {
                if has_clash(entries, i, j) {
                    return false;
                }
                i += 1;
            }
        } else {
            proof {
                crate::bytes::lemma_position(name@, 47);
                assert forall|x: int, z: int|
                    0 <= x < all.len() && 0 <= z < all.len() implies !#[trigger] clash(
                    all[x],
                    all[j as int],
                    all[z],
                ) by {
                    let prefix = all[x].name.push(47);
                    if begins_with(name@, prefix) {
                        assert(name@.subrange(0, prefix.len() as int)[prefix.len() - 1] == 47);
                        assert(name@[prefix.len() - 1] == 47);
                    }
                }
            }
        }
        j += 1;
    }
    true
}

// ---------------------------------------------------------------------------
// The bytes of a tree
// ---------------------------------------------------------------------------

/// The bytes of a tree begin with those of its first entry.
pub proof fn lemma_tree_bytes_front(es: Seq<EntryModel>)
    requires
        es.len() > 0,
    ensures
        tree_bytes(es) == entry_bytes(es[0]) + tree_bytes(es.drop_first()),
    decreases es.len(),
{
    if es.len() == 1 {
        assert(es.drop_last() =~= Seq::empty());
        assert(es.drop_first() =~= Seq::empty());
        assert(tree_bytes(es) =~= entry_bytes(es[0]) + tree_bytes(es.drop_first()));
    } else {
        lemma_tree_bytes_front(es.drop_last());
        assert(es.drop_last().drop_first() =~= es.drop_first().drop_last());
        assert(es.drop_first().last() == es.last());
        assert(tree_bytes(es) =~= entry_bytes(es[0]) + tree_bytes(es.drop_first()));
    }
}

proof fn lemma_entry_unique(a: EntryModel, x: Seq<u8>, b: EntryModel, y: Seq<u8>)
    requires
        regular_entry(a),
        regular_entry(b),
        entry_bytes(a) + x == entry_bytes(b) + y,
    ensures
        a == b,
        x == y,
{
    let s = entry_bytes(a) + x;
    let t = entry_bytes(b) + y;
    let n = a.octal.len() as int;
    let m = b.octal.len() as int;
    assert(s[n] == 32);
    assert(t[m] == 32);
    if n < m {
        assert(t[n] == b.octal[n]);
    }
    if m < n {
        assert(s[m] == a.octal[m]);
    }
    assert forall|i: int| 0 <= i < n implies a.octal[i] == b.octal[i] by {
        assert(s[i] == a.octal[i]);
        assert(t[i] == b.octal[i]);
    }
    assert(a.octal =~= b.octal);
    crate::bytes::lemma_position(a.name, 0);
    crate::bytes::lemma_position(b.name, 0);
    let p = a.name.len() as int;
    let q = b.name.len() as int;
    assert(s[n + 1 + p] == 0);
    assert(t[n + 1 + q] == 0);
    if p < q {
        assert(t[n + 1 + p] == b.name[p]);
    }
    if q < p {
        assert(s[n + 1 + q] == a.name[q]);
    }
    assert forall|i: int| 0 <= i < p implies a.name[i] == b.name[i] by {
        assert(s[n + 1 + i] == a.name[i]);
        assert(t[n + 1 + i] == b.name[i]);
    }
    assert(a.name =~= b.name);
    assert forall|i: int| 0 <= i < 20 implies a.oid[i] == b.oid[i] by {
        assert(s[n + p + 2 + i] == a.oid[i]);
        assert(t[n + p + 2 + i] == b.oid[i]);
    }
    assert(a.oid =~= b.oid);
    assert(a =~= b);
    let len = entry_bytes(a).len() as int;
    assert(x =~= s.skip(len));
    assert(y =~= t.skip(len));
}

/// No two lists of regular entries have the same bytes.
pub proof fn lemma_tree_bytes_unique(a: Seq<EntryModel>, b: Seq<EntryModel>)
    requires
        regular_entries(a),
        regular_entries(b),
        tree_bytes(a) == tree_bytes(b),
    ensures
        a == b,
    decreases a.len(),
{
    if a.len() > 0 {
        lemma_tree_bytes_front(a);
    }
    if b.len() > 0 {
        lemma_tree_bytes_front(b);
    }
    if a.len() > 0 && b.len() > 0 {
        let x = a.drop_first();
        let y = b.drop_first();
        assert(regular_entry(a[0]) && regular_entry(b[0]));
        lemma_entry_unique(a[0], tree_bytes(x), b[0], tree_bytes(y));
        assert forall|i: int| 0 <= i < x.len() implies regular_entry(#[trigger] x[i]) by {
            assert(x[i] == a[i + 1]);
        }
        assert forall|i: int| 0 <= i < y.len() implies regular_entry(#[trigger] y[i]) by {
            assert(y[i] == b[i + 1]);
        }
        lemma_tree_bytes_unique(x, y);
        assert(a =~= seq![a[0]] + x);
        assert(b =~= seq![b[0]] + y);
    } else {
        if a.len() > 0 {
            assert(tree_bytes(a).len() > 0);
        }
        if b.len() > 0 {
            assert(tree_bytes(b).len() > 0);
        }
        assert(a =~= b);
    }
}

// ---------------------------------------------------------------------------
// Writing
// ---------------------------------------------------------------------------

/// What is given to the writer has the names, the kinds and the order of the
/// entries, and regular entries are given as they are.
pub proof fn lemma_given(es: Seq<EntryModel>)
    ensures
        regular_entries(es) ==> given(es) == es,
        regular_entries(given(es)) ==> regular_entries(es),
        ordered(es) ==> ordered(given(es)),
        clash_free(es) ==> clash_free(given(es)),
{
    let g = given(es);
    assert forall|i: int| 0 <= i < es.len() implies tree_mode(g[i].octal) == tree_mode(es[i].octal)
        && g[i].name == es[i].name && (regular_mode(g[i].octal) || regular_mode(es[i].octal)
        ==> g[i] == es[i]) by {
        let o = es[i].octal;
        if given_mode(o) != o {
            assert(given_mode(o)[1] == 52);
            assert(given_mode(o).len() == 6 && given_mode(o)[0] == 49);
        }
    }
    if regular_entries(es) {
        assert forall|i: int| 0 <= i < es.len() implies g[i] == es[i] by {
            assert(regular_entry(es[i]));
        }
        assert(g =~= es);
    }
    if regular_entries(g) {
        assert forall|i: int| 0 <= i < es.len() implies regular_entry(#[trigger] es[i]) by {
            assert(regular_entry(g[i]));
        }
    }
    if ordered(es) {
        assert forall|i: int, j: int| 0 <= i < j < g.len() implies !entry_before(
            #[trigger] g[j],
            #[trigger] g[i],
        ) by {
            assert(!entry_before(es[j], es[i]));
        }
    }
    if clash_free(es) {
        assert forall|i: int, j: int, k: int|
            0 <= i < g.len() && 0 <= j < g.len() && 0 <= k < g.len() implies !#[trigger] clash(
            g[i],
            g[j],
            g[k],
        ) by {
            assert(!clash(es[i], es[j], es[k]));
        }
    }
}

/// The entries as they are given to the writer of tree objects.
pub fn give_entries(entries: &Vec<TreeEntry>) -> (r: Vec<TreeEntry>)
    ensures
        models(r@) == given(models(entries@)),
{
    let ghost all = models(entries@);
    let mut r: Vec<TreeEntry> = Vec::new();
    let mut i: usize = 0;
    while i < entries.len()
        invariant
            i <= entries@.len(),
            r@.len() == i,
            all == models(entries@),
            forall|k: int| 0 <= k < i ==> (#[trigger] r@[k])@ == given(all)[k],
        decreases entries@.len() - i,
    {
        let e = entries[i].duplicate();
        let old_mode = e.mode.octal.as_slice();
        let zeros = old_mode.len() == 6 && old_mode[2] == 48 && old_mode[3] == 48 && old_mode[4]
            == 48 && old_mode[5] == 48;
        let mut octal = copy_bytes(old_mode);
        proof {
            let o = old_mode@;
            let plain = seq![48u8, 52u8, 48u8, 48u8, 48u8, 48u8];
            if o.len() == 6 && o[0] == 48 && o[1] == 52 && zeros {
                assert(o =~= plain);
            }
            assert(all[i as int] == entries@[i as int]@);
        }
        if octal.len() == 6 && octal[0] == 48 && octal[1] == 52 && !zeros {
            octal.set(0, 49);
        }
        assert(octal@ =~= given_mode(all[i as int].octal));
        let given_entry = TreeEntry { mode: EntryMode { octal }, filename: e.filename, oid: e.oid };
        assert(given_entry@ == given(all)[i as int]);
        r.push(given_entry);
        i += 1;
    }
    assert(models(r@) =~= given(all));
    r
}

// ---------------------------------------------------------------------------
// The order of names
// ---------------------------------------------------------------------------

/// One byte string comes before another: it ends where the other goes on, or
/// has the lower byte where they first differ.
pub open spec fn precedes(a: Seq<u8>, b: Seq<u8>) -> bool {
    exists|k: int| #[trigger] parts_at(a, b, k)
}

/// The two agree up to `k`, and there the first has ended or has the lower
/// byte.
pub open spec fn parts_at(a: Seq<u8>, b: Seq<u8>, k: int) -> bool {
    &&& 0 <= k <= a.len()
    &&& k < b.len()
    &&& forall|i: int| 0 <= i < k ==> #[trigger] a[i] == b[i]
    &&& k == a.len() || a[k] < b[k]
}

/// The name of an entry as it is ordered by: that of a directory with a `/`
/// behind it.
pub open spec fn order_name(e: EntryModel) -> Seq<u8> {
    if tree_mode(e.octal) {
        e.name + seq![47u8]
    } else {
        e.name
    }
}

proof fn lemma_lex_is_precedes(a: Seq<u8>, b: Seq<u8>)
    ensures
        lex(a, b) <==> precedes(a, b),
    decreases a.len(),
{
    if a.len() > 0 && b.len() > 0 && a[0] == b[0] {
        let x = a.drop_first();
        let y = b.drop_first();
        lemma_lex_is_precedes(x, y);
        if precedes(x, y) {
            let k = choose|k: int| #[trigger] parts_at(x, y, k);
            assert forall|i: int| 0 <= i < k + 1 implies #[trigger] a[i] == b[i] by {
                if i > 0 {
                    assert(x[i - 1] == y[i - 1]);
                }
            }
            assert(parts_at(a, b, k + 1));
        }
        if precedes(a, b) {
            let k = choose|k: int| #[trigger] parts_at(a, b, k);
            assert(k > 0);
            assert forall|i: int| 0 <= i < k - 1 implies #[trigger] x[i] == y[i] by {
                assert(a[i + 1] == b[i + 1]);
            }
            assert(parts_at(x, y, k - 1));
        }
    } else if b.len() > 0 {
        if lex(a, b) {
            assert(parts_at(a, b, 0));
        }
        if precedes(a, b) {
            let k = choose|k: int| #[trigger] parts_at(a, b, k);
            if k > 0 {
                assert(a[0] == b[0]);
            }
        }
    }
}

/// Entries are ordered by the bytes of their names, a directory as if a `/`
/// stood behind its name, as long as no name holds one.
pub proof fn lemma_order_is_by_bytes(a: EntryModel, b: EntryModel)
    requires
        position(a.name, 47) is None,
        position(b.name, 47) is None,
    ensures
        entry_before(a, b) <==> precedes(order_name(a), order_name(b)),
{
    crate::bytes::lemma_position(a.name, 47);
    crate::bytes::lemma_position(b.name, 47);
    if begins_with(b.name, a.name.push(47)) {
        let n = a.name.len() as int;
        assert(b.name.subrange(0, n + 1)[n] == a.name.push(47)[n]);
        assert(b.name[n] == 47);
    }
    if begins_with(a.name, b.name.push(47)) {
        let n = b.name.len() as int;
        assert(a.name.subrange(0, n + 1)[n] == b.name.push(47)[n]);
        assert(a.name[n] == 47);
    }
    lemma_before_is_lex(a.name, tree_mode(a.octal), b.name, tree_mode(b.octal));
    lemma_lex_is_precedes(order_name(a), order_name(b));
    assert(a.name.push(47) =~= a.name + seq![47u8]);
    assert(b.name.push(47) =~= b.name + seq![47u8]);
}

/// Directories and files are told apart by their modes, and are written with
/// those that Git uses.
pub proof fn lemma_modes()
    ensures
        directory_mode() == seq![52u8, 48u8, 48u8, 48u8, 48u8],
        file_mode() == seq![49u8, 48u8, 48u8, 54u8, 52u8, 52u8],
        tree_mode(seq![52u8, 48u8, 48u8, 48u8, 48u8]),
        tree_mode(seq![48u8, 52u8, 48u8, 48u8, 48u8, 48u8]),
        !tree_mode(seq![49u8, 48u8, 48u8, 54u8, 52u8, 52u8]),
        !tree_mode(seq![49u8, 48u8, 48u8, 55u8, 53u8, 53u8]),
        !tree_mode(seq![49u8, 50u8, 48u8, 48u8, 48u8, 48u8]),
        !tree_mode(seq![49u8, 54u8, 48u8, 48u8, 48u8, 48u8]),
        regular_mode(seq![49u8, 48u8, 48u8, 55u8, 53u8, 53u8]),
        regular_mode(seq![49u8, 50u8, 48u8, 48u8, 48u8, 48u8]),
        regular_mode(seq![49u8, 54u8, 48u8, 48u8, 48u8, 48u8]),
{
    reveal_strlit("40000");
    reveal_strlit("100644");
    vstd::utf8::is_ascii_chars_encode_utf8("40000"@);
    vstd::utf8::is_ascii_chars_encode_utf8("100644"@);
    assert(directory_mode() =~= seq![52u8, 48u8, 48u8, 48u8, 48u8]);
    assert(file_mode() =~= seq![49u8, 48u8, 48u8, 54u8, 52u8, 52u8]);
    let zeros = seq![48u8, 48u8, 48u8, 48u8, 48u8, 48u8];
    assert(seq![49u8, 48u8, 48u8, 55u8, 53u8, 53u8][0] != zeros[0]);
    assert(seq![49u8, 50u8, 48u8, 48u8, 48u8, 48u8][0] != zeros[0]);
    assert(seq![49u8, 54u8, 48u8, 48u8, 48u8, 48u8][0] != zeros[0]);
}

} // verus!
