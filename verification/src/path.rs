//! Paths in a repository: the text of a path, the components that it names,
//! and what is kept under paths.

use vstd::prelude::*;

use crate::bytes::{copy_bytes, find_byte, position, push_bytes, same_bytes, text};

verus! {

// ---------------------------------------------------------------------------
// Components
// ---------------------------------------------------------------------------

/// What a list of names is.
pub open spec fn name_views(names: Seq<Vec<u8>>) -> Seq<Seq<u8>> {
    names.map_values(|name: Vec<u8>| name@)
}

/// The pieces of a path between its slashes.
pub open spec fn pieces(raw: Seq<u8>) -> Seq<Seq<u8>>
    decreases raw.len(),
{
    match position(raw, 47) {
        Some(i) if 0 <= i < raw.len() => seq![raw.take(i)] + pieces(raw.skip(i + 1)),
        _ => seq![raw],
    }
}

/// A piece that names something: neither empty nor `.`.
pub open spec fn naming(piece: Seq<u8>) -> bool {
    piece.len() > 0 && piece != seq![46u8]
}

/// The pieces that name something.
pub open spec fn named(ps: Seq<Seq<u8>>) -> Seq<Seq<u8>>
    decreases ps.len(),
{
    if ps.len() == 0 {
        Seq::empty()
    } else if naming(ps[0]) {
        seq![ps[0]] + named(ps.drop_first())
    } else {
        named(ps.drop_first())
    }
}

/// The components of a path: its naming pieces, after `/` where the path is
/// absolute and after `.` where it begins with that.
pub open spec fn components_of(raw: Seq<u8>) -> Seq<Seq<u8>> {
    let names = named(pieces(raw));
    if raw.len() > 0 && raw[0] == 47 {
        seq![seq![47u8]] + names
    } else if pieces(raw)[0] == seq![46u8] {
        seq![seq![46u8]] + names
    } else {
        names
    }
}

/// The path `name` taken from `base` on: an absolute one replaces it.
pub open spec fn joined(base: Seq<u8>, name: Seq<u8>) -> Seq<u8> {
    if name.len() > 0 && name[0] == 47 {
        name
    } else if base.len() == 0 || base.last() == 47 {
        base + name
    } else {
        base + seq![47u8] + name
    }
}

/// A component that is a plain name: not `/`, `.` or `..`.
pub open spec fn plain_name(name: Seq<u8>) -> bool {
    name != seq![47u8] && name != seq![46u8] && name != seq![46u8, 46u8]
}

/// The last component, where it is a plain name.
pub open spec fn file_name_of(parts: Seq<Seq<u8>>) -> Option<Seq<u8>> {
    if parts.len() > 0 && plain_name(parts.last()) {
        Some(parts.last())
    } else {
        None
    }
}

/// All components but the last.
pub open spec fn parent_of(parts: Seq<Seq<u8>>) -> Seq<Seq<u8>> {
    if parts.len() == 0 {
        parts
    } else {
        parts.drop_last()
    }
}

/// The components of `path` begin with those of `prefix`.
pub open spec fn under(path: Seq<Seq<u8>>, prefix: Seq<Seq<u8>>) -> bool {
    prefix.len() <= path.len() && path.take(prefix.len() as int) == prefix
}

/// The components of `rest` taken from `base` on.
pub open spec fn parts_joined(base: Seq<Seq<u8>>, rest: Seq<Seq<u8>>) -> Seq<Seq<u8>> {
    if rest.len() > 0 && rest[0] == seq![47u8] {
        rest
    } else if base.len() > 0 && rest.len() > 0 && rest[0] == seq![46u8] {
        base + rest.drop_first()
    } else {
        base + rest
    }
}

/// Where the last dot of a name stands, unless the name is all that follows
/// it.
pub open spec fn last_dot(name: Seq<u8>) -> Option<int>
    decreases name.len(),
{
    if name.len() <= 1 {
        None
    } else if name.last() == 46 {
        Some(name.len() - 1)
    } else {
        last_dot(name.drop_last())
    }
}

/// What follows the last dot of the file name, where a stem stands before it.
pub open spec fn extension_of(parts: Seq<Seq<u8>>) -> Option<Seq<u8>> {
    match file_name_of(parts) {
        Some(name) => match last_dot(name) {
            Some(i) => Some(name.skip(i + 1)),
            None => None,
        },
        None => None,
    }
}

// ---------------------------------------------------------------------------
// Lists of components
// ---------------------------------------------------------------------------

/// A path as the list of its components.
pub struct Components {
    pub names: Vec<Vec<u8>>,
}

impl View for Components {
    type V = Seq<Seq<u8>>;

    open spec fn view(&self) -> Seq<Seq<u8>> {
        name_views(self.names@)
    }
}

impl Components {
    /// The path of the root directory: no components.
    pub fn empty() -> (r: Components)
        ensures
            r@ == Seq::<Seq<u8>>::empty(),
    {
        let r = Components { names: Vec::new() };
        assert(r@ =~= Seq::empty());
        r
    }

    /// How many components there are.
    pub fn len(&self) -> (r: usize)
        ensures
            r == self@.len(),
    {
        self.names.len()
    }

    /// The component at `i`.
    pub fn name(&self, i: usize) -> (r: &Vec<u8>)
        requires
            i < self@.len(),
        ensures
            r@ == self@[i as int],
    {
        &self.names[i]
    }

    /// The components with one more.
    pub fn push(&mut self, name: &[u8])
        ensures
            final(self)@ == old(self)@.push(name@),
    {
        self.names.push(copy_bytes(name));
        assert(self@ =~= old(self)@.push(name@));
    }

    /// The components from `from` up to `to`.
    pub fn part(&self, from: usize, to: usize) -> (r: Components)
        requires
            from <= to <= self@.len(),
        ensures
            r@ == self@.subrange(from as int, to as int),
    {
        let mut r = Components::empty();
        let mut i: usize = from;
        assert(self@.subrange(from as int, from as int) =~= Seq::empty());
        while i < to
            invariant
                from <= i <= to <= self@.len(),
                r@ == self@.subrange(from as int, i as int),
            decreases to - i,
        {
            r.push(self.name(i).as_slice());
            i += 1;
            assert(self@.subrange(from as int, i as int) =~= self@.subrange(
                from as int,
                i - 1,
            ).push(self@[i - 1]));
        }
        r
    }

    /// A copy.
    pub fn duplicate(&self) -> (r: Components)
        ensures
            r@ == self@,
    {
        let r = self.part(0, self.len());
        assert(self@.subrange(0, self@.len() as int) =~= self@);
        r
    }

    /// Whether these begin with the components of `prefix`.
    pub fn starts_with(&self, prefix: &Components) -> (r: bool)
        ensures
            r == under(self@, prefix@),
    {
        if prefix.len() > self.len() {
            return false;
        }
        let mut i: usize = 0;
        while i < prefix.len()
            invariant
                i <= prefix@.len() <= self@.len(),
                forall|j: int| 0 <= j < i ==> self@[j] == prefix@[j],
            decreases prefix@.len() - i,
        {
            if !same_bytes(self.name(i).as_slice(), prefix.name(i).as_slice()) {
                assert(self@.take(prefix@.len() as int)[i as int] != prefix@[i as int]);
                return false;
            }
            i += 1;
        }
        assert(self@.take(prefix@.len() as int) =~= prefix@);
        true
    }

    /// Whether two lists of components are the same.
    pub fn same(&self, other: &Components) -> (r: bool)
        ensures
            r == (self@ == other@),
    {
        if self.len() != other.len() {
            return false;
        }
        let r = self.starts_with(other);
        assert(self@.take(other@.len() as int) =~= self@);
        r
    }

    /// All components but the last.
    pub fn parent(&self) -> (r: Components)
        ensures
            r@ == parent_of(self@),
    {
        if self.len() == 0 {
            return self.duplicate();
        }
        let r = self.part(0, self.len() - 1);
        assert(r@ =~= self@.drop_last());
        r
    }

    /// The last component, where it is a plain name.
    pub fn file_name(&self) -> (r: Option<&Vec<u8>>)
        ensures
            match r {
                Some(name) => file_name_of(self@) == Some(name@),
                None => file_name_of(self@) is None,
            },
    {
        if self.len() == 0 {
            return None;
        }
        let last = self.name(self.len() - 1);
        if is_plain_name(last.as_slice()) {
            Some(last)
        } else {
            None
        }
    }

    /// The components of `rest` taken from these on.
    pub fn join(&self, rest: &Components) -> (r: Components)
        ensures
            r@ == parts_joined(self@, rest@),
    {
        let lead: u8 = if rest.len() > 0 && rest.name(0).len() == 1 {
            rest.name(0)[0]
        } else {
            0
        };
        proof {
            if rest@.len() > 0 {
                let first = rest@[0];
                assert(first.len() == 1 && first[0] == 47 ==> first =~= seq![47u8]);
                assert(first.len() == 1 && first[0] == 46 ==> first =~= seq![46u8]);
            }
        }
        if lead == 47 {
            return rest.duplicate();
        }
        let mut r = self.duplicate();
        let mut i: usize = if lead == 46 && self.len() > 0 {
            1
        } else {
            0
        };
        let ghost first = i as int;
        assert(r@ =~= self@ + rest@.subrange(first, first));
        while i < rest.len()
            invariant
                0 <= first <= i <= rest@.len(),
                r@ == self@ + rest@.subrange(first, i as int),
            decreases rest@.len() - i,
        {
            r.push(rest.name(i).as_slice());
            i += 1;
            assert(r@ =~= self@ + rest@.subrange(first, i as int));
        }
        assert(rest@.subrange(0, rest@.len() as int) =~= rest@);
        assert(first == 1 ==> rest@.subrange(1, rest@.len() as int) =~= rest@.drop_first());
        r
    }
}

fn is_plain_name(name: &[u8]) -> (r: bool)
    ensures
        r == plain_name(name@),
{
    proof {
        if name@.len() == 1 {
            assert(name@[0] == 47 ==> name@ =~= seq![47u8]);
            assert(name@[0] == 46 ==> name@ =~= seq![46u8]);
        }
        if name@.len() == 2 && name@[0] == 46 && name@[1] == 46 {
            assert(name@ =~= seq![46u8, 46u8]);
        }
    }
    if name.len() == 1 {
        name[0] != 47 && name[0] != 46
    } else if name.len() == 2 {
        !(name[0] == 46 && name[1] == 46)
    } else {
        true
    }
}

// ---------------------------------------------------------------------------
// Paths
// ---------------------------------------------------------------------------

/// The text of a path. Its components say what it leads to.
pub struct RepoPath {
    pub raw: Vec<u8>,
}

impl View for RepoPath {
    type V = Seq<u8>;

    open spec fn view(&self) -> Seq<u8> {
        self.raw@
    }
}

impl RepoPath {
    /// The path with these bytes.
    pub fn from_bytes(raw: &[u8]) -> (r: RepoPath)
        ensures
            r@ == raw@,
    {
        RepoPath { raw: copy_bytes(raw) }
    }

    /// The path with this text.
    pub fn new(raw: &str) -> (r: RepoPath)
        ensures
            r@ == text(raw),
    {
        RepoPath::from_bytes(raw.as_bytes())
    }

    /// A copy.
    pub fn duplicate(&self) -> (r: RepoPath)
        ensures
            r@ == self@,
    {
        RepoPath::from_bytes(self.raw.as_slice())
    }

    /// Whether the path is the root directory: no text, and so no components.
    pub fn is_empty(&self) -> (r: bool)
        ensures
            r == (self@.len() == 0),
            r == (components_of(self@).len() == 0),
    {
        proof {
            lemma_no_components(self@);
        }
        self.raw.len() == 0
    }

    /// The path `name` taken from this one on.
    pub fn join(&self, name: &[u8]) -> (r: RepoPath)
        ensures
            r@ == joined(self@, name@),
    {
        if name.len() > 0 && name[0] == 47 {
            return RepoPath::from_bytes(name);
        }
        let mut raw = copy_bytes(self.raw.as_slice());
        if raw.len() > 0 && raw[raw.len() - 1] != 47 {
            raw.push(47);
        }
        push_bytes(&mut raw, name);
        assert(raw@ =~= joined(self@, name@));
        RepoPath { raw }
    }

    /// The components of the path.
    pub fn components(&self) -> (r: Components)
        ensures
            r@ == components_of(self@),
    {
        let raw = self.raw.as_slice();
        let mut r = Components::empty();
        let ghost all = named(pieces(raw@));
        let mut start: usize = 0;
        assert(raw@.skip(0) =~= raw@);
        let mut done = false;
        let ghost mut head: Seq<Seq<u8>> = Seq::empty();
        if raw.len() > 0 && raw[0] == 47 {
            r.push(&raw[0..1]);
            proof {
                head = seq![seq![47u8]];
                assert(raw@.subrange(0, 1) =~= seq![47u8]);
            }
        } else if raw.len() > 0 && raw[0] == 46 && (raw.len() == 1 || raw[1] == 47) {
            r.push(&raw[0..1]);
            proof {
                head = seq![seq![46u8]];
                assert(raw@.subrange(0, 1) =~= seq![46u8]);
                lemma_first_piece(raw@);
            }
        } else {
            proof {
                lemma_first_piece(raw@);
            }
        }
        assert(r@ =~= head);
        assert(components_of(raw@) == head + all) by {
            lemma_first_piece(raw@);
            assert(Seq::<Seq<u8>>::empty() + all =~= all);
        }
        assert(r@ + named(pieces(raw@.skip(0))) =~= head + all);
        while !done
            invariant
                start <= raw@.len(),
                done ==> r@ == head + all,
                !done ==> r@ + named(pieces(raw@.skip(start as int))) == head + all,
            decreases (if done { 0int } else { raw@.len() - start + 1 }),
        {
            let ghost rest = raw@.skip(start as int);
            let ghost before = r@;
            let tail = &raw[start..raw.len()];
            assert(tail@ =~= rest);
            match find_byte(tail, 47) {
                Some(i) => {
                    let piece = &tail[0..i];
                    assert(piece@ =~= rest.take(i as int));
                    assert(rest.skip(i + 1) =~= raw@.skip(start + i + 1));
                    assert(pieces(rest).drop_first() =~= pieces(rest.skip(i + 1)));
                    if is_naming(piece) {
                        r.push(piece);
                        assert(before + named(pieces(rest)) =~= r@ + named(
                            pieces(rest.skip(i + 1)),
                        ));
                    }
                    start = start + i + 1;
                },
                None => {
                    assert(pieces(rest).drop_first() =~= Seq::empty());
                    assert(named(Seq::<Seq<u8>>::empty()) =~= Seq::empty());
                    if is_naming(tail) {
                        r.push(tail);
                    }
                    assert(before + named(pieces(rest)) =~= r@);
                    done = true;
                },
            }
        }
        r
    }
}

fn is_naming(piece: &[u8]) -> (r: bool)
    ensures
        r == naming(piece@),
{
    assert(piece@.len() == 1 && piece@[0] == 46 ==> piece@ =~= seq![46u8]);
    piece.len() > 0 && !(piece.len() == 1 && piece[0] == 46)
}

proof fn lemma_first_piece(raw: Seq<u8>)
    ensures
        (pieces(raw)[0] == seq![46u8]) == (raw.len() > 0 && raw[0] == 46 && (raw.len() == 1
            || raw[1] == 47)),
{
    crate::bytes::lemma_position(raw, 47);
    if raw.len() > 0 && raw[0] == 46 && raw.len() > 1 && raw[1] == 47 {
        crate::bytes::lemma_position_is(raw, 47, 1);
        assert(raw.take(1) =~= seq![46u8]);
    } else if raw.len() == 1 && raw[0] == 46 {
        assert(raw =~= seq![46u8]);
    } else {
        match position(raw, 47) {
            Some(i) => {
                if raw.take(i) == seq![46u8] {
                    assert(raw.take(i).len() == 1);
                    assert(raw.take(i)[0] == 46);
                }
            },
            None => {},
        }
    }
}

/// Only the empty path has no components.
pub proof fn lemma_no_components(raw: Seq<u8>)
    ensures
        (components_of(raw).len() == 0) == (raw.len() == 0),
{
    crate::bytes::lemma_position(raw, 47);
    if raw.len() == 0 {
        assert(pieces(raw) =~= seq![raw]);
        assert(pieces(raw).drop_first() =~= Seq::empty());
        assert(named(Seq::<Seq<u8>>::empty()) =~= Seq::empty());
    } else if raw[0] != 47 && pieces(raw)[0] != seq![46u8] {
        match position(raw, 47) {
            Some(i) => {
                assert(i > 0);
                assert(raw.take(i).len() == i);
            },
            None => {},
        }
        assert(naming(pieces(raw)[0]));
    }
}

/// A path that is one plain name has that name as its only component.
pub proof fn lemma_single_component(name: Seq<u8>)
    requires
        name.len() > 0,
        position(name, 47) is None,
        name != seq![46u8],
    ensures
        components_of(name) == seq![name],
{
    crate::bytes::lemma_position(name, 47);
    assert(pieces(name) =~= seq![name]);
    assert(pieces(name).drop_first() =~= Seq::empty());
    assert(named(Seq::<Seq<u8>>::empty()) =~= Seq::empty());
    assert(named(pieces(name)) =~= seq![name]);
}

proof fn lemma_pieces_joined(base: Seq<u8>, name: Seq<u8>)
    requires
        position(name, 47) is None,
    ensures
        pieces(base + seq![47u8] + name) == pieces(base).push(name),
    decreases base.len(),
{
    let whole = base + seq![47u8] + name;
    crate::bytes::lemma_position(base, 47);
    match position(base, 47) {
        Some(i) => {
            crate::bytes::lemma_position_is(whole, 47, i);
            assert(whole.take(i) =~= base.take(i));
            let rest = base.skip(i + 1);
            assert(whole.skip(i + 1) =~= rest + seq![47u8] + name);
            lemma_pieces_joined(rest, name);
            assert(pieces(whole) =~= pieces(base).push(name));
        },
        None => {
            crate::bytes::lemma_position_is(whole, 47, base.len() as int);
            assert(whole.take(base.len() as int) =~= base);
            assert(whole.skip(base.len() as int + 1) =~= name);
            assert(pieces(name) =~= seq![name]);
            assert(pieces(whole) =~= pieces(base).push(name));
        },
    }
}

proof fn lemma_named_pushed(ps: Seq<Seq<u8>>, name: Seq<u8>)
    requires
        naming(name),
    ensures
        named(ps.push(name)) == named(ps).push(name),
    decreases ps.len(),
{
    let more = ps.push(name);
    if ps.len() == 0 {
        assert(more.drop_first() =~= Seq::empty());
        assert(named(Seq::<Seq<u8>>::empty()) =~= Seq::empty());
        assert(named(more) =~= named(ps).push(name));
    } else {
        assert(more.drop_first() =~= ps.drop_first().push(name));
        lemma_named_pushed(ps.drop_first(), name);
        assert(named(more) =~= named(ps).push(name));
    }
}

proof fn lemma_named_unnaming(ps: Seq<Seq<u8>>, piece: Seq<u8>)
    requires
        !naming(piece),
    ensures
        named(ps.push(piece)) == named(ps),
    decreases ps.len(),
{
    let more = ps.push(piece);
    if ps.len() == 0 {
        assert(more.drop_first() =~= ps);
    } else {
        assert(more.drop_first() =~= ps.drop_first().push(piece));
        lemma_named_unnaming(ps.drop_first(), piece);
    }
}

/// A name taken from a path on is one component more.
pub proof fn lemma_joined_components(base: Seq<u8>, name: Seq<u8>)
    requires
        naming(name),
        position(name, 47) is None,
    ensures
        components_of(joined(base, name)) == components_of(base).push(name),
        joined(base, name).len() > 0,
        joined(base, name).last() != 47,
{
    crate::bytes::lemma_position(name, 47);
    let whole = joined(base, name);
    assert(whole.last() == name.last());
    if base.len() == 0 {
        lemma_single_component(name);
        lemma_no_components(base);
        assert(whole =~= name);
        assert(components_of(whole) =~= components_of(base).push(name));
    } else {
        let none = Seq::<u8>::empty();
        let front = if base.last() == 47 {
            base.drop_last()
        } else {
            base
        };
        assert(whole =~= front + seq![47u8] + name);
        lemma_pieces_joined(front, name);
        lemma_named_pushed(pieces(front), name);
        if base.last() == 47 {
            assert(base =~= front + seq![47u8] + none);
            lemma_pieces_joined(front, none);
            lemma_named_unnaming(pieces(front), none);
        }
        assert(pieces(front).len() > 0);
        assert(whole[0] == base[0]);
        assert(pieces(whole)[0] == pieces(base)[0]);
        assert(components_of(whole) =~= components_of(base).push(name));
    }
}

} // verus!
