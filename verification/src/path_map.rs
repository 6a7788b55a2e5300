//! What is kept under paths, in the order in which it came.

use vstd::prelude::*;

use crate::path::Components;

verus! {

/// A list of keys with what is kept under each.
pub type Slots<W> = Seq<(Seq<Seq<u8>>, W)>;

/// Where `key` stands in the list.
pub open spec fn slot_of<W>(s: Slots<W>, key: Seq<Seq<u8>>) -> Option<int>
    decreases s.len(),
{
    if s.len() == 0 {
        None
    } else if s[0].0 == key {
        Some(0)
    } else {
        match slot_of(s.drop_first(), key) {
            Some(i) => Some(i + 1),
            None => None,
        }
    }
}

/// What is kept under `key`.
pub open spec fn kept_at<W>(s: Slots<W>, key: Seq<Seq<u8>>) -> Option<W> {
    match slot_of(s, key) {
        Some(i) => Some(s[i].1),
        None => None,
    }
}

/// The list with `value` under `key`: in the place of what was there, or at
/// the end.
pub open spec fn put<W>(s: Slots<W>, key: Seq<Seq<u8>>, value: W) -> Slots<W> {
    match slot_of(s, key) {
        Some(i) => s.update(i, (key, value)),
        None => s.push((key, value)),
    }
}

/// The list with nothing under `key`.
pub open spec fn taken_out<W>(s: Slots<W>, key: Seq<Seq<u8>>) -> Slots<W> {
    match slot_of(s, key) {
        Some(i) => s.remove(i),
        None => s,
    }
}

/// No key stands in two places.
pub open spec fn distinct_keys<W>(s: Slots<W>) -> bool {
    forall|i: int, j: int| 0 <= i < j < s.len() ==> (#[trigger] s[i]).0 != (#[trigger] s[j]).0
}

/// The list as a map.
pub open spec fn as_map<W>(s: Slots<W>) -> Map<Seq<Seq<u8>>, W> {
    Map::new(
        |key: Seq<Seq<u8>>| slot_of(s, key) is Some,
        |key: Seq<Seq<u8>>| kept_at(s, key)->0,
    )
}

/// `slot_of` is a place that holds the key, the first; it is absent only where
/// no place holds it.
pub proof fn lemma_slot_of<W>(s: Slots<W>, key: Seq<Seq<u8>>)
    ensures
        match slot_of(s, key) {
            Some(i) => 0 <= i < s.len() && s[i].0 == key && forall|j: int|
                0 <= j < i ==> (#[trigger] s[j]).0 != key,
            None => forall|j: int| 0 <= j < s.len() ==> (#[trigger] s[j]).0 != key,
        },
    decreases s.len(),
{
    if s.len() > 0 && s[0].0 != key {
        let rest = s.drop_first();
        lemma_slot_of(rest, key);
        match slot_of(rest, key) {
            Some(i) => {
                assert forall|j: int| 0 <= j < i + 1 implies (#[trigger] s[j]).0 != key by {
                    if j > 0 {
                        assert(rest[j - 1] == s[j]);
                    }
                }
            },
            None => {
                assert forall|j: int| 0 <= j < s.len() implies (#[trigger] s[j]).0 != key by {
                    if j > 0 {
                        assert(rest[j - 1] == s[j]);
                    }
                }
            },
        }
    }
}

/// A place that holds a key is the slot of it, where keys are distinct.
pub proof fn lemma_slot_is<W>(s: Slots<W>, i: int)
    requires
        distinct_keys(s),
        0 <= i < s.len(),
    ensures
        slot_of(s, s[i].0) == Some(i),
{
    lemma_slot_of(s, s[i].0);
    match slot_of(s, s[i].0) {
        Some(j) => {
            if j < i {
                assert(s[j].0 != s[i].0);
            } else if i < j {
                assert(s[i].0 != s[j].0);
            }
        },
        None => {
            assert(s[i].0 != s[i].0);
        },
    }
}

/// Putting a value under a key inserts it into the map.
pub proof fn lemma_put<W>(s: Slots<W>, key: Seq<Seq<u8>>, value: W)
    requires
        distinct_keys(s),
    ensures
        distinct_keys(put(s, key, value)),
        as_map(put(s, key, value)) == as_map(s).insert(key, value),
{
    let p = put(s, key, value);
    lemma_slot_of(s, key);
    assert(distinct_keys(p)) by {
        assert forall|i: int, j: int| 0 <= i < j < p.len() implies (#[trigger] p[i]).0 != (
        #[trigger] p[j]).0 by {
            match slot_of(s, key) {
                Some(k) => {
                    assert(s[i].0 != s[j].0);
                },
                None => {
                    assert(s[i].0 != key);
                    if j < s.len() {
                        assert(s[i].0 != s[j].0);
                    }
                },
            }
        }
    }
    assert forall|k: Seq<Seq<u8>>| #[trigger] kept_at(p, k) == if k == key {
        Some(value)
    } else {
        kept_at(s, k)
    } by {
        lemma_slot_of(s, k);
        lemma_slot_of(p, k);
        if k == key {
            match slot_of(s, key) {
                Some(i) => {
                    lemma_slot_is(p, i);
                },
                None => {
                    lemma_slot_is(p, s.len() as int);
                },
            }
        } else {
            match slot_of(s, k) {
                Some(i) => {
                    assert(p[i] == s[i]);
                    lemma_slot_is(p, i);
                },
                None => {
                    match slot_of(p, k) {
                        Some(j) => {
                            if j < s.len() {
                                assert(s[j].0 != k);
                            }
                        },
                        None => {},
                    }
                },
            }
        }
    }
    lemma_maps_agree(p, as_map(s).insert(key, value));
}

proof fn lemma_maps_agree<W>(s: Slots<W>, m: Map<Seq<Seq<u8>>, W>)
    requires
        forall|k: Seq<Seq<u8>>| #[trigger]
            kept_at(s, k) == if m.contains_key(k) {
                Some(m[k])
            } else {
                None
            },
    ensures
        as_map(s) == m,
{
    assert forall|k: Seq<Seq<u8>>| #[trigger] as_map(s).contains_key(k) <==> m.contains_key(k) by {
        assert(kept_at(s, k) is Some <==> slot_of(s, k) is Some);
    }
    assert forall|k: Seq<Seq<u8>>| as_map(s).contains_key(k) implies #[trigger] as_map(s)[k]
        == m[k] by {
        assert(kept_at(s, k) is Some);
    }
    assert(as_map(s) =~= m);
}

/// What is kept after a value was put under a key.
pub proof fn lemma_kept_put<W>(s: Slots<W>, key: Seq<Seq<u8>>, value: W, other: Seq<Seq<u8>>)
    requires
        distinct_keys(s),
    ensures
        distinct_keys(put(s, key, value)),
        kept_at(put(s, key, value), other) == if other == key {
            Some(value)
        } else {
            kept_at(s, other)
        },
{
    lemma_put(s, key, value);
    let before = as_map(s);
    let after = as_map(put(s, key, value));
    assert(after.contains_key(other) == (kept_at(put(s, key, value), other) is Some));
    assert(before.contains_key(other) == (kept_at(s, other) is Some));
    if after.contains_key(other) {
        assert(after[other] == kept_at(put(s, key, value), other)->0);
    }
    if before.contains_key(other) {
        assert(before[other] == kept_at(s, other)->0);
    }
}

/// What is kept in a list and in its front.
pub proof fn lemma_kept_last<W>(s: Slots<W>, key: Seq<Seq<u8>>)
    requires
        distinct_keys(s),
        s.len() > 0,
    ensures
        distinct_keys(s.drop_last()),
        kept_at(s, key) == if s.last().0 == key {
            Some(s.last().1)
        } else {
            kept_at(s.drop_last(), key)
        },
{
    let front = s.drop_last();
    assert forall|i: int, j: int| 0 <= i < j < front.len() implies (#[trigger] front[i]).0 != (
    #[trigger] front[j]).0 by {
        assert(s[i].0 != s[j].0);
    }
    if s.last().0 == key {
        lemma_slot_is(s, s.len() - 1);
    } else {
        lemma_slot_of(s, key);
        lemma_slot_of(front, key);
        match slot_of(s, key) {
            Some(i) => {
                assert(front[i] == s[i]);
                lemma_slot_is(front, i);
            },
            None => {
                match slot_of(front, key) {
                    Some(i) => {
                        assert(s[i].0 != key);
                    },
                    None => {},
                }
            },
        }
    }
}

/// Taking a key out removes it from the map.
pub proof fn lemma_taken_out<W>(s: Slots<W>, key: Seq<Seq<u8>>)
    requires
        distinct_keys(s),
    ensures
        distinct_keys(taken_out(s, key)),
        as_map(taken_out(s, key)) == as_map(s).remove(key),
{
    let t = taken_out(s, key);
    lemma_slot_of(s, key);
    match slot_of(s, key) {
        None => {
            assert forall|k: Seq<Seq<u8>>| #[trigger] kept_at(t, k) == if as_map(s).remove(
                key,
            ).contains_key(k) {
                Some(as_map(s).remove(key)[k])
            } else {
                None
            } by {
                assert(as_map(s).contains_key(k) <==> slot_of(s, k) is Some);
            }
        },
        Some(at) => {
            assert forall|i: int, j: int| 0 <= i < j < t.len() implies (#[trigger] t[i]).0 != (
            #[trigger] t[j]).0 by {
                let x = if i < at {
                    i
                } else {
                    i + 1
                };
                let y = if j < at {
                    j
                } else {
                    j + 1
                };
                assert(t[i] == s[x] && t[j] == s[y]);
                assert(s[x].0 != s[y].0);
            }
            assert forall|k: Seq<Seq<u8>>| #[trigger] kept_at(t, k) == if as_map(s).remove(
                key,
            ).contains_key(k) {
                Some(as_map(s).remove(key)[k])
            } else {
                None
            } by {
                lemma_slot_of(s, k);
                lemma_slot_of(t, k);
                assert(as_map(s).contains_key(k) <==> slot_of(s, k) is Some);
                match slot_of(t, k) {
                    Some(j) => {
                        let y = if j < at {
                            j
                        } else {
                            j + 1
                        };
                        assert(t[j] == s[y]);
                        lemma_slot_is(s, y);
                        if k == key {
                            assert(y == at);
                        }
                    },
                    None => {
                        match slot_of(s, k) {
                            Some(i) => {
                                if k != key {
                                    let x = if i < at {
                                        i
                                    } else {
                                        i - 1
                                    };
                                    assert(t[x] == s[i]);
                                }
                            },
                            None => {},
                        }
                    },
                }
            }
        },
    }
    lemma_maps_agree(t, as_map(s).remove(key));
}

/// What is kept under paths: no path twice, and in the order in which the
/// paths came.
pub struct PathMap<T: View> {
    slots: Vec<(Components, T)>,
}

/// What the slots hold.
pub closed spec fn slot_views<T: View>(slots: Seq<(Components, T)>) -> Slots<T::V> {
    slots.map_values(|e: (Components, T)| (e.0@, e.1@))
}

impl<T: View> View for PathMap<T> {
    type V = Slots<T::V>;

    closed spec fn view(&self) -> Slots<T::V> {
        slot_views(self.slots@)
    }
}

impl<T: View> PathMap<T> {
    #[verifier::type_invariant]
    spec fn well_formed(self) -> bool {
        distinct_keys(slot_views(self.slots@))
    }

    /// Nothing yet.
    pub fn new() -> (r: Self)
        ensures
            r@ == Seq::<(Seq<Seq<u8>>, T::V)>::empty(),
    {
        let r = PathMap { slots: Vec::new() };
        assert(r@ =~= Seq::empty());
        r
    }

    /// The keys are distinct.
    pub fn keyed(&self)
        ensures
            distinct_keys(self@),
    {
        proof {
            use_type_invariant(self);
        }
    }

    /// How many paths there are.
    pub fn len(&self) -> (r: usize)
        ensures
            r == self@.len(),
    {
        self.slots.len()
    }

    /// The path in place `i`.
    pub fn key(&self, i: usize) -> (r: &Components)
        requires
            i < self@.len(),
        ensures
            r@ == self@[i as int].0,
    {
        &self.slots[i].0
    }

    /// What is kept in place `i`.
    pub fn value(&self, i: usize) -> (r: &T)
        requires
            i < self@.len(),
        ensures
            r@ == self@[i as int].1,
    {
        &self.slots[i].1
    }

    fn find(&self, key: &Components) -> (r: Option<usize>)
        ensures
            match r {
                Some(i) => slot_of(self@, key@) == Some(i as int) && i < self@.len(),
                None => slot_of(self@, key@) is None,
            },
    {
        proof {
            use_type_invariant(self);
        }
        let mut i: usize = 0;
        while i < self.slots.len()
            invariant
                i <= self@.len(),
                distinct_keys(self@),
                self@ == slot_views(self.slots@),
                forall|j: int| 0 <= j < i ==> (#[trigger] self@[j]).0 != key@,
            decreases self@.len() - i,
        {
            if self.slots[i].0.same(key) {
                proof {
                    lemma_slot_is(self@, i as int);
                }
                return Some(i);
            }
            i += 1;
        }
        proof {
            lemma_slot_of(self@, key@);
        }
        None
    }

    /// What is kept under `key`.
    pub fn get(&self, key: &Components) -> (r: Option<&T>)
        ensures
            match r {
                Some(v) => kept_at(self@, key@) == Some(v@),
                None => kept_at(self@, key@) is None,
            },
    {
        match self.find(key) {
            Some(i) => Some(&self.slots[i].1),
            None => None,
        }
    }

    /// Whether something is kept under `key`.
    pub fn contains_key(&self, key: &Components) -> (r: bool)
        ensures
            r == (kept_at(self@, key@) is Some),
    {
        self.find(key).is_some()
    }

    /// Puts `value` under `key`.
    pub fn insert(&mut self, key: &Components, value: T)
        ensures
            final(self)@ == put(old(self)@, key@, value@),
    {
        proof {
            use_type_invariant(&*self);
            lemma_put(self@, key@, value@);
        }
        let at = self.find(key);
        let fresh = key.duplicate();
        let mut slots: Vec<(Components, T)> = Vec::new();
        std::mem::swap(&mut slots, &mut self.slots);
        let ghost before = slots@;
        let ghost model = value@;
        match at {
            Some(i) => {
                slots.set(i, (fresh, value));
                assert(slot_views(slots@) =~= slot_views(before).update(i as int, (key@, model)));
            },
            None => {
                slots.push((fresh, value));
                assert(slot_views(slots@) =~= slot_views(before).push((key@, model)));
            },
        }
        self.slots = slots;
    }

    /// Takes `key` out.
    pub fn remove(&mut self, key: &Components)
        ensures
            final(self)@ == taken_out(old(self)@, key@),
    {
        proof {
            use_type_invariant(&*self);
            lemma_taken_out(self@, key@);
        }
        let at = self.find(key);
        let mut slots: Vec<(Components, T)> = Vec::new();
        std::mem::swap(&mut slots, &mut self.slots);
        let ghost before = slots@;
        if let Some(i) = at {
            slots.remove(i);
            assert(slot_views(slots@) =~= slot_views(before).remove(i as int));
        }
        self.slots = slots;
    }
}

/// The contents of files, under their paths.
pub type FileMap = PathMap<Vec<u8>>;

} // verus!
