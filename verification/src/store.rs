//! Maps and sets keyed by byte strings, and the object store made of them.
//!
//! Keys are spread over a fixed number of buckets; each bucket is a short
//! list in which no key occurs twice. What a map holds is its view.

use vstd::prelude::*;

use crate::bytes::{copy_bytes, same_bytes};

verus! {

/// The number of buckets of a map that holds something.
pub const SLOTS: usize = 1024;

/// The bucket a key belongs to.
pub open spec fn slot_of(key: Seq<u8>) -> int
    decreases key.len(),
{
    if key.len() == 0 {
        0
    } else {
        (slot_of(key.drop_last()) * 31 + key.last()) % 1024
    }
}

fn slot(key: &[u8]) -> (r: usize)
    ensures
        r == slot_of(key@),
        r < SLOTS,
{
    let mut h: usize = 0;
    let mut i: usize = 0;
    while i < key.len()
        invariant
            i <= key.len(),
            h == slot_of(key@.subrange(0, i as int)),
            h < 1024,
        decreases key.len() - i,
    {
        let ghost before = key@.subrange(0, i as int);
        h = (h * 31 + key[i] as usize) % 1024;
        i += 1;
        assert(key@.subrange(0, i as int).drop_last() =~= before);
    }
    assert(key@.subrange(0, i as int) =~= key@);
    h
}

/// The buckets of a map, with the map that they stand for.
struct Table<V> {
    buckets: Vec<Vec<(Vec<u8>, V)>>,
    model: Ghost<Map<Seq<u8>, V>>,
}

/// Where `key` stands in a bucket.
spec fn held_at<V>(bucket: Seq<(Vec<u8>, V)>, key: Seq<u8>, j: int) -> bool {
    0 <= j < bucket.len() && bucket[j].0@ == key
}

/// Place `y` of bucket `x` comes before place `j` of bucket `i`.
spec fn passed(x: int, y: int, i: int, j: int) -> bool {
    0 <= x < i || (x == i && 0 <= y < j)
}

/// `key` is held before place `j` of bucket `i`.
spec fn among<V>(t: &Table<V>, key: Seq<u8>, i: int, j: int) -> bool {
    exists|x: int, y: int| passed(x, y, i, j) && held_at(t.bucket(x), key, y)
}

/// `r` lists the keys of the places before place `j` of bucket `i`, each once.
spec fn listed<V>(t: &Table<V>, r: Seq<Vec<u8>>, i: int, j: int) -> bool {
    &&& forall|a: int| 0 <= a < r.len() ==> among(t, #[trigger] r[a]@, i, j)
    &&& forall|x: int, y: int|
        #[trigger] passed(x, y, i, j) && 0 <= y < t.bucket(x).len() ==> exists|a: int|
            0 <= a < r.len() && #[trigger] r[a]@ == t.bucket(x)[y].0@
    &&& forall|a: int, b: int| 0 <= a < b < r.len() ==> #[trigger] r[a]@ != #[trigger] r[b]@
}

/// A bucket that is listed to its end is passed.
proof fn lemma_listed_next<V>(t: &Table<V>, r: Seq<Vec<u8>>, i: int)
    requires
        0 <= i < t.buckets@.len(),
        listed(t, r, i, t.bucket(i).len() as int),
    ensures
        listed(t, r, i + 1, 0),
{
    let j = t.bucket(i).len() as int;
    assert forall|a: int| 0 <= a < r.len() implies among(t, #[trigger] r[a]@, i + 1, 0) by {
        let (x, y) = choose|x: int, y: int|
            passed(x, y, i, j) && held_at(t.bucket(x), r[a]@, y);
        assert(passed(x, y, i + 1, 0) && held_at(t.bucket(x), r[a]@, y));
    }
    assert forall|x: int, y: int|
        #[trigger] passed(x, y, i + 1, 0) && 0 <= y < t.bucket(x).len() implies exists|a: int|
        0 <= a < r.len() && #[trigger] r[a]@ == t.bucket(x)[y].0@ by {
        assert(passed(x, y, i, j));
    }
}

impl<V> Table<V> {
    spec fn bucket(self, i: int) -> Seq<(Vec<u8>, V)> {
        self.buckets@[i]@
    }

    /// Every pair of a bucket belongs there and is in the model, every key of
    /// the model is in its bucket, and no bucket holds a key twice.
    spec fn wf(self) -> bool {
        &&& self.model@.dom().finite()
        &&& self.buckets@.len() == 0 || self.buckets@.len() == SLOTS
        &&& self.buckets@.len() == 0 ==> self.model@ == Map::<Seq<u8>, V>::empty()
        &&& forall|i: int, j: int|
            #![trigger self.bucket(i)[j]]
            0 <= i < self.buckets@.len() && 0 <= j < self.bucket(i).len() ==> {
                &&& slot_of(self.bucket(i)[j].0@) == i
                &&& self.model@.contains_key(self.bucket(i)[j].0@)
                &&& self.model@[self.bucket(i)[j].0@] == self.bucket(i)[j].1
            }
        &&& forall|i: int, j: int, k: int|
            #![trigger self.bucket(i)[j], self.bucket(i)[k]]
            0 <= i < self.buckets@.len() && 0 <= j < k < self.bucket(i).len()
                ==> self.bucket(i)[j].0@ != self.bucket(i)[k].0@
        &&& forall|key: Seq<u8>| #[trigger]
            self.model@.contains_key(key) ==> exists|j: int|
                held_at(self.bucket(slot_of(key)), key, j)
    }

    fn empty() -> (r: Self)
        ensures
            r.wf(),
            r.model@ == Map::<Seq<u8>, V>::empty(),
    {
        Table { buckets: Vec::new(), model: Ghost(Map::empty()) }
    }

    fn locate(&self, key: &[u8]) -> (r: Option<(usize, usize)>)
        requires
            self.wf(),
        ensures
            match r {
                Some((i, j)) => {
                    &&& i == slot_of(key@)
                    &&& i < self.buckets@.len()
                    &&& held_at(self.bucket(i as int), key@, j as int)
                    &&& self.model@.contains_key(key@)
                },
                None => !self.model@.contains_key(key@),
            },
    {
        if self.buckets.len() == 0 {
            return None;
        }
        let i: usize = slot(key);
        let bucket = &self.buckets[i];
        let mut j: usize = 0;
        while j < bucket.len()
            invariant
                j <= bucket.len(),
                forall|k: int| 0 <= k < j ==> bucket@[k].0@ != key@,
                bucket@ == self.bucket(i as int),
                i == slot_of(key@),
                i < self.buckets@.len(),
                self.wf(),
            decreases bucket.len() - j,
        {
            if same_bytes(bucket[j].0.as_slice(), key) {
                assert(self.bucket(i as int)[j as int].0@ == key@);
                return Some((i, j));
            }
            j += 1;
        }
        None
    }

    fn get(&self, key: &[u8]) -> (r: Option<&V>)
        requires
            self.wf(),
        ensures
            match r {
                Some(v) => self.model@.contains_key(key@) && self.model@[key@] == *v,
                None => !self.model@.contains_key(key@),
            },
    {
        match self.locate(key) {
            Some((i, j)) => {
                assert(self.bucket(i as int)[j as int].0@ == key@);
                Some(&self.buckets[i][j].1)
            },
            None => None,
        }
    }

    fn keys(&self) -> (r: Vec<Vec<u8>>)
        requires
            self.wf(),
        ensures
            forall|k: int| 0 <= k < r@.len() ==> self.model@.contains_key(#[trigger] r@[k]@),
            forall|key: Seq<u8>| #[trigger]
                self.model@.contains_key(key) ==> exists|k: int|
                    0 <= k < r@.len() && #[trigger] r@[k]@ == key,
            forall|a: int, b: int|
                0 <= a < b < r@.len() ==> #[trigger] r@[a]@ != #[trigger] r@[b]@,
    {
        let mut r: Vec<Vec<u8>> = Vec::new();
        let mut i: usize = 0;
        while i < self.buckets.len()
            invariant
                i <= self.buckets.len(),
                self.wf(),
                listed(self, r@, i as int, 0),
            decreases self.buckets.len() - i,
        {
            let bucket = &self.buckets[i];
            let mut j: usize = 0;
            while j < bucket.len()
                invariant
                    j <= bucket.len(),
                    i < self.buckets.len(),
                    bucket@ == self.bucket(i as int),
                    self.wf(),
                    listed(self, r@, i as int, j as int),
                decreases bucket.len() - j,
            {
                let ghost before = r@;
                r.push(copy_bytes(bucket[j].0.as_slice()));
                proof {
                    let key = self.bucket(i as int)[j as int].0@;
                    assert(r@.last()@ == key);
                    assert forall|a: int| 0 <= a < before.len() implies #[trigger] r@[a]@ != key by {
                        assert(among(self, before[a]@, i as int, j as int));
                        let (x, y) = choose|x: int, y: int|
                            passed(x, y, i as int, j as int) && held_at(self.bucket(x), before[a]@, y);
                        assert(self.bucket(x)[y].0@ == before[a]@);
                        if x == i {
                            assert(self.bucket(x)[y].0@ != self.bucket(x)[j as int].0@);
                        }
                    }
                    assert forall|a: int| 0 <= a < r@.len() implies among(
                        self,
                        #[trigger] r@[a]@,
                        i as int,
                        j + 1,
                    ) by {
                        if a < before.len() {
                            assert(among(self, before[a]@, i as int, j as int));
                            let (x, y) = choose|x: int, y: int|
                                passed(x, y, i as int, j as int) && held_at(
                                    self.bucket(x),
                                    before[a]@,
                                    y,
                                );
                            assert(passed(x, y, i as int, j + 1) && held_at(self.bucket(x), r@[a]@, y));
                        } else {
                            assert(passed(i as int, j as int, i as int, j + 1) && held_at(
                                self.bucket(i as int),
                                r@[a]@,
                                j as int,
                            ));
                        }
                    }
                    assert forall|x: int, y: int|
                        #[trigger] passed(x, y, i as int, j + 1) && 0 <= y < self.bucket(x).len()
                        implies exists|a: int|
                        0 <= a < r@.len() && #[trigger] r@[a]@ == self.bucket(x)[y].0@ by {
                        if passed(x, y, i as int, j as int) {
                            let a = choose|a: int|
                                0 <= a < before.len() && #[trigger] before[a]@ == self.bucket(x)[y].0@;
                            assert(r@[a] == before[a]);
                        } else {
                            assert(x == i && y == j);
                            assert(r@[r@.len() - 1]@ == self.bucket(x)[y].0@);
                        }
                    }
                }
                j += 1;
            }
            proof {
                lemma_listed_next(self, r@, i as int);
            }
            i += 1;
        }
        proof {
            assert forall|a: int| 0 <= a < r@.len() implies self.model@.contains_key(
                #[trigger] r@[a]@,
            ) by {
                let (x, y) = choose|x: int, y: int|
                    passed(x, y, i as int, 0) && held_at(self.bucket(x), r@[a]@, y);
                assert(self.bucket(x)[y].0@ == r@[a]@);
            }
            assert forall|key: Seq<u8>| #[trigger]
                self.model@.contains_key(key) implies exists|a: int|
                0 <= a < r@.len() && #[trigger] r@[a]@ == key by {
                lemma_slot_range(key);
                let y = choose|y: int| held_at(self.bucket(slot_of(key)), key, y);
                assert(held_at(self.bucket(slot_of(key)), key, y));
                assert(passed(slot_of(key), y, i as int, 0));
            }
        }
        r
    }

    /// Takes `key` out.
    fn remove(&mut self, key: &[u8])
        requires
            old(self).wf(),
        ensures
            final(self).wf(),
            final(self).model@ == old(self).model@.remove(key@),
    {
        match self.locate(key) {
            Some((i, j)) => {
                let ghost before = *self;
                assert(before.bucket(i as int)[j as int].0@ == key@);
                let mut bucket: Vec<(Vec<u8>, V)> = Vec::new();
                std::mem::swap(&mut bucket, &mut self.buckets[i]);
                let _ = bucket.remove(j);
                std::mem::swap(&mut bucket, &mut self.buckets[i]);
                self.model = Ghost(self.model@.remove(key@));
                proof {
                    let after = *self;
                    assert(after.buckets@.len() == before.buckets@.len());
                    assert(after.bucket(i as int) =~= before.bucket(i as int).remove(j as int));
                    assert forall|a: int| 0 <= a < after.buckets@.len() && a != i implies #[trigger] after.bucket(
                        a,
                    ) == before.bucket(a) by {}
                    assert forall|a: int, b: int|
                        #![trigger after.bucket(a)[b]]
                        0 <= a < after.buckets@.len() && 0 <= b < after.bucket(a).len() implies {
                        &&& slot_of(after.bucket(a)[b].0@) == a
                        &&& after.model@.contains_key(after.bucket(a)[b].0@)
                        &&& after.model@[after.bucket(a)[b].0@] == after.bucket(a)[b].1
                    } by {
                        if a == i {
                            let b0 = if b < j {
                                b
                            } else {
                                b + 1
                            };
                            assert(after.bucket(a)[b] == before.bucket(a)[b0]);
                            if b0 < j {
                                assert(before.bucket(a)[b0].0@ != before.bucket(a)[j as int].0@);
                            } else {
                                assert(before.bucket(a)[j as int].0@ != before.bucket(a)[b0].0@);
                            }
                        } else {
                            assert(after.bucket(a)[b] == before.bucket(a)[b]);
                        }
                    }
                    assert forall|a: int, b: int, c: int|
                        #![trigger after.bucket(a)[b], after.bucket(a)[c]]
                        0 <= a < after.buckets@.len() && 0 <= b < c < after.bucket(a).len() implies after.bucket(
                        a,
                    )[b].0@ != after.bucket(a)[c].0@ by {
                        if a == i {
                            let b0 = if b < j {
                                b
                            } else {
                                b + 1
                            };
                            let c0 = if c < j {
                                c
                            } else {
                                c + 1
                            };
                            assert(after.bucket(a)[b] == before.bucket(a)[b0]);
                            assert(after.bucket(a)[c] == before.bucket(a)[c0]);
                        } else {
                            assert(after.bucket(a)[b] == before.bucket(a)[b]);
                            assert(after.bucket(a)[c] == before.bucket(a)[c]);
                        }
                    }
                    assert forall|k: Seq<u8>| #[trigger]
                        after.model@.contains_key(k) implies exists|b: int|
                        held_at(after.bucket(slot_of(k)), k, b) by {
                        assert(before.model@.contains_key(k));
                        let b = choose|b: int| held_at(before.bucket(slot_of(k)), k, b);
                        assert(held_at(before.bucket(slot_of(k)), k, b));
                        lemma_slot_range(k);
                        if slot_of(k) == i {
                            let b1 = if b < j {
                                b
                            } else {
                                b - 1
                            };
                            assert(b != j);
                            assert(held_at(after.bucket(slot_of(k)), k, b1));
                        } else {
                            assert(held_at(after.bucket(slot_of(k)), k, b));
                        }
                    }
                }
            },
            None => {
                assert(self.model@.remove(key@) =~= self.model@);
            },
        }
    }

    /// Puts `value` under `key`, in place of what was there.
    fn insert(&mut self, key: &[u8], value: V)
        requires
            old(self).wf(),
        ensures
            final(self).wf(),
            final(self).model@ == old(self).model@.insert(key@, value),
    {
        self.remove(key);
        if self.buckets.len() == 0 {
            let mut n: usize = 0;
            while n < SLOTS
                invariant
                    n <= SLOTS,
                    self.buckets@.len() == n,
                    self.model == old(self).model@.remove(key@),
                    self.model@ == Map::<Seq<u8>, V>::empty(),
                    forall|a: int| 0 <= a < n ==> #[trigger] self.bucket(a).len() == 0,
                decreases SLOTS - n,
            {
                let ghost prior = *self;
                self.buckets.push(Vec::new());
                n += 1;
                assert forall|a: int| 0 <= a < n implies #[trigger] self.bucket(a).len() == 0 by {
                    if a < n - 1 {
                        assert(self.bucket(a) == prior.bucket(a));
                    }
                }
            }
        }
        let ghost before = *self;
        let i: usize = slot(key);
        let mut bucket: Vec<(Vec<u8>, V)> = Vec::new();
        std::mem::swap(&mut bucket, &mut self.buckets[i]);
        bucket.push((copy_bytes(key), value));
        std::mem::swap(&mut bucket, &mut self.buckets[i]);
        self.model = Ghost(self.model@.insert(key@, value));
        proof {
            let after = *self;
            let n = before.bucket(i as int).len() as int;
            assert(after.bucket(i as int).drop_last() =~= before.bucket(i as int));
            assert(after.bucket(i as int).last().0@ == key@);
            assert forall|a: int| 0 <= a < after.buckets@.len() && a != i implies #[trigger] after.bucket(
                a,
            ) == before.bucket(a) by {}
            assert forall|a: int, b: int|
                #![trigger after.bucket(a)[b]]
                0 <= a < after.buckets@.len() && 0 <= b < after.bucket(a).len() implies {
                &&& slot_of(after.bucket(a)[b].0@) == a
                &&& after.model@.contains_key(after.bucket(a)[b].0@)
                &&& after.model@[after.bucket(a)[b].0@] == after.bucket(a)[b].1
            } by {
                if a != i || b < n {
                    assert(after.bucket(a)[b] == before.bucket(a)[b]);
                }
            }
            assert forall|a: int, b: int, c: int|
                #![trigger after.bucket(a)[b], after.bucket(a)[c]]
                0 <= a < after.buckets@.len() && 0 <= b < c < after.bucket(a).len() implies after.bucket(
                a,
            )[b].0@ != after.bucket(a)[c].0@ by {
                assert(after.bucket(a)[b] == before.bucket(a)[b]);
                if a != i || c < n {
                    assert(after.bucket(a)[c] == before.bucket(a)[c]);
                }
            }
            assert forall|k: Seq<u8>| #[trigger]
                after.model@.contains_key(k) implies exists|b: int|
                held_at(after.bucket(slot_of(k)), k, b) by {
                lemma_slot_range(k);
                if k == key@ {
                    assert(held_at(after.bucket(slot_of(k)), k, n));
                } else {
                    assert(before.model@.contains_key(k));
                    let b = choose|b: int| held_at(before.bucket(slot_of(k)), k, b);
                    assert(held_at(before.bucket(slot_of(k)), k, b));
                    assert(held_at(after.bucket(slot_of(k)), k, b));
                }
            }
            assert(after.model@ =~= old(self).model@.insert(key@, value));
        }
    }
}

proof fn lemma_slot_range(key: Seq<u8>)
    ensures
        0 <= slot_of(key) < SLOTS,
{
}

/// A map from byte strings to values.
pub struct ByteMap<V> {
    table: Table<V>,
}

impl<V> View for ByteMap<V> {
    type V = Map<Seq<u8>, V>;

    closed spec fn view(&self) -> Map<Seq<u8>, V> {
        self.table.model@
    }
}

impl<V> ByteMap<V> {
    #[verifier::type_invariant]
    spec fn inv(self) -> bool {
        self.table.wf()
    }

    /// A map that holds nothing.
    pub fn new() -> (r: Self)
        ensures
            r@ == Map::<Seq<u8>, V>::empty(),
    {
        ByteMap { table: Table::empty() }
    }

    /// What is under `key`.
    pub fn get(&self, key: &[u8]) -> (r: Option<&V>)
        ensures
            match r {
                Some(v) => self@.contains_key(key@) && self@[key@] == *v,
                None => !self@.contains_key(key@),
            },
    {
        proof {
            use_type_invariant(self);
        }
        self.table.get(key)
    }

    /// Puts `value` under `key`, in place of what was there.
    pub fn insert(&mut self, key: &[u8], value: V)
        ensures
            final(self)@ == old(self)@.insert(key@, value),
    {
        proof {
            use_type_invariant(&*self);
        }
        let mut table: Table<V> = Table::empty();
        std::mem::swap(&mut table, &mut self.table);
        table.insert(key, value);
        self.table = table;
    }

    /// Takes `key` and what is under it out.
    pub fn remove(&mut self, key: &[u8])
        ensures
            final(self)@ == old(self)@.remove(key@),
    {
        proof {
            use_type_invariant(&*self);
        }
        let mut table: Table<V> = Table::empty();
        std::mem::swap(&mut table, &mut self.table);
        table.remove(key);
        self.table = table;
    }

    /// The keys, each once.
    pub fn keys(&self) -> (r: Vec<Vec<u8>>)
        ensures
            forall|k: int| 0 <= k < r@.len() ==> self@.contains_key(#[trigger] r@[k]@),
            forall|key: Seq<u8>| #[trigger]
                self@.contains_key(key) ==> exists|k: int| 0 <= k < r@.len() && #[trigger] r@[k]@ == key,
            forall|a: int, b: int|
                0 <= a < b < r@.len() ==> #[trigger] r@[a]@ != #[trigger] r@[b]@,
    {
        proof {
            use_type_invariant(self);
        }
        self.table.keys()
    }

    /// What a map holds is finite.
    pub fn finite(&self)
        ensures
            self@.dom().finite(),
    {
        proof {
            use_type_invariant(self);
        }
    }
}

} // verus!
