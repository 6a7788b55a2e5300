//! Object ids, and what is kept under them.

use vstd::prelude::*;

use crate::bytes::{copy_bytes, same_bytes};
use crate::store::ByteMap;

verus! {

/// The number of bytes of an object id.
pub const OID_LEN: usize = 20;

/// The SHA-1 id of a Git object.
#[derive(Clone, Copy, PartialEq, Eq, Debug)]
pub struct ObjectId {
    pub bytes: [u8; 20],
}

impl View for ObjectId {
    type V = Seq<u8>;

    open spec fn view(&self) -> Seq<u8> {
        self.bytes@
    }
}

impl ObjectId {
    /// The id that these twenty bytes are.
    pub fn from_bytes(b: &[u8]) -> (r: ObjectId)
        requires
            b@.len() == 20,
        ensures
            r@ == b@,
    {
        let bytes: [u8; 20] = [
            b[0], b[1], b[2], b[3], b[4], b[5], b[6], b[7], b[8], b[9],
            b[10], b[11], b[12], b[13], b[14], b[15], b[16], b[17], b[18], b[19],
        ];
        assert(bytes@ =~= b@);
        ObjectId { bytes }
    }

    /// The bytes of the id.
    pub fn as_bytes(&self) -> (r: &[u8])
        ensures
            r@ == self@,
            r@.len() == 20,
    {
        self.bytes.as_slice()
    }

    /// Whether two ids are the same.
    pub fn same(&self, other: &ObjectId) -> (r: bool)
        ensures
            r == (self@ == other@),
    {
        same_bytes(self.as_bytes(), other.as_bytes())
    }
}

/// The contents of objects, under their ids.
pub struct ObjectMap {
    map: ByteMap<Vec<u8>>,
}

impl View for ObjectMap {
    type V = Map<Seq<u8>, Seq<u8>>;

    closed spec fn view(&self) -> Map<Seq<u8>, Seq<u8>> {
        self.map@.map_values(|v: Vec<u8>| v@)
    }
}

impl ObjectMap {
    /// A map without objects.
    pub fn new() -> (r: ObjectMap)
        ensures
            r@ == Map::<Seq<u8>, Seq<u8>>::empty(),
    {
        let r = ObjectMap { map: ByteMap::new() };
        assert(r@ =~= Map::<Seq<u8>, Seq<u8>>::empty());
        r
    }

    /// The content of object `id`.
    pub fn get(&self, id: &ObjectId) -> (r: Option<&Vec<u8>>)
        ensures
            match r {
                Some(data) => self@.contains_key(id@) && self@[id@] == data@,
                None => !self@.contains_key(id@),
            },
    {
        self.map.get(id.as_bytes())
    }

    /// Whether object `id` is there.
    pub fn contains(&self, id: &ObjectId) -> (r: bool)
        ensures
            r == self@.contains_key(id@),
    {
        self.get(id).is_some()
    }

    /// Puts `data` under `id`, in place of what was there.
    pub fn insert(&mut self, id: &ObjectId, data: Vec<u8>)
        ensures
            final(self)@ == old(self)@.insert(id@, data@),
    {
        self.map.insert(id.as_bytes(), data);
        assert(self@ =~= old(self)@.insert(id@, data@));
    }

    /// What a map holds is finite.
    pub fn finite(&self)
        ensures
            self@.dom().finite(),
    {
        self.map.finite();
        assert(self@.dom() =~= self.map@.dom());
    }

    /// A copy of the map.
    pub fn duplicate(&self) -> (r: ObjectMap)
        ensures
            r@ == self@,
    {
        let mut r = ObjectMap::new();
        r.extend(self);
        assert(r@ =~= self@);
        r
    }

    /// Puts the objects of `other` in, in place of those under the same ids.
    pub fn extend(&mut self, other: &ObjectMap)
        ensures
            final(self)@ == old(self)@.union_prefer_right(other@),
    {
        let keys = other.map.keys();
        let mut i: usize = 0;
        while i < keys.len()
            invariant
                i <= keys.len(),
                forall|k: int| 0 <= k < keys@.len() ==> other.map@.contains_key(#[trigger] keys@[k]@),
                forall|id: Seq<u8>| #[trigger]
                    self@.contains_key(id) <==> old(self)@.contains_key(id) || exists|k: int|
                        0 <= k < i && #[trigger] keys@[k]@ == id,
                forall|id: Seq<u8>| #[trigger]
                    self@.contains_key(id) ==> (if exists|k: int|
                        0 <= k < i && #[trigger] keys@[k]@ == id {
                        self@[id] == other@[id]
                    } else {
                        self@[id] == old(self)@[id]
                    }),
            decreases keys.len() - i,
        {
            let ghost before = *self;
            let key = keys[i].as_slice();
            if let Some(data) = other.map.get(key) {
                let copy = copy_bytes(data.as_slice());
                self.map.insert(key, copy);
                proof {
                    assert(self@ =~= before@.insert(key@, copy@));
                    assert(other@[key@] == copy@);
                    assert forall|id: Seq<u8>| #[trigger]
                        self@.contains_key(id) <==> old(self)@.contains_key(id) || exists|k: int|
                            0 <= k < i + 1 && #[trigger] keys@[k]@ == id by {
                        if id == key@ {
                            assert(keys@[i as int]@ == id);
                        } else {
                            assert(self@.contains_key(id) == before@.contains_key(id));
                        }
                    }
                    assert forall|id: Seq<u8>| #[trigger] self@.contains_key(id) implies (if exists|
                        k: int,
                    |
                        0 <= k < i + 1 && #[trigger] keys@[k]@ == id {
                        self@[id] == other@[id]
                    } else {
                        self@[id] == old(self)@[id]
                    }) by {
                        if id == key@ {
                        } else {
                            assert(before@.contains_key(id));
                            assert(self@[id] == before@[id]);
                            assert((exists|k: int| 0 <= k < i + 1 && #[trigger] keys@[k]@ == id) == (
                            exists|k: int| 0 <= k < i && #[trigger] keys@[k]@ == id));
                        }
                    }
                }
            }
            i += 1;
        }
        proof {
            assert forall|id: Seq<u8>| #[trigger] other@.contains_key(id) implies exists|k: int|
                0 <= k < keys@.len() && #[trigger] keys@[k]@ == id by {
                assert(other.map@.contains_key(id));
            }
            assert forall|id: Seq<u8>| #[trigger]
                self@.contains_key(id) <==> old(self)@.contains_key(id) || other@.contains_key(
                    id,
                ) by {
                if exists|k: int| 0 <= k < i && #[trigger] keys@[k]@ == id {
                    assert(other.map@.contains_key(id));
                    assert(other@.contains_key(id));
                }
            }
            assert(self@ =~= old(self)@.union_prefer_right(other@));
        }
    }

    /// Keeps the objects whose ids are in `needed`.
    pub fn retain(&mut self, needed: &OidSet)
        ensures
            final(self)@ == old(self)@.restrict(needed@),
    {
        let keys = self.map.keys();
        let mut i: usize = 0;
        while i < keys.len()
            invariant
                i <= keys.len(),
                forall|id: Seq<u8>| #[trigger]
                    self@.contains_key(id) <==> old(self)@.contains_key(id) && (needed@.contains(id)
                        || !exists|k: int| 0 <= k < i && #[trigger] keys@[k]@ == id),
                forall|id: Seq<u8>| #[trigger]
                    self@.contains_key(id) ==> self@[id] == old(self)@[id],
            decreases keys.len() - i,
        {
            let ghost before = *self;
            let key = keys[i].as_slice();
            if !needed.has_bytes(key) {
                self.map.remove(key);
                assert(self@ =~= before@.remove(key@));
            }
            assert forall|id: Seq<u8>| #[trigger]
                self@.contains_key(id) <==> old(self)@.contains_key(id) && (needed@.contains(id)
                    || !exists|k: int| 0 <= k < i + 1 && #[trigger] keys@[k]@ == id) by {
                if id == key@ {
                    assert(keys@[i as int]@ == id);
                } else {
                    assert(self@.contains_key(id) == before@.contains_key(id));
                    assert((exists|k: int| 0 <= k < i + 1 && #[trigger] keys@[k]@ == id) == (exists|
                        k: int,
                    |
                        0 <= k < i && #[trigger] keys@[k]@ == id));
                }
            }
            i += 1;
        }
        proof {
            assert forall|id: Seq<u8>| #[trigger] old(self)@.contains_key(id) implies exists|k: int|
                0 <= k < keys@.len() && #[trigger] keys@[k]@ == id by {
                assert(old(self).map@.contains_key(id));
            }
            assert(self@ =~= old(self)@.restrict(needed@));
        }
    }
}

/// A set of object ids.
pub struct OidSet {
    map: ByteMap<()>,
}

impl View for OidSet {
    type V = Set<Seq<u8>>;

    closed spec fn view(&self) -> Set<Seq<u8>> {
        self.map@.dom()
    }
}

impl OidSet {
    /// The empty set.
    pub fn new() -> (r: OidSet)
        ensures
            r@ == Set::<Seq<u8>>::empty(),
    {
        let r = OidSet { map: ByteMap::new() };
        assert(r@ =~= Set::<Seq<u8>>::empty());
        r
    }

    /// Whether `id` is in the set.
    pub fn contains(&self, id: &ObjectId) -> (r: bool)
        ensures
            r == self@.contains(id@),
    {
        self.has_bytes(id.as_bytes())
    }

    fn has_bytes(&self, id: &[u8]) -> (r: bool)
        ensures
            r == self@.contains(id@),
    {
        self.map.get(id).is_some()
    }

    /// Puts `id` in, and says whether it was missing.
    pub fn insert(&mut self, id: &ObjectId) -> (r: bool)
        ensures
            r == !old(self)@.contains(id@),
            final(self)@ == old(self)@.insert(id@),
    {
        let fresh = !self.contains(id);
        self.map.insert(id.as_bytes(), ());
        assert(self@ =~= old(self)@.insert(id@));
        fresh
    }

    /// A set that was built is finite.
    pub fn finite(&self)
        ensures
            self@.finite(),
    {
        self.map.finite();
    }
}

} // verus!
