//! How the objects of a pack are read: plain ones, and those that deltas make
//! of others.

use vstd::prelude::*;

use crate::bytes::{decimal, text};
use crate::git::deltas::{lemma_number_read, number_value, whole_number};
use crate::git::packfile::{
    BaseModel, OBJ_BLOB, OBJ_COMMIT, OBJ_OFS_DELTA, OBJ_REF_DELTA, OBJ_TREE, PackError, PackState,
    back_distance, base_of, be32, be32_bytes, delta_applied, group_room, groups, object_id,
    pack_body, pack_bytes, pack_header, pack_start, plain_kind, pow128, size_type, size_type_bytes,
    unpacked, word,
};
use crate::outside::{sha1_of, zlib_deflated, zlib_inflated};

verus! {

// ---------------------------------------------------------------------------
// Headers
// ---------------------------------------------------------------------------

/// The header of an object of this type: three bits of the first byte tell the
/// type and four the lowest part of the size; where its high bit is set, the
/// rest of the size follows as a number.
pub open spec fn object_header(h: Seq<u8>, kind: u8) -> bool {
    &&& h.len() > 0
    &&& (h[0] / 16) % 8 == kind
    &&& h[0] < 128 ==> h.len() == 1
    &&& h[0] >= 128 ==> whole_number(h.drop_first()) && 7 * (h.len() - 1) <= usize::BITS + 2
}

/// The size that a header tells.
pub open spec fn header_size(h: Seq<u8>) -> int {
    (h[0] % 16) as int + 16 * number_value(h.drop_first())
}

/// A header is read where it stands: type, size, and where it ends.
pub proof fn lemma_header_read(before: Seq<u8>, h: Seq<u8>, behind: Seq<u8>, kind: u8)
    requires
        object_header(h, kind),
    ensures
        size_type(before + h + behind, before.len() as int) matches Ok((k, size, end)) && k == kind
            && end == before.len() + h.len() && (header_size(h) <= usize::MAX ==> size
            == header_size(h)),
{
    let all = before + h + behind;
    let at = before.len() as int;
    assert(all[at] == h[0]);
    let rest = h.drop_first();
    if h[0] >= 128 {
        assert(before.push(h[0]) + rest + behind =~= all);
        lemma_number_read(before.push(h[0]), rest, behind, group_room(4));
        if header_size(h) <= usize::MAX {
            vstd::arithmetic::div_mod::lemma_small_mod(header_size(h) as nat, word() as nat);
        }
    } else {
        assert(rest =~= Seq::empty());
        assert(number_value(rest) == 0);
    }
}

/// The stream unpacks to this content, whatever follows it.
pub open spec fn inflates(z: Seq<u8>, content: Seq<u8>) -> bool {
    forall|more: Seq<u8>| #[trigger] zlib_inflated(z + more) == Some((content, z.len()))
}

// ---------------------------------------------------------------------------
// Single objects
// ---------------------------------------------------------------------------

/// An object was taken in: it is there under its id, its type is known, and so
/// is where it stands; all other objects are as they were.
pub open spec fn takes_in(
    st: PackState,
    next: PackState,
    kind: u8,
    content: Seq<u8>,
    start: int,
    end: int,
) -> bool {
    let oid = object_id(kind, content);
    &&& next.pos == end
    &&& next.objects.contains_key(oid) && next.objects[oid] == content
    &&& next.kinds.contains_key(oid) && next.kinds[oid] == kind
    &&& next.offsets.contains_key(start as usize) && next.offsets[start as usize] == oid
    &&& next.deferred == st.deferred
    &&& forall|k: Seq<u8>|
        k != oid ==> (#[trigger] next.objects.contains_key(k) <==> st.objects.contains_key(k))
            && next.objects[k] == st.objects[k]
    &&& forall|k: Seq<u8>|
        k != oid ==> (#[trigger] next.kinds.contains_key(k) <==> st.kinds.contains_key(k))
            && next.kinds[k] == st.kinds[k]
    &&& forall|at: usize|
        at != start as usize ==> (#[trigger] next.offsets.contains_key(at)
            <==> st.offsets.contains_key(at)) && next.offsets[at] == st.offsets[at]
}

/// A commit, a tree or a file in a pack is taken in with its content.
pub proof fn lemma_plain_object_read(
    st: PackState,
    before: Seq<u8>,
    h: Seq<u8>,
    z: Seq<u8>,
    behind: Seq<u8>,
    kind: u8,
    content: Seq<u8>,
)
    requires
        st.pos == before.len(),
        plain_kind(kind),
        object_header(h, kind),
        inflates(z, content),
    ensures
        st.next(before + h + z + behind) matches Ok(next) && takes_in(
            st,
            next,
            kind,
            content,
            before.len() as int,
            (before.len() + h.len() + z.len()) as int,
        ),
{
    let data = before + h + z + behind;
    assert(data =~= before + h + (z + behind));
    lemma_header_read(before, h, z + behind, kind);
    assert(data.skip((before.len() + h.len()) as int) =~= z + behind);
}

/// The distance that these bytes stand for: seven bits each, the highest
/// first, and one added ahead of each byte but the first.
pub open spec fn distance_value(d: Seq<u8>) -> int
    decreases d.len(),
{
    if d.len() == 0 {
        0
    } else if d.len() == 1 {
        (d[0] % 128) as int
    } else {
        128 * (distance_value(d.drop_last()) + 1) + d.last() % 128
    }
}

spec fn counted(high: int, d: Seq<u8>) -> int
    decreases d.len(),
{
    if d.len() == 0 {
        high
    } else if d.len() == 1 {
        high * 128 + d[0] % 128
    } else {
        counted(high * 128 + d[0] % 128 + 1, d.drop_first())
    }
}

proof fn lemma_counted_grows(high: int, d: Seq<u8>)
    requires
        high >= 0,
        d.len() > 0,
    ensures
        counted(high, d) >= high * 128 + d[0] % 128,
        d.len() > 1 ==> counted(high, d) > high * 128 + d[0] % 128,
    decreases d.len(),
{
    if d.len() > 1 {
        lemma_counted_grows(high * 128 + d[0] % 128 + 1, d.drop_first());
    }
}

proof fn lemma_counted_last(high: int, d: Seq<u8>)
    requires
        d.len() > 1,
    ensures
        counted(high, d) == 128 * (counted(high, d.drop_last()) + 1) + d.last() % 128,
    decreases d.len(),
{
    let rest = d.drop_first();
    let front = d.drop_last();
    let next = high * 128 + d[0] % 128 + 1;
    if d.len() == 2 {
        assert(counted(next, rest) == next * 128 + rest[0] % 128);
        assert(counted(high, front) == high * 128 + d[0] % 128);
    } else {
        lemma_counted_last(next, rest);
        assert(rest.drop_last() =~= front.drop_first());
        assert(front[0] == d[0]);
    }
}

proof fn lemma_counted_is_distance(d: Seq<u8>)
    requires
        d.len() > 0,
    ensures
        counted(0, d) == distance_value(d),
    decreases d.len(),
{
    if d.len() > 1 {
        lemma_counted_last(0, d);
        lemma_counted_is_distance(d.drop_last());
    }
}

proof fn lemma_counted_read(before: Seq<u8>, d: Seq<u8>, behind: Seq<u8>, high: int)
    requires
        whole_number(d),
        high >= 0,
        counted(high, d) < word(),
    ensures
        back_distance(before + d + behind, before.len() as int, high) == Some(
            (counted(high, d), (before.len() + d.len()) as int),
        ),
    decreases d.len(),
{
    let all = before + d + behind;
    let at = before.len() as int;
    let v = high * 128 + d[0] % 128;
    assert(all[at] == d[0]);
    lemma_counted_grows(high, d);
    vstd::arithmetic::div_mod::lemma_small_mod(v as nat, word() as nat);
    if d.len() == 1 {
        assert(d[0] == d.last());
    } else {
        let rest = d.drop_first();
        assert(d[0] >= 128);
        assert(rest.last() == d.last());
        assert forall|i: int| 0 <= i < rest.len() - 1 implies #[trigger] rest[i] >= 128 by {
            assert(rest[i] == d[i + 1]);
        }
        vstd::arithmetic::div_mod::lemma_small_mod((v + 1) as nat, word() as nat);
        assert(before.push(d[0]) + rest + behind =~= all);
        lemma_counted_read(before.push(d[0]), rest, behind, v + 1);
    }
}

/// A distance is read where it stands.
pub proof fn lemma_distance_read(before: Seq<u8>, d: Seq<u8>, behind: Seq<u8>)
    requires
        whole_number(d),
        distance_value(d) <= usize::MAX,
    ensures
        back_distance(before + d + behind, before.len() as int, 0) == Some(
            (distance_value(d), (before.len() + d.len()) as int),
        ),
{
    lemma_counted_is_distance(d);
    lemma_counted_read(before, d, behind, 0);
}

/// A delta that tells its base by the distance back to it is applied to the
/// object that starts there: what it makes is taken in, with the type of the
/// base.
pub proof fn lemma_distant_delta_read(
    st: PackState,
    before: Seq<u8>,
    h: Seq<u8>,
    d: Seq<u8>,
    z: Seq<u8>,
    behind: Seq<u8>,
    delta: Seq<u8>,
)
    requires
        st.pos == before.len(),
        before.len() <= usize::MAX,
        object_header(h, OBJ_OFS_DELTA),
        whole_number(d),
        0 <= distance_value(d) <= before.len(),
        inflates(z, delta),
    ensures
        ({
            let at = (before.len() - distance_value(d)) as usize;
            let r = st.next(before + h + d + z + behind);
            if !st.offsets.contains_key(at) {
                r == Err::<PackState, PackError>(PackError::MissingBase(before.len() as usize))
            } else {
                let base = st.offsets[at];
                match delta_applied(st.objects[base], delta) {
                    Ok(content) => r matches Ok(next) && takes_in(
                        st,
                        next,
                        st.kinds[base],
                        content,
                        before.len() as int,
                        (before.len() + h.len() + d.len() + z.len()) as int,
                    ),
                    Err(e) => r == Err::<PackState, PackError>(e),
                }
            }
        }),
{
    let data = before + h + d + z + behind;
    assert(data =~= before + h + (d + z + behind));
    lemma_header_read(before, h, d + z + behind, OBJ_OFS_DELTA);
    assert(data =~= (before + h) + d + (z + behind));
    lemma_distance_read(before + h, d, z + behind);
    assert(data.skip((before.len() + h.len() + d.len()) as int) =~= z + behind);
}

/// A delta that names its base by id is applied to it where the base is known;
/// else it waits for it.
pub proof fn lemma_named_delta_read(
    st: PackState,
    before: Seq<u8>,
    h: Seq<u8>,
    base: Seq<u8>,
    z: Seq<u8>,
    behind: Seq<u8>,
    delta: Seq<u8>,
)
    requires
        st.pos == before.len(),
        object_header(h, OBJ_REF_DELTA),
        base.len() == 20,
        inflates(z, delta),
    ensures
        ({
            let end = (before.len() + h.len() + 20 + z.len()) as int;
            let r = st.next(before + h + base + z + behind);
            if st.kinds.contains_key(base) {
                match delta_applied(st.objects[base], delta) {
                    Ok(content) => r matches Ok(next) && takes_in(
                        st,
                        next,
                        st.kinds[base],
                        content,
                        before.len() as int,
                        end,
                    ),
                    Err(e) => r == Err::<PackState, PackError>(e),
                }
            } else {
                r matches Ok(next) && next.pos == end && next.objects == st.objects && next.kinds
                    == st.kinds && next.offsets == st.offsets && next.deferred == st.deferred.push(
                    (base, delta),
                )
            }
        }),
{
    let data = before + h + base + z + behind;
    let mid = (before.len() + h.len()) as int;
    assert(data =~= before + h + (base + z + behind));
    lemma_header_read(before, h, base + z + behind, OBJ_REF_DELTA);
    assert(data.subrange(mid, mid + 20) =~= base);
    assert(data.skip(mid + 20) =~= z + behind);
}

// ---------------------------------------------------------------------------
// Whole packs
// ---------------------------------------------------------------------------

/// The objects of a pack are read one after the other: so many, and then the
/// rest.
pub proof fn lemma_objects_in_turn(st: PackState, data: Seq<u8>, a: nat, b: nat)
    ensures
        st.after(data, 0) == Ok::<PackState, PackError>(st),
        st.after(data, 1) == st.next(data),
        st.after(data, a + b) == match st.after(data, a) {
            Ok(mid) => mid.after(data, b),
            Err(e) => Err(e),
        },
    decreases a,
{
    assert(st.after(data, 1) == st.next(data)) by {
        reveal_with_fuel(PackState::after, 2);
    }
    if a > 0 {
        match st.next(data) {
            Ok(next) => {
                lemma_objects_in_turn(next, data, (a - 1) as nat, b);
            },
            Err(_) => {},
        }
        assert((a + b - 1) as nat == (a - 1) as nat + b);
    }
}

/// What is kept under an id has that id.
pub open spec fn under_own_ids(objects: Map<Seq<u8>, Seq<u8>>) -> bool {
    forall|k: Seq<u8>| #[trigger] objects.contains_key(k) ==> has_id(objects[k], k)
}

/// The content has this id, as a commit, a tree or a file.
pub open spec fn has_id(content: Seq<u8>, oid: Seq<u8>) -> bool {
    exists|kind: u8| plain_kind(kind) && #[trigger] object_id(kind, content) == oid
}

proof fn lemma_delta_under_own_id(st: PackState, base: Seq<u8>, delta: Seq<u8>, start: int)
    requires
        st.consistent(),
        under_own_ids(st.objects),
        st.kinds.contains_key(base),
    ensures
        st.with_delta(base, delta, start) matches Ok(next) ==> next.consistent() && under_own_ids(
            next.objects,
        ),
{
    match st.with_delta(base, delta, start) {
        Ok(next) => {
            let content = delta_applied(st.objects[base], delta)->Ok_0;
            let oid = object_id(st.kinds[base], content);
            assert(plain_kind(st.kinds[base]));
            assert(has_id(content, oid));
            assert forall|k: Seq<u8>| #[trigger] next.objects.contains_key(k) implies has_id(
                next.objects[k],
                k,
            ) by {
                if k != oid {
                    assert(st.objects.contains_key(k));
                }
            }
        },
        Err(_) => {},
    }
}

proof fn lemma_next_under_own_id(st: PackState, data: Seq<u8>)
    requires
        st.consistent(),
        under_own_ids(st.objects),
    ensures
        st.next(data) matches Ok(next) ==> next.consistent() && under_own_ids(next.objects),
{
    match st.next(data) {
        Ok(next) => {
            let (kind, _, mid) = size_type(data, st.pos)->Ok_0;
            let (base, body) = base_of(data, st.pos, kind, mid)->Ok_0;
            let (content, used) = zlib_inflated(data.skip(body))->0;
            let here = PackState { pos: body + used, ..st };
            assert(here.consistent());
            match base {
                BaseModel::At(offset) => {
                    lemma_delta_under_own_id(here, st.offsets[offset as usize], content, st.pos);
                },
                BaseModel::Id(oid) => {
                    if st.kinds.contains_key(oid) {
                        lemma_delta_under_own_id(here, oid, content, st.pos);
                    }
                },
                BaseModel::Nothing => {
                    if plain_kind(kind) {
                        let oid = object_id(kind, content);
                        assert(has_id(content, oid));
                        assert forall|k: Seq<u8>| #[trigger]
                            next.objects.contains_key(k) implies has_id(next.objects[k], k) by {
                            if k != oid {
                                assert(st.objects.contains_key(k));
                            }
                        }
                    }
                },
            }
        },
        Err(_) => {},
    }
}

proof fn lemma_after_under_own_ids(st: PackState, data: Seq<u8>, count: nat)
    requires
        st.consistent(),
        under_own_ids(st.objects),
    ensures
        st.after(data, count) matches Ok(next) ==> next.consistent() && under_own_ids(next.objects),
    decreases count,
{
    if count > 0 {
        lemma_next_under_own_id(st, data);
        match st.next(data) {
            Ok(next) => {
                lemma_after_under_own_ids(next, data, (count - 1) as nat);
            },
            Err(_) => {},
        }
    }
}

proof fn lemma_resolved_under_own_ids(st: PackState, i: int)
    requires
        st.consistent(),
        under_own_ids(st.objects),
        0 <= i,
    ensures
        st.resolved(i) matches Ok(objects) ==> under_own_ids(objects),
    decreases st.deferred.len() - i,
{
    if i < st.deferred.len() {
        let (base, delta) = st.deferred[i];
        if st.kinds.contains_key(base) {
            lemma_delta_under_own_id(st, base, delta, st.pos);
            match st.with_delta(base, delta, st.pos) {
                Ok(next) => {
                    let next = PackState { deferred: st.deferred, ..next };
                    lemma_resolved_under_own_ids(next, i + 1);
                },
                Err(_) => {},
            }
        } else {
            lemma_resolved_under_own_ids(st, i + 1);
        }
    }
}

/// Whatever a pack holds, each object that is read of it is kept under the id
/// of its content.
pub proof fn lemma_unpacked_under_own_ids(data: Seq<u8>)
    ensures
        unpacked(data) matches Ok(objects) ==> under_own_ids(objects),
{
    if unpacked(data) is Ok {
        let start = pack_start();
        assert(start.consistent());
        assert(under_own_ids(start.objects));
        let count = be32(data, 8) as nat;
        lemma_after_under_own_ids(start, data, count);
        lemma_resolved_under_own_ids(start.after(data, count)->Ok_0, 0);
    }
}

/// Only this content has the id, and only with this type.
pub open spec fn no_other(oid: Seq<u8>, kind: u8, content: Seq<u8>) -> bool {
    forall|k: u8, c: Seq<u8>| #[trigger]
        object_id(k, c) == oid && plain_kind(k) ==> k == kind && c == content
}

/// Deltas that waited for their base are applied once the whole pack was read:
/// what such a delta makes of its base is among the objects.
pub proof fn lemma_waiting_delta_resolved(st: PackState, i: int, k: int)
    requires
        st.consistent(),
        0 <= i <= k < st.deferred.len(),
        st.kinds.contains_key(st.deferred[k].0),
        no_other(
            st.deferred[k].0,
            st.kinds[st.deferred[k].0],
            st.objects[st.deferred[k].0],
        ),
        st.resolved(i) is Ok,
    ensures
        ({
            let (base, delta) = st.deferred[k];
            delta_applied(st.objects[base], delta) matches Ok(content)
                && st.resolved(i)->Ok_0.contains_key(object_id(st.kinds[base], content))
        }),
    decreases st.deferred.len() - i,
{
    let (b, d) = st.deferred[i];
    let (base, delta) = st.deferred[k];
    if st.kinds.contains_key(b) {
        let next = PackState { deferred: st.deferred, ..st.with_delta(b, d, st.pos)->Ok_0 };
        let made = delta_applied(st.objects[b], d)->Ok_0;
        assert(plain_kind(st.kinds[b]));
        assert(next.consistent());
        if i < k {
            if object_id(st.kinds[b], made) == base {
                assert(st.kinds[b] == st.kinds[base] && made == st.objects[base]);
            }
            lemma_waiting_delta_resolved(next, i + 1, k);
        } else {
            lemma_resolved_keeps(next, i + 1, object_id(st.kinds[b], made));
        }
    } else {
        lemma_waiting_delta_resolved(st, i + 1, k);
    }
}

proof fn lemma_resolved_keeps(st: PackState, i: int, oid: Seq<u8>)
    requires
        0 <= i,
        st.objects.contains_key(oid),
        st.resolved(i) is Ok,
    ensures
        st.resolved(i)->Ok_0.contains_key(oid),
    decreases st.deferred.len() - i,
{
    if i < st.deferred.len() {
        let (b, d) = st.deferred[i];
        if st.kinds.contains_key(b) {
            let next = PackState { deferred: st.deferred, ..st.with_delta(b, d, st.pos)->Ok_0 };
            lemma_resolved_keeps(next, i + 1, oid);
        } else {
            lemma_resolved_keeps(st, i + 1, oid);
        }
    }
}

/// Where no delta waits, what was read is what the pack holds; and what was
/// read is never lost by those that do.
pub proof fn lemma_read_is_kept(st: PackState, oid: Seq<u8>)
    ensures
        st.deferred.len() == 0 ==> st.resolved(0) == Ok::<Map<Seq<u8>, Seq<u8>>, PackError>(
            st.objects,
        ),
        st.resolved(0) is Ok && st.objects.contains_key(oid) ==> st.resolved(0)->Ok_0.contains_key(
            oid,
        ),
{
    if st.resolved(0) is Ok && st.objects.contains_key(oid) {
        lemma_resolved_keeps(st, 0, oid);
    }
}

/// What is no sound pack is refused: by what it begins with, by its version,
/// or by the digest at its end.
pub proof fn lemma_unsound_packs_refused(data: Seq<u8>)
    ensures
        data.len() < 12 || data.take(4) != text("PACK") ==> unpacked(data) == Err::<
            Map<Seq<u8>, Seq<u8>>,
            PackError,
        >(PackError::BadMagic),
        data.len() >= 12 && data.take(4) == text("PACK") && be32(data, 4) != 2 && be32(data, 4) != 3
            ==> unpacked(data) is Err,
        data.len() >= 20 && sha1_of(data.take(data.len() - 20))@ != data.skip(data.len() - 20)
            ==> unpacked(data) is Err,
{
    reveal_strlit("PACK");
    vstd::utf8::is_ascii_chars_encode_utf8("PACK"@);
    assert(text("PACK").len() == 4);
    if data.len() >= 4 {
        assert(data.subrange(0, 4) =~= data.take(4));
    }
}

/// A sound pack is read: behind its twelve bytes as many objects as it says,
/// and at the end the deltas that have waited.
pub proof fn lemma_sound_packs_read(version: u8, count: Seq<u8>, body: Seq<u8>, digest: Seq<u8>)
    requires
        version == 2 || version == 3,
        count.len() == 4,
        digest.len() == 20,
        digest == sha1_of(
            text("PACK") + seq![0u8, 0u8, 0u8, version] + count + body,
        )@,
    ensures
        ({
            let data = text("PACK") + seq![0u8, 0u8, 0u8, version] + count + body + digest;
            let n = 0x100_0000 * count[0] + 0x1_0000 * count[1] + 0x100 * count[2] + count[3];
            unpacked(data) == match pack_start().after(data, n as nat) {
                Ok(st) => st.resolved(0),
                Err(e) => Err(e),
            }
        }),
        pack_start().pos == 12,
        pack_start().objects.dom() == Set::<Seq<u8>>::empty(),
        pack_start().kinds.dom() == Set::<Seq<u8>>::empty(),
        pack_start().offsets.dom() == Set::<usize>::empty(),
        pack_start().deferred.len() == 0,
{
    reveal_strlit("PACK");
    vstd::utf8::is_ascii_chars_encode_utf8("PACK"@);
    let front = text("PACK") + seq![0u8, 0u8, 0u8, version] + count + body;
    let data = front + digest;
    assert(text("PACK").len() == 4);
    assert(data.subrange(0, 4) =~= text("PACK"));
    assert(data.take(data.len() - 20) =~= front);
    assert(data.skip(data.len() - 20) =~= digest);
    assert(data[4] == 0 && data[5] == 0 && data[6] == 0 && data[7] == version);
    assert(data[8] == count[0] && data[9] == count[1] && data[10] == count[2] && data[11]
        == count[3]);
    assert(be32(data, 4) == version);
}

// ---------------------------------------------------------------------------
// What is written
// ---------------------------------------------------------------------------

/// The header that is written for an object tells its type and its size.
pub proof fn lemma_header_written(kind: u8, size: usize)
    requires
        kind < 8,
    ensures
        object_header(size_type_bytes(kind, size as nat), kind),
        header_size(size_type_bytes(kind, size as nat)) == size,
{
    let h = size_type_bytes(kind, size as nat);
    let rest = h.drop_first();
    if size < 16 {
        assert(rest =~= Seq::empty());
        assert(number_value(rest) == 0);
    } else {
        let n = (size / 16) as nat;
        assert(rest =~= groups(n));
        reveal_with_fuel(pow128, 11);
        lemma_groups_whole(n, group_room(4));
    }
}

proof fn lemma_groups_whole(n: nat, room: nat)
    requires
        n < pow128(room),
        room > 0,
    ensures
        whole_number(groups(n)),
        number_value(groups(n)) == n,
        groups(n).len() <= room,
    decreases room,
{
    let g = groups(n);
    if n < 128 {
        assert(g.drop_first() =~= Seq::empty());
        assert(number_value(g.drop_first()) == 0);
    } else {
        let rest = groups(n / 128);
        if room == 1 {
            assert(pow128(1) == 128) by {
                reveal_with_fuel(pow128, 2);
            }
        }
        lemma_groups_whole(n / 128, (room - 1) as nat);
        assert(g.drop_first() =~= rest);
        assert(g.last() == rest.last());
        assert forall|i: int| 0 <= i < g.len() - 1 implies #[trigger] g[i] >= 128 by {
            if i > 0 {
                assert(g[i] == rest[i - 1]);
            }
        }
    }
}

/// The id of an object is the digest of its type, its length in decimal digits
/// and its content.
pub proof fn lemma_ids(content: Seq<u8>)
    ensures
        object_id(OBJ_COMMIT, content) == sha1_of(
            text("commit") + seq![32u8] + decimal(content.len()) + seq![0u8] + content,
        )@,
        object_id(OBJ_TREE, content) == sha1_of(
            text("tree") + seq![32u8] + decimal(content.len()) + seq![0u8] + content,
        )@,
        object_id(OBJ_BLOB, content) == sha1_of(
            text("blob") + seq![32u8] + decimal(content.len()) + seq![0u8] + content,
        )@,
{
}

/// A pack that is written says so, says that it is of the second version, and
/// says how many objects it holds; and it ends in the digest of all before.
pub proof fn lemma_pack_is_sealed(es: Seq<(u8, Seq<u8>)>)
    requires
        pack_bytes(es) is Some,
    ensures
        ({
            let p = pack_bytes(es)->0;
            let n = p.len() - 20;
            &&& n >= 12
            &&& p.take(4) == seq![0x50u8, 0x41, 0x43, 0x4b]
            &&& p.subrange(4, 8) == seq![0u8, 0, 0, 2]
            &&& es.len() <= u32::MAX ==> 0x100_0000 * p[8] + 0x1_0000 * p[9] + 0x100 * p[10] + p[11]
                == es.len()
            &&& p.skip(n) == sha1_of(p.take(n))@
        }),
{
    let p = pack_bytes(es)->0;
    let n = p.len() - 20;
    let count = es.len() as int;
    reveal_strlit("PACK");
    vstd::utf8::is_ascii_chars_encode_utf8("PACK"@);
    assert(text("PACK") =~= seq![0x50u8, 0x41, 0x43, 0x4b]);
    let front = pack_header(count) + pack_body(es)->0;
    assert(p.take(n) =~= front);
    assert(p.skip(n) =~= sha1_of(front)@);
    assert(p.take(4) =~= text("PACK"));
    assert(p.subrange(4, 8) =~= seq![0u8, 0, 0, 2]);
    if count <= u32::MAX {
        assert(count % 0x1_0000_0000 == count);
        assert(p[8] == be32_bytes(count)[0]);
        assert(p[9] == be32_bytes(count)[1]);
        assert(p[10] == be32_bytes(count)[2]);
        assert(p[11] == be32_bytes(count)[3]);
    }
}

proof fn lemma_pack_header_len(count: int)
    ensures
        pack_header(count).len() == 12,
{
    reveal_strlit("PACK");
    vstd::utf8::is_ascii_chars_encode_utf8("PACK"@);
    assert(text("PACK").len() == 4);
}

proof fn lemma_packed_behind(
    head: Seq<u8>,
    other: Seq<u8>,
    body: Seq<u8>,
    more: Seq<u8>,
    end: Seq<u8>,
    last: Seq<u8>,
)
    requires
        head.len() == 12,
        other.len() == 12,
        end.len() == 20,
        last.len() == 20,
    ensures
        ({
            let p = head + body + end;
            let q = other + (body + more) + last;
            &&& q.len() >= p.len()
            &&& q.subrange(12, p.len() - 20) == p.subrange(12, p.len() - 20)
            &&& q.subrange(p.len() - 20, q.len() - 20) == more
        }),
{
    let p = head + body + end;
    let q = other + (body + more) + last;
    assert(q.subrange(12, p.len() - 20) =~= body);
    assert(p.subrange(12, p.len() - 20) =~= body);
    assert(q.subrange(p.len() - 20, q.len() - 20) =~= more);
}

/// The objects of a pack stand one behind the other: each is its header, which
/// tells its type and its size, and its compressed content.
pub proof fn lemma_objects_are_packed_in_turn(es: Seq<(u8, Seq<u8>)>, e: (u8, Seq<u8>))
    requires
        pack_bytes(es) is Some,
        pack_bytes(es.push(e)) is Some,
        es.len() < u32::MAX,
        e.0 < 8,
        e.1.len() <= usize::MAX,
    ensures
        ({
            let p = pack_bytes(es)->0;
            let q = pack_bytes(es.push(e))->0;
            let more = q.subrange(p.len() - 20, q.len() - 20);
            &&& q.len() >= p.len()
            &&& q.subrange(12, p.len() - 20) == p.subrange(12, p.len() - 20)
            &&& zlib_deflated(e.1) matches Some(z) && exists|h: Seq<u8>|
                #[trigger] object_header(h, e.0) && header_size(h) == e.1.len() && more == h + z
        }),
{
    let all = es.push(e);
    assert(all.drop_last() =~= es);
    assert(all.last() == e);
    let body = pack_body(es)->0;
    let z = zlib_deflated(e.1)->0;
    let h = size_type_bytes(e.0, e.1.len());
    lemma_header_written(e.0, e.1.len() as usize);
    assert(object_header(h, e.0));
    assert(pack_body(all)->0 == body + (h + z));
    lemma_pack_header_len(es.len() as int);
    lemma_pack_header_len(all.len() as int);
    let front = pack_header(es.len() as int) + body;
    let whole = pack_header(all.len() as int) + (body + (h + z));
    lemma_packed_behind(
        pack_header(es.len() as int),
        pack_header(all.len() as int),
        body,
        h + z,
        sha1_of(front)@,
        sha1_of(whole)@,
    );
}

} // verus!
