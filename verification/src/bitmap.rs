//! Compressed sorted-integer sets, backed by `roaring::RoaringTreemap`.
//!
//! The treemap is opaque to the verifier; `tm_set` names the set of ids a
//! treemap holds, and every operation the engine needs is a thin trusted
//! wrapper whose contract speaks over that name.

use vstd::prelude::*;

use roaring::RoaringTreemap;

verus! {

#[verifier::external_type_specification]
#[verifier::external_body]
pub struct ExRoaringTreemap(RoaringTreemap);

/// The set of ids a treemap holds.
pub uninterp spec fn tm_set(t: RoaringTreemap) -> Set<u64>;

/// What `RoaringTreemap::deserialize_from` reads out of a byte sequence:
/// `None` where the bytes are not a valid serialized treemap, otherwise the
/// set of ids they encode. Deserialization reads the bytes alone, so this is
/// a function of them.
pub uninterp spec fn tm_decode(bytes: Seq<u8>) -> Option<Set<u64>>;

/// Relies on RoaringTreemap::new: the empty set.
#[verifier::external_body]
pub(crate) fn tm_new() -> (r: RoaringTreemap)
    ensures
        tm_set(r) == Set::<u64>::empty(),
{
    RoaringTreemap::new()
}

/// Relies on RoaringTreemap::insert: adds one value, reporting whether it
/// was absent.
#[verifier::external_body]
pub(crate) fn tm_insert(t: &mut RoaringTreemap, v: u64) -> (r: bool)
    ensures
        tm_set(*final(t)) == tm_set(*old(t)).insert(v),
        r == !tm_set(*old(t)).contains(v),
{
    t.insert(v)
}

/// Relies on RoaringTreemap::contains.
#[verifier::external_body]
pub(crate) fn tm_contains(t: &RoaringTreemap, v: u64) -> (r: bool)
    ensures
        r == tm_set(*t).contains(v),
{
    t.contains(v)
}

/// Relies on RoaringTreemap::len: the number of distinct values held.
#[verifier::external_body]
pub(crate) fn tm_len(t: &RoaringTreemap) -> (r: u64)
    ensures
        r as nat == tm_set(*t).len(),
{
    t.len()
}

/// Relies on BitOrAssign for RoaringTreemap: in-place union.
#[verifier::external_body]
pub(crate) fn tm_union_with(t: &mut RoaringTreemap, other: &RoaringTreemap)
    ensures
        tm_set(*final(t)) == tm_set(*old(t)) + tm_set(*other),
{
    *t |= other;
}

/// Relies on BitAnd for RoaringTreemap: intersection.
#[verifier::external_body]
pub(crate) fn tm_intersection(a: &RoaringTreemap, b: &RoaringTreemap) -> (r: RoaringTreemap)
    ensures
        tm_set(r) == tm_set(*a).intersect(tm_set(*b)),
{
    a & b
}

/// Relies on the derived Clone of RoaringTreemap: the copy holds the same
/// values.
#[verifier::external_body]
pub(crate) fn tm_clone(t: &RoaringTreemap) -> (r: RoaringTreemap)
    ensures
        tm_set(r) == tm_set(*t),
{
    t.clone()
}

/// Relies on RoaringTreemap::iter, which yields each held value once, in
/// ascending order.
#[verifier::external_body]
pub(crate) fn tm_to_vec(t: &RoaringTreemap) -> (r: Vec<u64>)
    ensures
        r@.to_set() == tm_set(*t),
        forall|i: int, j: int| 0 <= i < j < r@.len() ==> r@[i] < r@[j],
{
    t.iter().collect()
}

/// Relies on RoaringTreemap::serialize_into: the portable byte encoding,
/// which deserialize_from reads back to an equal treemap. Writing to a
/// `Vec<u8>` cannot fail.
#[verifier::external_body]
pub(crate) fn tm_serialize(t: &RoaringTreemap) -> (r: Vec<u8>)
    ensures
        tm_decode(r@) == Some(tm_set(*t)),
{
    let mut buf: Vec<u8> = Vec::new();
    t.serialize_into(&mut buf).unwrap();
    buf
}

/// Relies on RoaringTreemap::deserialize_from: reads the portable byte
/// encoding, checking validity.
#[verifier::external_body]
pub(crate) fn tm_deserialize(bytes: &[u8]) -> (r: Option<RoaringTreemap>)
    ensures
        r is Some <==> tm_decode(bytes@) is Some,
        r is Some ==> tm_set(r->Some_0) == tm_decode(bytes@)->Some_0,
{
    match RoaringTreemap::deserialize_from(bytes) {
        Ok(t) => Some(t),
        Err(_) => None,
    }
}

/// An empty id set.
pub fn empty_id_set() -> (r: RoaringTreemap)
    ensures
        tm_set(r) == Set::<u64>::empty(),
{
    tm_new()
}

/// An id set holding exactly the given ids.
pub fn id_set_from(ids: &Vec<u64>) -> (r: RoaringTreemap)
    ensures
        forall|v: u64| tm_set(r).contains(v) <==> ids@.contains(v),
{
    let mut t = tm_new();
    let n: usize = ids.len();
    let mut i: usize = 0;
    while i < n
        invariant
            0 <= i <= n,
            n == ids.len(),
            forall|v: u64| tm_set(t).contains(v) <==> ids@.take(i as int).contains(v),
        decreases n - i,
    {
        let ghost before = tm_set(t);
        tm_insert(&mut t, ids[i]);
        assert(ids@.take(i + 1).drop_last() =~= ids@.take(i as int));
        assert(forall|v: u64| #[trigger] ids@.take(i + 1).contains(v) <==> (ids@.take(
            i as int,
        ).contains(v) || v == ids@[i as int])) by {
            assert(forall|v: u64| #[trigger] ids@.take(i + 1).contains(v) ==> (ids@.take(
                i as int,
            ).contains(v) || v == ids@[i as int])) by {
                assert(forall|k: int| 0 <= k < i + 1 && k < i ==> ids@.take(i + 1)[k] == ids@.take(
                    i as int,
                )[k]);
            }
            assert(ids@.take(i + 1)[i as int] == ids@[i as int]);
        }
        i = i + 1;
    }
    assert(ids@.take(n as int) =~= ids@);
    t
}

/// The number of distinct ids an id set holds.
pub fn id_set_len(t: &RoaringTreemap) -> (r: u64)
    ensures
        r as nat == tm_set(*t).len(),
{
    tm_len(t)
}

/// Whether an id set holds the given id.
pub fn id_set_contains(t: &RoaringTreemap, v: u64) -> (r: bool)
    ensures
        r == tm_set(*t).contains(v),
{
    tm_contains(t, v)
}

/// The ids an id set holds, ascending.
pub fn id_set_to_vec(t: &RoaringTreemap) -> (r: Vec<u64>)
    ensures
        r@.to_set() == tm_set(*t),
        forall|i: int, j: int| 0 <= i < j < r@.len() ==> r@[i] < r@[j],
{
    tm_to_vec(t)
}

/// The portable byte encoding of an id set, as decode_id_set reads it.
pub fn encode_id_set(t: &RoaringTreemap) -> (r: Vec<u8>)
    ensures
        tm_decode(r@) == Some(tm_set(*t)),
{
    tm_serialize(t)
}

/// Reads the portable byte encoding back; `None` on malformed bytes.
pub fn decode_id_set(bytes: &[u8]) -> (r: Option<RoaringTreemap>)
    ensures
        r is Some <==> tm_decode(bytes@) is Some,
        r is Some ==> tm_set(r->Some_0) == tm_decode(bytes@)->Some_0,
{
    tm_deserialize(bytes)
}

} // verus!
