//! Node sets: compressed bitmaps of node ids, held as a set of u32.

use roaring::RoaringBitmap;
use vstd::prelude::*;

verus! {

#[verifier::external_type_specification]
#[verifier::external_body]
pub struct ExRoaringBitmap(roaring::RoaringBitmap);

/// The ids a bitmap holds.
pub uninterp spec fn ids_of(b: RoaringBitmap) -> Set<u32>;

/// The ids below `y`.
pub open spec fn below(s: Set<u32>, y: u32) -> Set<u32> {
    s.filter(|z: u32| z < y)
}

/// The ids at or below `y`.
pub open spec fn at_most(s: Set<u32>, y: u32) -> Set<u32> {
    s.filter(|z: u32| z <= y)
}

/// `RoaringBitmap::new`: the empty set.
#[verifier::external_body]
pub fn empty_set() -> (r: RoaringBitmap)
    ensures
        ids_of(r) == Set::<u32>::empty(),
{
    RoaringBitmap::new()
}

/// `RoaringBitmap::insert`: adds `v`; true when it was absent.
#[verifier::external_body]
pub fn insert_id(b: &mut RoaringBitmap, v: u32) -> (r: bool)
    ensures
        ids_of(*final(b)) == ids_of(*old(b)).insert(v),
        r == !ids_of(*old(b)).contains(v),
{
    b.insert(v)
}

/// `RoaringBitmap::remove`: removes `v`; true when it was present.
#[verifier::external_body]
pub fn remove_id(b: &mut RoaringBitmap, v: u32) -> (r: bool)
    ensures
        ids_of(*final(b)) == ids_of(*old(b)).remove(v),
        r == ids_of(*old(b)).contains(v),
{
    b.remove(v)
}

/// `RoaringBitmap::contains`.
#[verifier::external_body]
pub fn has_id(b: &RoaringBitmap, v: u32) -> (r: bool)
    ensures
        r == ids_of(*b).contains(v),
{
    b.contains(v)
}

/// `RoaringBitmap::len`: how many ids the set holds.
#[verifier::external_body]
pub fn count(b: &RoaringBitmap) -> (r: u64)
    ensures
        r == ids_of(*b).len(),
{
    b.len()
}

/// `RoaringBitmap::is_empty`.
#[verifier::external_body]
pub fn no_ids(b: &RoaringBitmap) -> (r: bool)
    ensures
        r == (ids_of(*b) == Set::<u32>::empty()),
{
    b.is_empty()
}

/// `RoaringBitmap::rank`: how many ids are at or below `v`.
#[verifier::external_body]
pub fn rank(b: &RoaringBitmap, v: u32) -> (r: u64)
    ensures
        r == at_most(ids_of(*b), v).len(),
{
    b.rank(v)
}

/// `RoaringBitmap::select`: the `n`-th id counting from 0 in ascending order
/// (the id with exactly `n` smaller ids in the set), or None when `n` is not
/// below the number of ids.
#[verifier::external_body]
pub fn select(b: &RoaringBitmap, n: u32) -> (r: Option<u32>)
    ensures
        r is None <==> n >= ids_of(*b).len(),
        r matches Some(y) ==> ids_of(*b).contains(y) && below(ids_of(*b), y).len() == n,
{
    b.select(n)
}

/// `RoaringBitmap::clone`.
#[verifier::external_body]
pub fn copy_set(b: &RoaringBitmap) -> (r: RoaringBitmap)
    ensures
        ids_of(r) == ids_of(*b),
{
    b.clone()
}

/// `a |= &b`: union.
#[verifier::external_body]
pub fn union_with(a: &mut RoaringBitmap, b: &RoaringBitmap)
    ensures
        ids_of(*final(a)) == ids_of(*old(a)).union(ids_of(*b)),
{
    *a |= b;
}

/// `a &= &b`: intersection.
#[verifier::external_body]
pub fn intersect_with(a: &mut RoaringBitmap, b: &RoaringBitmap)
    ensures
        ids_of(*final(a)) == ids_of(*old(a)).intersect(ids_of(*b)),
{
    *a &= b;
}

/// `&a - &b`: the ids of `a` not in `b`.
#[verifier::external_body]
pub fn minus(a: &RoaringBitmap, b: &RoaringBitmap) -> (r: RoaringBitmap)
    ensures
        ids_of(r) == ids_of(*a).difference(ids_of(*b)),
{
    a - b
}

/// The ids below `y`, as a set of its own.
pub open spec fn ids_below(y: u32) -> Set<u32> {
    Set::new(|z: u32| z < y)
}

pub proof fn lemma_ids_below(y: u32)
    ensures
        ids_below(y).finite(),
        ids_below(y).len() == y,
    decreases y,
{
    if y > 0 {
        let p = (y - 1) as u32;
        lemma_ids_below(p);
        assert(ids_below(y) =~= ids_below(p).insert(p));
    } else {
        assert(ids_below(0) =~= Set::<u32>::empty());
    }
}

/// Every set of ids is finite and holds at most 2^32 ids.
pub proof fn lemma_ids_finite(s: Set<u32>)
    ensures
        s.finite(),
        s.len() <= 0x1_0000_0000,
{
    lemma_ids_below(u32::MAX);
    let all = ids_below(u32::MAX).insert(u32::MAX);
    assert(s.subset_of(all));
    vstd::set_lib::lemma_len_subset(s, all);
}

/// Fewer than `y` ids lie below `y`.
pub proof fn lemma_below_len(s: Set<u32>, y: u32)
    ensures
        below(s, y).finite(),
        below(s, y).len() <= y,
{
    lemma_ids_below(y);
    assert(below(s, y).subset_of(ids_below(y)));
    vstd::set_lib::lemma_len_subset(below(s, y), ids_below(y));
}

} // verus!
