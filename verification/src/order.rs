//! Packed integer keys and the ascending sorts they are ordered by.

use vstd::prelude::*;

verus! {

/// 2^32: the stride that packs a `u32` above another `u32`.
pub open spec fn lane() -> int {
    0x1_0000_0000
}

/// Lexicographic strict order on index pairs (the order std gives tuples).
pub open spec fn pair_lt(p: (u32, u32), q: (u32, u32)) -> bool {
    p.0 < q.0 || (p.0 == q.0 && p.1 < q.1)
}

/// Pairs in strictly increasing lexicographic order: sorted, no duplicates.
pub open spec fn strictly_sorted_pairs(s: Seq<(u32, u32)>) -> bool {
    forall|i: int, j: int| 0 <= i < j < s.len() ==> pair_lt(#[trigger] s[i], #[trigger] s[j])
}

pub open spec fn ascending_u128(s: Seq<u128>) -> bool {
    forall|i: int, j: int| 0 <= i < j < s.len() ==> #[trigger] s[i] <= #[trigger] s[j]
}

pub open spec fn ascending_u32(s: Seq<u32>) -> bool {
    forall|i: int, j: int| 0 <= i < j < s.len() ==> #[trigger] s[i] <= #[trigger] s[j]
}

/// The value of a pair packed into one integer, high lane first.
pub open spec fn pack_pair(p: (u32, u32)) -> int {
    p.0 * lane() + p.1
}

pub proof fn lemma_pack_pair_order(p: (u32, u32), q: (u32, u32))
    ensures
        pair_lt(p, q) <==> pack_pair(p) < pack_pair(q),
        p == q <==> pack_pair(p) == pack_pair(q),
        0 <= pack_pair(p) < lane() * lane(),
{
    let (a, b, c, d) = (p.0 as int, p.1 as int, q.0 as int, q.1 as int);
    assert(0 <= b < lane() && 0 <= d < lane());
    assert(a < c ==> a * lane() + b < c * lane() + d) by (nonlinear_arith)
        requires 0 <= b < lane(), 0 <= d < lane();
    assert(c < a ==> c * lane() + d < a * lane() + b) by (nonlinear_arith)
        requires 0 <= b < lane(), 0 <= d < lane();
    assert(0 <= a * lane() + b < lane() * lane()) by (nonlinear_arith)
        requires 0 <= b < lane(), 0 <= a < lane();
}

/// Packs a pair into a `u128` so that integer order is lexicographic pair order.
pub fn pack_pair_u128(a: u32, b: u32) -> (k: u128)
    ensures
        k as int == pack_pair((a, b)),
{
    proof {
        lemma_pack_pair_order((a, b), (a, b));
    }
    a as u128 * 0x1_0000_0000u128 + b as u128
}

/// Packs a pair into a `u64` (the key of the set of seen edges).
pub fn pack_pair_u64(a: u32, b: u32) -> (k: u64)
    ensures
        k as int == pack_pair((a, b)),
{
    proof {
        lemma_pack_pair_order((a, b), (a, b));
    }
    a as u64 * 0x1_0000_0000u64 + b as u64
}

/// Recovers the pair from its packed value.
pub fn unpack_pair_u128(k: u128) -> (p: (u32, u32))
    requires
        k < lane() * lane(),
    ensures
        pack_pair(p) == k as int,
{
    let hi = k / 0x1_0000_0000u128;
    let lo = k % 0x1_0000_0000u128;
    assert(hi < lane()) by (nonlinear_arith)
        requires hi == k / 0x1_0000_0000u128, k < lane() * lane();
    assert(hi * lane() + lo == k) by (nonlinear_arith)
        requires hi == k / 0x1_0000_0000u128, lo == k % 0x1_0000_0000u128;
    (hi as u32, lo as u32)
}

/// Splitting a packed key into its high part and its low lane respects order:
/// the high part never decreases, and within one high part the lane increases.
pub proof fn lemma_lane_split(k1: int, k2: int)
    requires
        0 <= k1 < k2,
    ensures
        k1 / lane() <= k2 / lane(),
        k1 / lane() == k2 / lane() ==> k1 % lane() < k2 % lane(),
        k1 == (k1 / lane()) * lane() + k1 % lane(),
        0 <= k1 % lane() < lane(),
{
    assert(k1 / lane() <= k2 / lane()) by (nonlinear_arith)
        requires 0 <= k1 < k2;
    assert(k1 == (k1 / lane()) * lane() + k1 % lane()) by (nonlinear_arith);
    assert(k2 == (k2 / lane()) * lane() + k2 % lane()) by (nonlinear_arith);
    assert(0 <= k1 % lane() < lane()) by (nonlinear_arith);
    assert(0 <= k2 % lane() < lane()) by (nonlinear_arith);
}

/// A packed value is recovered by division and remainder by the lane.
pub proof fn lemma_lane_unpack(h: int, l: int)
    requires
        0 <= h,
        0 <= l < lane(),
    ensures
        (h * lane() + l) / lane() == h,
        (h * lane() + l) % lane() == l,
{
    assert((h * lane() + l) / lane() == h) by (nonlinear_arith)
        requires 0 <= h, 0 <= l < lane();
    assert((h * lane() + l) % lane() == l) by (nonlinear_arith)
        requires 0 <= h, 0 <= l < lane();
}

/// Sorting keeps a duplicate-free sequence duplicate-free; an ascending
/// duplicate-free sequence is strictly ascending.
pub proof fn lemma_sorted_distinct(before: Seq<u128>, after: Seq<u128>)
    requires
        before.no_duplicates(),
        before.to_multiset() == after.to_multiset(),
        ascending_u128(after),
    ensures
        forall|i: int, j: int| 0 <= i < j < after.len() ==> #[trigger] after[i] < #[trigger] after[j],
{
    before.lemma_multiset_has_no_duplicates();
    after.lemma_multiset_has_no_duplicates_conv();
    assert forall|i: int, j: int| 0 <= i < j < after.len() implies #[trigger] after[i] < #[trigger] after[j] by {
        assert(after[i] <= after[j]);
        assert(after[i] != after[j]);
    }
}

/// Sorts with `<[u128]>::sort_unstable`. std documents that the slice ends up in
/// ascending order and that sorting only permutes the elements.
#[verifier::external_body]
pub(crate) fn sort_u128s(v: &mut Vec<u128>)
    ensures
        final(v)@.to_multiset() == old(v)@.to_multiset(),
        ascending_u128(final(v)@),
{
    v.sort_unstable();
}

/// Sorts with `<[u32]>::sort_unstable`. std documents that the slice ends up in
/// ascending order and that sorting only permutes the elements.
#[verifier::external_body]
pub(crate) fn sort_u32s(v: &mut Vec<u32>)
    ensures
        final(v)@.to_multiset() == old(v)@.to_multiset(),
        ascending_u32(final(v)@),
{
    v.sort_unstable();
}

} // verus!
