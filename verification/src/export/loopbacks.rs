//! The assignment of loopback interfaces to prefixes, held in a bidirectional map of the `bimap`
//! crate: each loopback number carries at most one prefix, and each prefix at most one loopback.

use bimap::BiHashMap;
use vstd::prelude::*;

verus! {

/// The bidirectional hash map of the `bimap` crate, opaque to verification.
#[verifier::external_type_specification]
#[verifier::external_body]
#[verifier::reject_recursive_types(L)]
#[verifier::reject_recursive_types(R)]
#[verifier::reject_recursive_types(LS)]
#[verifier::reject_recursive_types(RS)]
pub struct ExBiHashMap<L, R, LS, RS>(BiHashMap<L, R, LS, RS>);

/// The pairs of a bidirectional map from loopback numbers to prefix numbers.
pub uninterp spec fn loopback_pairs(m: BiHashMap<u8, u32>) -> Map<u8, u32>;

/// No two loopbacks carry the same prefix.
pub open spec fn injective(m: Map<u8, u32>) -> bool {
    forall|a: u8, b: u8| m.contains_key(a) && m.contains_key(b) && a != b ==> m[a] != m[b]
}

/// Some loopback carries the prefix.
pub open spec fn has_right(m: Map<u8, u32>, r: u32) -> bool {
    exists|l: u8| m.contains_key(l) && m[l] == r
}

/// The pairs whose prefix is not `r`.
pub open spec fn without_right(m: Map<u8, u32>, r: u32) -> Map<u8, u32> {
    m.restrict(m.dom().filter(|l: u8| m[l] != r))
}

/// An empty map (`BiHashMap::new`).
#[verifier::external_body]
pub(crate) fn loopbacks_new() -> (fresh: BiHashMap<u8, u32>)
    ensures
        loopback_pairs(fresh).is_empty(),
{
    BiHashMap::new()
}

/// Whether a loopback number is taken (`BiHashMap::contains_left`).
#[verifier::external_body]
pub(crate) fn loopbacks_contains_left(m: &BiHashMap<u8, u32>, l: u8) -> (b: bool)
    ensures
        b == loopback_pairs(*m).contains_key(l),
{
    m.contains_left(&l)
}

/// Whether a prefix has a loopback (`BiHashMap::contains_right`).
#[verifier::external_body]
pub(crate) fn loopbacks_contains_right(m: &BiHashMap<u8, u32>, r: u32) -> (b: bool)
    ensures
        b == has_right(loopback_pairs(*m), r),
{
    m.contains_right(&r)
}

/// Pair a loopback with a prefix (`BiHashMap::insert`): the pairs that held the loopback or the
/// prefix before are removed first. What it reports of the removed pairs is dropped.
#[verifier::external_body]
pub(crate) fn loopbacks_insert(m: &mut BiHashMap<u8, u32>, l: u8, r: u32)
    ensures
        loopback_pairs(*final(m)) == without_right(loopback_pairs(*old(m)), r).insert(l, r),
        injective(loopback_pairs(*old(m))) ==> injective(loopback_pairs(*final(m))),
{
    m.insert(l, r);
}

/// Remove the pair of a prefix and return it (`BiHashMap::remove_by_right`).
#[verifier::external_body]
pub(crate) fn loopbacks_remove_by_right(m: &mut BiHashMap<u8, u32>, r: u32) -> (res: Option<(u8, u32)>)
    ensures
        match res {
            Some((l, r2)) => r2 == r && loopback_pairs(*old(m)).contains_key(l) && loopback_pairs(*old(m))[l] == r
                && loopback_pairs(*final(m)) == loopback_pairs(*old(m)).remove(l),
            None => !has_right(loopback_pairs(*old(m)), r) && loopback_pairs(*final(m)) == loopback_pairs(*old(m)),
        },
        injective(loopback_pairs(*old(m))) ==> injective(loopback_pairs(*final(m))),
{
    m.remove_by_right(&r)
}

} // verus!
