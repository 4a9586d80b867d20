//! The order in which candidates are reported.

use std::cmp::Ordering;
use vstd::prelude::*;

verus! {

/// `a` is reported before `b`: it has more collisions, or as many and the
/// smaller id. Each entry is an `(id, collisions)` pair.
pub open spec fn ranks_before(a: (u32, u32), b: (u32, u32)) -> bool {
    a.1 > b.1 || (a.1 == b.1 && a.0 < b.0)
}

/// Compares two `(id, collisions)` entries by report order: `Less` where `a`
/// goes first, `Greater` where `b` does, `Equal` for the same entry.
pub fn candidate_order(a: &(u32, u32), b: &(u32, u32)) -> (o: Ordering)
    ensures
        o == Ordering::Less <==> ranks_before(*a, *b),
        o == Ordering::Greater <==> ranks_before(*b, *a),
        o == Ordering::Equal <==> *a == *b,
{
    if a.1 > b.1 {
        Ordering::Less
    } else if a.1 < b.1 {
        Ordering::Greater
    } else if a.0 < b.0 {
        Ordering::Less
    } else if a.0 > b.0 {
        Ordering::Greater
    } else {
        Ordering::Equal
    }
}

/// The slice method `sort_unstable_by` of std, under `candidate_order`: the
/// entries are rearranged, none added or lost, so that no entry stands
/// behind one that it ranks before.
#[verifier::external_body]
pub(crate) fn sort_candidates(v: &mut Vec<(u32, u32)>)
    ensures
        final(v)@.to_multiset() == old(v)@.to_multiset(),
        forall|i: int, j: int|
            0 <= i < j < final(v)@.len() ==> !ranks_before(
                #[trigger] final(v)@[j],
                #[trigger] final(v)@[i],
            ),
{
    v.sort_unstable_by(|a, b| candidate_order(a, b))
}

} // verus!
