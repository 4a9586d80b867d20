//! Comparison of two signatures, position by position.
//!
//! The estimate of the Jaccard similarity of two items is the share of
//! positions at which their signatures agree. This module counts; the
//! division is left to the caller.

use vstd::prelude::*;

verus! {

/// The number of positions that two signatures have in common: the length
/// of the shorter one.
pub open spec fn compared(a: Seq<u64>, b: Seq<u64>) -> nat {
    if a.len() <= b.len() {
        a.len()
    } else {
        b.len()
    }
}

/// How many of the first `n` positions hold the same value in `a` and `b`.
pub open spec fn agreeing(a: Seq<u64>, b: Seq<u64>, n: nat) -> nat
    decreases n,
{
    if n == 0 {
        0
    } else {
        agreeing(a, b, (n - 1) as nat) + if a[n - 1] == b[n - 1] {
            1nat
        } else {
            0nat
        }
    }
}

/// No more positions agree than are compared.
pub proof fn lemma_agreeing_bound(a: Seq<u64>, b: Seq<u64>, n: nat)
    ensures
        agreeing(a, b, n) <= n,
    decreases n,
{
    if n > 0 {
        lemma_agreeing_bound(a, b, (n - 1) as nat);
    }
}

/// A signature agrees with itself at every position.
pub proof fn lemma_agreeing_self(s: Seq<u64>, n: nat)
    ensures
        agreeing(s, s, n) == n,
    decreases n,
{
    if n > 0 {
        lemma_agreeing_self(s, (n - 1) as nat);
    }
}

/// Two signatures agree as often in one order as in the other, and as many
/// positions are compared.
pub proof fn lemma_agreeing_symmetric(a: Seq<u64>, b: Seq<u64>, n: nat)
    ensures
        agreeing(a, b, n) == agreeing(b, a, n),
        compared(a, b) == compared(b, a),
    decreases n,
{
    if n > 0 {
        lemma_agreeing_symmetric(a, b, (n - 1) as nat);
    }
}

/// Counts the positions at which two signatures agree. The result is the
/// pair of that count and of the number of positions compared, which is the
/// length of the shorter signature; the count over that number estimates the
/// similarity, and with no position to compare the estimate is zero.
pub fn signature_agreement(a: &[u64], b: &[u64]) -> (r: (usize, usize))
    ensures
        r.1 == compared(a@, b@),
        r.0 == agreeing(a@, b@, compared(a@, b@)),
        r.0 <= r.1,
{
    let n: usize = if a.len() <= b.len() {
        a.len()
    } else {
        b.len()
    };
    let mut eq: usize = 0;
    let mut i: usize = 0;
    while i < n
        invariant
            i <= n,
            n == compared(a@, b@),
            eq == agreeing(a@, b@, i as nat),
            eq <= i,
        decreases n - i,
    {
        if a[i] == b[i] {
            eq += 1;
        }
        i += 1;
    }
    (eq, n)
}

} // verus!
