//! A binary max-heap laid out in a vector: the parent of position `j` is
//! position `(j - 1) / 2`, and no value is larger than its parent.

use vstd::multiset::Multiset;
use vstd::prelude::*;
use vstd::seq_lib::{to_multiset_contains, to_multiset_update};

verus! {

/// The position above `j` in the heap.
pub open spec fn parent(j: int) -> int {
    (j - 1) / 2
}

/// The value at `j` is at most the value above it.
pub open spec fn under_parent(s: Seq<u64>, j: int) -> bool {
    s[parent(j)] >= s[j]
}

/// The value at `j` is at most the value two levels above it.
pub open spec fn under_grandparent(s: Seq<u64>, j: int) -> bool {
    s[parent(parent(j))] >= s[j]
}

/// The first `n` values are a heap: each is at most its parent.
pub open spec fn heap_upto(s: Seq<u64>, n: int) -> bool {
    forall|j: int| 1 <= j < n ==> #[trigger] under_parent(s, j)
}

/// The first `n` values are a heap but, perhaps, for what stands at `hole`:
/// every value is at most its parent where neither of the two is at `hole`,
/// and what stands right below `hole` is at most what stands right above it.
pub open spec fn heap_around(s: Seq<u64>, n: int, hole: int) -> bool {
    &&& forall|j: int|
        1 <= j < n && j != hole && parent(j) != hole ==> #[trigger] under_parent(s, j)
    &&& forall|j: int|
        1 <= j < n && parent(j) == hole && hole >= 1 ==> #[trigger] under_grandparent(s, j)
}

/// The values at the positions right below `at` are at most the value at `at`.
pub open spec fn over_children(s: Seq<u64>, n: int, at: int) -> bool {
    forall|j: int| 1 <= j < n && parent(j) == at ==> #[trigger] under_parent(s, j)
}

/// The values stand in ascending order.
pub open spec fn ascending(s: Seq<u64>) -> bool {
    forall|i: int, j: int| 0 <= i <= j < s.len() ==> s[i] <= s[j]
}

/// The largest value that `m` holds.
pub open spec fn largest(m: Multiset<u64>) -> u64 {
    choose|x: u64| m.contains(x) && forall|y: u64| m.contains(y) ==> y <= x
}

/// `x` stands among the first `n` values of `s`.
pub open spec fn among(s: Seq<u64>, n: int, x: u64) -> bool {
    exists|m: int| 0 <= m < n && s[m] == x
}

/// `s` with the values at `i` and `j` exchanged.
pub open spec fn exchanged(s: Seq<u64>, i: int, j: int) -> Seq<u64> {
    s.update(i, s[j]).update(j, s[i])
}

/// The root of a heap is at least every value in it.
pub proof fn lemma_root_on_top(s: Seq<u64>, n: int, j: int)
    requires
        heap_upto(s, n),
        0 <= j < n <= s.len(),
    ensures
        s[0] >= s[j],
    decreases j,
{
    if j > 0 {
        assert(under_parent(s, j));
        lemma_root_on_top(s, n, parent(j));
    }
}

/// The root of a heap that fills its sequence is the largest value held.
pub proof fn lemma_root_is_largest(s: Seq<u64>)
    requires
        heap_upto(s, s.len() as int),
        s.len() > 0,
    ensures
        s[0] == largest(s.to_multiset()),
        s.to_multiset().contains(s[0]),
{
    let m = s.to_multiset();
    assert forall|y: u64| m.contains(y) implies y <= s[0] by {
        to_multiset_contains(s, y);
        let j = choose|j: int| 0 <= j < s.len() && s[j] == y;
        lemma_root_on_top(s, s.len() as int, j);
    }
    assert(s.contains(s[0]));
    to_multiset_contains(s, s[0]);
    assert(m.contains(s[0]));
    let x = largest(m);
    assert(m.contains(x) && forall|y: u64| m.contains(y) ==> y <= x);
}

/// Exchanging two values keeps what the sequence holds.
pub proof fn lemma_exchange_holds(s: Seq<u64>, i: int, j: int)
    requires
        0 <= i < s.len(),
        0 <= j < s.len(),
    ensures
        exchanged(s, i, j).to_multiset() == s.to_multiset(),
{
    broadcast use vstd::multiset::group_multiset_axioms;

    let s1 = s.update(i, s[j]);
    to_multiset_update(s, i, s[j]);
    to_multiset_update(s1, j, s[i]);
    assert(s.contains(s[i]) && s.contains(s[j]));
    to_multiset_contains(s, s[i]);
    to_multiset_contains(s, s[j]);
    assert(s1.update(j, s[i]).to_multiset() =~= s.to_multiset());
}

/// A value that is at least both values below it closes the hole.
proof fn lemma_hole_closed(s: Seq<u64>, n: int, hole: int)
    requires
        0 <= hole < n <= s.len(),
        heap_around(s, n, hole),
        hole >= 1 ==> under_parent(s, hole),
        over_children(s, n, hole),
    ensures
        heap_upto(s, n),
{
    assert forall|j: int| 1 <= j < n implies #[trigger] under_parent(s, j) by {
        if j != hole && parent(j) != hole {
            assert(under_parent(s, j));
        }
    }
}

/// Exchanging the value at the hole with the larger value below it moves
/// the hole down one level.
proof fn lemma_hole_sinks(s: Seq<u64>, n: int, hole: int, child: int)
    requires
        0 <= hole < child < n <= s.len(),
        parent(child) == hole,
        heap_around(s, n, hole),
        hole >= 1 ==> under_parent(s, hole),
        s[child] > s[hole],
        forall|j: int| 1 <= j < n && parent(j) == hole ==> s[child] >= #[trigger] s[j],
    ensures
        heap_around(exchanged(s, hole, child), n, child),
        under_parent(exchanged(s, hole, child), child),
{
    let t = exchanged(s, hole, child);
    assert forall|j: int| 1 <= j < n && j != child && parent(j) != child implies #[trigger] under_parent(
        t,
        j,
    ) by {
        if j == hole {
            assert(under_grandparent(s, child));
        } else if parent(j) == hole {
            assert(s[child] >= s[j]);
        } else {
            assert(under_parent(s, j));
        }
    }
    assert forall|j: int| 1 <= j < n && parent(j) == child && child >= 1 implies #[trigger] under_grandparent(
        t,
        j,
    ) by {
        assert(under_parent(s, j));
    }
}

/// Exchanging the value at the hole with the smaller value above it moves
/// the hole up one level.
proof fn lemma_hole_rises(s: Seq<u64>, n: int, hole: int)
    requires
        1 <= hole < n <= s.len(),
        heap_around(s, n, hole),
        over_children(s, n, hole),
        s[parent(hole)] < s[hole],
    ensures
        heap_around(exchanged(s, parent(hole), hole), n, parent(hole)),
        over_children(exchanged(s, parent(hole), hole), n, parent(hole)),
{
    let above = parent(hole);
    let t = exchanged(s, above, hole);
    assert forall|j: int| 1 <= j < n && j != above && parent(j) != above implies #[trigger] under_parent(
        t,
        j,
    ) by {
        if parent(j) == hole {
            assert(under_grandparent(s, j));
        } else {
            assert(under_parent(s, j));
        }
    }
    assert forall|j: int| 1 <= j < n && parent(j) == above && above >= 1 implies #[trigger] under_grandparent(
        t,
        j,
    ) by {
        assert(under_parent(s, above));
        if j != hole {
            assert(under_parent(s, j));
        }
    }
    assert forall|j: int| 1 <= j < n && parent(j) == above implies #[trigger] under_parent(t, j) by {
        if j != hole {
            assert(under_parent(s, j));
        }
    }
}

/// Exchanges the values at `i` and `j`.
pub(crate) fn exchange(v: &mut Vec<u64>, i: usize, j: usize)
    requires
        i < old(v).len(),
        j < old(v).len(),
    ensures
        final(v)@ == exchanged(old(v)@, i as int, j as int),
        final(v)@.to_multiset() == old(v)@.to_multiset(),
{
    proof {
        lemma_exchange_holds(v@, i as int, j as int);
    }
    let a: u64 = v[i];
    let b: u64 = v[j];
    v[i] = b;
    v[j] = a;
}

/// Lets the value at `start` sink, within the first `n` values, until both
/// values below it are no larger. What stood elsewhere was a heap already.
pub(crate) fn sift_down(v: &mut Vec<u64>, start: usize, n: usize)
    requires
        start < n <= old(v).len(),
        heap_around(old(v)@, n as int, start as int),
        start >= 1 ==> under_parent(old(v)@, start as int),
    ensures
        final(v)@.len() == old(v)@.len(),
        heap_upto(final(v)@, n as int),
        final(v)@.to_multiset() == old(v)@.to_multiset(),
        forall|k: int| 0 <= k < n ==> among(old(v)@, n as int, #[trigger] final(v)@[k]),
        forall|k: int| n <= k < old(v)@.len() ==> final(v)@[k] == old(v)@[k],
{
    let ghost first = v@;
    let mut i: usize = start;
    loop
        invariant
            i < n <= v@.len(),
            v@.len() == first.len(),
            heap_around(v@, n as int, i as int),
            i >= 1 ==> under_parent(v@, i as int),
            v@.to_multiset() == first.to_multiset(),
            forall|k: int| 0 <= k < n ==> among(first, n as int, #[trigger] v@[k]),
            forall|k: int| n <= k < first.len() ==> v@[k] == first[k],
        ensures
            v@.len() == first.len(),
            heap_upto(v@, n as int),
            v@.to_multiset() == first.to_multiset(),
            forall|k: int| 0 <= k < n ==> among(first, n as int, #[trigger] v@[k]),
            forall|k: int| n <= k < first.len() ==> v@[k] == first[k],
        decreases n - i,
    {
        if i >= n / 2 {
            proof {
                lemma_hole_closed(v@, n as int, i as int);
            }
            break ;
        }
        let left: usize = 2 * i + 1;
        let right: usize = left + 1;
        let mut child: usize = left;
        if right < n && v[right] > v[left] {
            child = right;
        }
        if v[child] <= v[i] {
            proof {
                lemma_hole_closed(v@, n as int, i as int);
            }
            break ;
        }
        let ghost held = v@;
        proof {
            lemma_hole_sinks(held, n as int, i as int, child as int);
        }
        exchange(v, i, child);
        proof {
            assert forall|k: int| 0 <= k < n implies among(first, n as int, #[trigger] v@[k]) by {
                if k == i {
                    assert(among(first, n as int, held[child as int]));
                } else if k == child {
                    assert(among(first, n as int, held[i as int]));
                } else {
                    assert(among(first, n as int, held[k]));
                }
            }
        }
        i = child;
    }
}

/// Lets the value at `start` rise until the value above it is no smaller.
/// What stood elsewhere was a heap already.
pub(crate) fn sift_up(v: &mut Vec<u64>, start: usize)
    requires
        start < old(v).len(),
        heap_around(old(v)@, old(v)@.len() as int, start as int),
        over_children(old(v)@, old(v)@.len() as int, start as int),
    ensures
        final(v)@.len() == old(v)@.len(),
        heap_upto(final(v)@, final(v)@.len() as int),
        final(v)@.to_multiset() == old(v)@.to_multiset(),
{
    let ghost first = v@;
    let mut i: usize = start;
    loop
        invariant
            i < v@.len(),
            v@.len() == first.len(),
            heap_around(v@, v@.len() as int, i as int),
            over_children(v@, v@.len() as int, i as int),
            v@.to_multiset() == first.to_multiset(),
        ensures
            v@.len() == first.len(),
            heap_upto(v@, v@.len() as int),
            v@.to_multiset() == first.to_multiset(),
        decreases i,
    {
        if i == 0 {
            proof {
                lemma_hole_closed(v@, v@.len() as int, 0);
            }
            break ;
        }
        let above: usize = (i - 1) / 2;
        if v[above] >= v[i] {
            proof {
                lemma_hole_closed(v@, v@.len() as int, i as int);
            }
            break ;
        }
        proof {
            lemma_hole_rises(v@, v@.len() as int, i as int);
        }
        exchange(v, above, i);
        i = above;
    }
}

} // verus!
