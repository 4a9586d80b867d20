//! Bottom-k sketch: the `k` smallest values of a stream of hashes.
//!
//! The sketch retains its values in a max-heap of at most `k` entries, so
//! that the largest retained value, the one to give up when a smaller value
//! arrives, is at hand.

use crate::heap::{
    ascending, exchange, heap_around, heap_upto, largest, lemma_root_is_largest,
    lemma_root_on_top, over_children, parent, sift_down, sift_up, under_parent,
};
use vstd::multiset::Multiset;
use vstd::prelude::*;
use vstd::seq_lib::{to_multiset_build, to_multiset_len, to_multiset_update};

verus! {

/// What a sketch holds, as mathematics: its target size and the values it
/// retains, each as often as it was retained.
pub struct KmvModel {
    pub k: usize,
    pub retained: Multiset<u64>,
}

impl KmvModel {
    /// No more values are retained than the target size.
    pub open spec fn wf(self) -> bool {
        self.retained.len() <= self.k
    }

    /// The sketch of target size `k` that has seen nothing.
    pub open spec fn empty(k: usize) -> KmvModel {
        KmvModel { k, retained: Multiset::empty() }
    }

    /// The sketch after it has seen `h`. While fewer than `k` values are
    /// retained, `h` is retained. After that `h` takes the place of the
    /// largest retained value where it is smaller than that value, and is
    /// dropped otherwise.
    pub open spec fn observe(self, h: u64) -> KmvModel {
        if self.retained.len() < self.k {
            KmvModel { k: self.k, retained: self.retained.insert(h) }
        } else if self.k > 0 && h < largest(self.retained) {
            KmvModel { k: self.k, retained: self.retained.remove(largest(self.retained)).insert(h) }
        } else {
            self
        }
    }

    /// The sketch after it has seen the values of `stream`, first to last.
    pub open spec fn observe_all(self, stream: Seq<u64>) -> KmvModel
        decreases stream.len(),
    {
        if stream.len() == 0 {
            self
        } else {
            self.observe_all(stream.drop_last()).observe(stream.last())
        }
    }
}

/// `kept` is the `k` smallest of `seen`: it is taken from `seen`, it holds
/// `k` values or all of `seen` where that is fewer, and none of its values is
/// larger than a value of `seen` that it leaves out.
pub open spec fn bottom_k(kept: Multiset<u64>, seen: Multiset<u64>, k: nat) -> bool {
    &&& kept.subset_of(seen)
    &&& kept.len() == if seen.len() < k {
        seen.len()
    } else {
        k
    }
    &&& forall|x: u64, y: u64| kept.contains(x) && seen.sub(kept).contains(y) ==> x <= y
}

/// A multiset that holds a value holds a largest one.
pub proof fn lemma_largest(m: Multiset<u64>)
    requires
        m.len() > 0,
    ensures
        m.contains(largest(m)),
        forall|y: u64| m.contains(y) ==> y <= largest(m),
    decreases m.len(),
{
    broadcast use vstd::multiset::group_multiset_axioms;

    let x = m.choose();
    let rest = m.remove(x);
    assert(m.contains(x));
    if rest.len() == 0 {
        assert forall|y: u64| m.contains(y) implies y <= x by {
            if y != x {
                assert(rest.count(y) == m.count(y));
                assert(rest.count(y) <= rest.len());
            }
        }
        assert(m.contains(x) && forall|y: u64| m.contains(y) ==> y <= x);
    } else {
        lemma_largest(rest);
        let r = largest(rest);
        let top = if x >= r {
            x
        } else {
            r
        };
        assert(m.contains(top));
        assert forall|y: u64| m.contains(y) implies y <= top by {
            if y != x {
                assert(rest.contains(y));
            }
        }
        assert(m.contains(top) && forall|y: u64| m.contains(y) ==> y <= top);
    }
}

/// Seeing one more value keeps the retained values the `k` smallest.
pub proof fn lemma_observe_bottom_k(model: KmvModel, seen: Multiset<u64>, h: u64)
    requires
        bottom_k(model.retained, seen, model.k as nat),
    ensures
        bottom_k(model.observe(h).retained, seen.insert(h), model.k as nat),
{
    broadcast use vstd::multiset::group_multiset_axioms;

    let kept = model.retained;
    let next = model.observe(h).retained;
    let all = seen.insert(h);
    assert(seen.sub(kept).len() == seen.len() - kept.len());
    if kept.len() < model.k {
        assert(all.sub(next) =~= seen.sub(kept));
        assert forall|x: u64, y: u64| next.contains(x) && all.sub(next).contains(y) implies x
            <= y by {
            assert(seen.sub(kept).count(y) <= seen.sub(kept).len());
        }
    } else if model.k > 0 {
        lemma_largest(kept);
        let top = largest(kept);
        if h < top {
            assert(all.sub(next) =~= seen.sub(kept).insert(top));
            assert forall|x: u64, y: u64| next.contains(x) && all.sub(next).contains(y) implies x
                <= y by {
                if y != top {
                    assert(seen.sub(kept).contains(y));
                    assert(kept.contains(top));
                }
                if x != h {
                    assert(kept.contains(x));
                }
            }
        } else {
            assert(all.sub(next) =~= seen.sub(kept).insert(h));
            assert forall|x: u64, y: u64| next.contains(x) && all.sub(next).contains(y) implies x
                <= y by {
                if y != h {
                    assert(seen.sub(kept).contains(y));
                }
            }
        }
    } else {
        assert(kept.len() == 0);
        assert forall|x: u64| !next.contains(x) by {
            assert(kept.count(x) <= kept.len());
        }
    }
}

/// Whatever a sketch of target size `k` is fed, it retains the `k` smallest
/// of the values fed to it: as many values as it was fed, up to `k`, and
/// none of them larger than a value that it dropped.
pub proof fn lemma_retains_bottom_k(k: usize, stream: Seq<u64>)
    ensures
        bottom_k(KmvModel::empty(k).observe_all(stream).retained, stream.to_multiset(), k as nat),
        KmvModel::empty(k).observe_all(stream).k == k,
    decreases stream.len(),
{
    broadcast use vstd::multiset::group_multiset_axioms;

    if stream.len() == 0 {
        to_multiset_len(stream);
        assert(stream.to_multiset() =~= Multiset::empty());
    } else {
        let front = stream.drop_last();
        lemma_retains_bottom_k(k, front);
        to_multiset_build(front, stream.last());
        assert(front.push(stream.last()) =~= stream);
        lemma_observe_bottom_k(KmvModel::empty(k).observe_all(front), front.to_multiset(), stream.last());
    }
}

/// Fed values that are all different, a sketch of target size `k` retains
/// as many values as it was fed different ones, up to `k`.
pub proof fn lemma_retained_len_distinct(k: usize, stream: Seq<u64>)
    requires
        stream.no_duplicates(),
    ensures
        KmvModel::empty(k).observe_all(stream).retained.len() == if stream.to_set().len() < k {
            stream.to_set().len()
        } else {
            k as nat
        },
{
    lemma_retains_bottom_k(k, stream);
    to_multiset_len(stream);
    stream.unique_seq_to_set();
}

/// The `k` smallest of `seen` are one multiset: two that both qualify are
/// equal.
pub proof fn lemma_bottom_k_unique(a: Multiset<u64>, b: Multiset<u64>, seen: Multiset<u64>, k: nat)
    requires
        bottom_k(a, seen, k),
        bottom_k(b, seen, k),
    ensures
        a == b,
{
    broadcast use vstd::multiset::group_multiset_axioms;

    if exists|v: u64| a.count(v) > b.count(v) {
        let v = choose|v: u64| a.count(v) > b.count(v);
        assert(a.contains(v) && seen.sub(b).contains(v));
        if forall|w: u64| b.count(w) <= a.count(w) {
            assert(b.subset_of(a));
            assert(a.sub(b).len() == a.len() - b.len());
            assert(a.sub(b).count(v) <= a.sub(b).len());
        } else {
            let w = choose|w: u64| b.count(w) > a.count(w);
            assert(b.contains(w) && seen.sub(a).contains(w));
        }
    }
    if exists|v: u64| b.count(v) > a.count(v) {
        let v = choose|v: u64| b.count(v) > a.count(v);
        assert(b.contains(v) && seen.sub(a).contains(v));
        assert(a.subset_of(b));
        assert(b.sub(a).len() == b.len() - a.len());
        assert(b.sub(a).count(v) <= b.sub(a).len());
    }
    assert(a =~= b);
}

/// A multiset has one ascending arrangement: two ascending sequences that
/// hold the same values are equal.
pub proof fn lemma_ascending_unique(a: Seq<u64>, b: Seq<u64>)
    requires
        ascending(a),
        ascending(b),
        a.to_multiset() == b.to_multiset(),
    ensures
        a == b,
    decreases a.len(),
{
    broadcast use vstd::multiset::group_multiset_axioms;

    to_multiset_len(a);
    to_multiset_len(b);
    if a.len() > 0 {
        let x = a.last();
        let y = b.last();
        assert(a.contains(x) && b.contains(y));
        vstd::seq_lib::to_multiset_contains(a, x);
        vstd::seq_lib::to_multiset_contains(b, x);
        vstd::seq_lib::to_multiset_contains(a, y);
        vstd::seq_lib::to_multiset_contains(b, y);
        let i = choose|i: int| 0 <= i < b.len() && b[i] == x;
        let j = choose|j: int| 0 <= j < a.len() && a[j] == y;
        assert(x == y);
        to_multiset_build(a.drop_last(), x);
        to_multiset_build(b.drop_last(), y);
        assert(a.drop_last().push(x) =~= a);
        assert(b.drop_last().push(y) =~= b);
        assert(a.drop_last().to_multiset() =~= a.to_multiset().remove(x));
        assert(b.drop_last().to_multiset() =~= b.to_multiset().remove(y));
        lemma_ascending_unique(a.drop_last(), b.drop_last());
    }
    assert(a =~= b);
}

/// Accumulator of the `k` smallest values seen.
pub struct KmvSketch {
    k: usize,
    heap: Vec<u64>,
}

impl View for KmvSketch {
    type V = KmvModel;

    closed spec fn view(&self) -> KmvModel {
        KmvModel { k: self.k, retained: self.heap@.to_multiset() }
    }
}

impl KmvSketch {
    /// The retained values are laid out as a heap.
    pub closed spec fn ordered(&self) -> bool {
        heap_upto(self.heap@, self.heap@.len() as int)
    }

    /// The sketch is in a state that its own operations leave it in.
    pub open spec fn wf(&self) -> bool {
        self@.wf() && self.ordered()
    }

    /// A sketch that keeps the `k` smallest values. With `k == 0` it keeps
    /// none.
    pub fn new(k: usize) -> (sketch: KmvSketch)
        ensures
            sketch.wf(),
            sketch@ == KmvModel::empty(k),
    {
        let sketch = KmvSketch { k, heap: Vec::new() };
        proof {
            broadcast use vstd::multiset::group_multiset_axioms;

            to_multiset_len(sketch.heap@);
            assert(sketch.heap@.to_multiset() =~= Multiset::empty());
        }
        sketch
    }

    /// Takes one more hash value into account.
    pub fn update(&mut self, h: u64)
        requires
            old(self).wf(),
        ensures
            final(self).wf(),
            final(self)@ == old(self)@.observe(h),
    {
        let n: usize = self.heap.len();
        proof {
            to_multiset_len(self.heap@);
        }
        if n < self.k {
            let ghost held = self.heap@;
            self.heap.push(h);
            proof {
                to_multiset_build(held, h);
                to_multiset_len(self.heap@);
                assert forall|j: int|
                    1 <= j < n + 1 && j != n && parent(j) != n implies #[trigger] under_parent(
                    self.heap@,
                    j,
                ) by {
                    assert(under_parent(held, j));
                }
                assert(heap_around(self.heap@, n + 1, n as int));
                assert(over_children(self.heap@, n + 1, n as int));
            }
            sift_up(&mut self.heap, n);
        } else if n > 0 {
            let top: u64 = self.heap[0];
            proof {
                lemma_root_is_largest(self.heap@);
            }
            if h < top {
                let ghost held = self.heap@;
                self.heap[0] = h;
                proof {
                    to_multiset_update(held, 0, h);
                    assert(self.heap@.to_multiset() =~= held.to_multiset().remove(top).insert(h)) by {
                        broadcast use vstd::multiset::group_multiset_axioms;

                    }
                    assert forall|j: int|
                        1 <= j < n && j != 0 && parent(j) != 0 implies #[trigger] under_parent(
                        self.heap@,
                        j,
                    ) by {
                        assert(under_parent(held, j));
                    }
                }
                sift_down(&mut self.heap, 0, n);
            }
        }
    }

    /// The retained values in ascending order. This ends the sketch.
    pub fn finish(self) -> (signature: Vec<u64>)
        requires
            self.wf(),
        ensures
            ascending(signature@),
            signature@.to_multiset() == self@.retained,
            signature@.len() == self@.retained.len(),
    {
        proof {
            to_multiset_len(self.heap@);
        }
        let mut v = self.heap;
        let ghost first = v@;
        let mut end: usize = v.len();
        while end > 1
            invariant
                end <= v@.len(),
                v@.len() == first.len(),
                v@.to_multiset() == first.to_multiset(),
                heap_upto(v@, end as int),
                forall|i: int, j: int| end <= i <= j < v@.len() ==> v@[i] <= v@[j],
                forall|i: int, j: int| 0 <= i < end <= j < v@.len() ==> v@[i] <= v@[j],
            decreases end,
        {
            let ghost held = v@;
            end -= 1;
            proof {
                assert forall|i: int| 0 <= i <= end implies #[trigger] held[i] <= held[0] by {
                    lemma_root_on_top(held, end + 1, i);
                }
            }
            exchange(&mut v, 0, end);
            let ghost turned = v@;
            proof {
                assert forall|j: int|
                    1 <= j < end && j != 0 && parent(j) != 0 implies #[trigger] under_parent(
                    turned,
                    j,
                ) by {
                    assert(under_parent(held, j));
                }
            }
            sift_down(&mut v, 0, end);
            proof {
                assert forall|i: int, j: int| 0 <= i < end <= j < v@.len() implies v@[i] <= v@[j] by {
                    let m = choose|m: int| 0 <= m < end && turned[m] == v@[i];
                    assert(v@[j] == turned[j]);
                }
            }
        }
        proof {
            assert forall|i: int, j: int| 0 <= i <= j < v@.len() implies v@[i] <= v@[j] by {}
        }
        v
    }
}

} // verus!
