//! Classic MinHash: for each of a number of seeded permutations of the
//! 64-bit values, the smallest image of any value seen.

use crate::util::{mix, mix_seeded, mix_with_seed, splitmix64};
use vstd::prelude::*;

verus! {

/// The seed of slot `i`: the mixer applied `i + 1` times to `seed0`, each
/// time to its own last output.
pub open spec fn seed_at(seed0: u64, i: nat) -> u64
    decreases i,
{
    if i == 0 {
        mix(seed0)
    } else {
        mix(seed_at(seed0, (i - 1) as nat))
    }
}

/// The smaller of two values.
pub open spec fn smaller(a: u64, b: u64) -> u64 {
    if b < a {
        b
    } else {
        a
    }
}

/// What a sketch holds, as mathematics: the seed of each slot and the
/// smallest image seen in it.
pub struct MinHashModel {
    pub seeds: Seq<u64>,
    pub mins: Seq<u64>,
}

impl MinHashModel {
    /// The sketch of `n` slots seeded from `seed0` that has seen nothing:
    /// every minimum is the largest 64-bit value.
    pub open spec fn fresh(n: nat, seed0: u64) -> MinHashModel {
        MinHashModel {
            seeds: Seq::new(n, |i: int| seed_at(seed0, i as nat)),
            mins: Seq::new(n, |i: int| u64::MAX),
        }
    }

    /// The sketch after it has seen `x`: each slot keeps the smaller of its
    /// minimum and the image of `x` under its seed.
    pub open spec fn observe(self, x: u64) -> MinHashModel {
        MinHashModel {
            seeds: self.seeds,
            mins: Seq::new(
                self.mins.len(),
                |i: int| smaller(self.mins[i], mix_seeded(x, self.seeds[i])),
            ),
        }
    }

    /// The sketch after it has seen the values of `stream`, first to last.
    pub open spec fn observe_all(self, stream: Seq<u64>) -> MinHashModel
        decreases stream.len(),
    {
        if stream.len() == 0 {
            self
        } else {
            self.observe_all(stream.drop_last()).observe(stream.last())
        }
    }
}

/// Whatever a sketch of `n` slots is fed, it has `n` minima and keeps its
/// seeds, and a sketch that was fed nothing holds the largest 64-bit value
/// in every slot.
pub proof fn lemma_slots_stay(n: nat, seed0: u64, stream: Seq<u64>)
    ensures
        MinHashModel::fresh(n, seed0).observe_all(stream).mins.len() == n,
        MinHashModel::fresh(n, seed0).observe_all(stream).seeds == MinHashModel::fresh(n, seed0).seeds,
        stream.len() == 0 ==> forall|i: int|
            0 <= i < n ==> #[trigger] MinHashModel::fresh(n, seed0).observe_all(stream).mins[i]
                == u64::MAX,
    decreases stream.len(),
{
    if stream.len() > 0 {
        lemma_slots_stay(n, seed0, stream.drop_last());
    }
}

/// Each slot holds the minimum of what it saw: no image of a value fed to
/// the sketch, under the slot's seed, is smaller than the slot's value, and
/// that value is one of those images, or the largest 64-bit value.
pub proof fn lemma_slot_is_minimum(n: nat, seed0: u64, stream: Seq<u64>, i: int)
    requires
        0 <= i < n,
    ensures
        forall|j: int|
            0 <= j < stream.len() ==> MinHashModel::fresh(n, seed0).observe_all(stream).mins[i]
                <= mix_seeded(#[trigger] stream[j], seed_at(seed0, i as nat)),
        MinHashModel::fresh(n, seed0).observe_all(stream).mins[i] == u64::MAX || exists|j: int|
            0 <= j < stream.len() && MinHashModel::fresh(n, seed0).observe_all(stream).mins[i]
                == mix_seeded(#[trigger] stream[j], seed_at(seed0, i as nat)),
    decreases stream.len(),
{
    if stream.len() > 0 {
        let front = stream.drop_last();
        lemma_slots_stay(n, seed0, front);
        lemma_slot_is_minimum(n, seed0, front, i);
        let before = MinHashModel::fresh(n, seed0).observe_all(front);
        let after = MinHashModel::fresh(n, seed0).observe_all(stream);
        assert(after.mins[i] == smaller(before.mins[i], mix_seeded(stream.last(), before.seeds[i])));
        assert forall|j: int| 0 <= j < stream.len() implies after.mins[i] <= mix_seeded(
            #[trigger] stream[j],
            seed_at(seed0, i as nat),
        ) by {
            if j < front.len() {
                assert(front[j] == stream[j]);
            }
        }
        if after.mins[i] != u64::MAX {
            if after.mins[i] == before.mins[i] {
                let j = choose|j: int|
                    0 <= j < front.len() && before.mins[i] == mix_seeded(
                        #[trigger] front[j],
                        seed_at(seed0, i as nat),
                    );
                assert(stream[j] == front[j]);
            } else {
                assert(after.mins[i] == mix_seeded(
                    stream[stream.len() - 1],
                    seed_at(seed0, i as nat),
                ));
            }
        }
    }
}

/// Accumulator of one minimum per seeded permutation.
pub struct MinHash {
    seeds: Vec<u64>,
    mins: Vec<u64>,
}

impl View for MinHash {
    type V = MinHashModel;

    closed spec fn view(&self) -> MinHashModel {
        MinHashModel { seeds: self.seeds@, mins: self.mins@ }
    }
}

impl MinHash {
    /// The sketch has as many minima as seeds.
    pub open spec fn wf(&self) -> bool {
        self@.seeds.len() == self@.mins.len()
    }

    /// A sketch of `num_hashes` slots. The seeds are a chain: the first is
    /// the mixer's output for `seed0`, each next one the mixer's output for
    /// the one before.
    pub fn new(num_hashes: usize, seed0: u64) -> (sketch: MinHash)
        ensures
            sketch.wf(),
            sketch@ == MinHashModel::fresh(num_hashes as nat, seed0),
    {
        let mut seeds: Vec<u64> = Vec::new();
        let mut mins: Vec<u64> = Vec::new();
        let mut s: u64 = seed0;
        let mut i: usize = 0;
        while i < num_hashes
            invariant
                i <= num_hashes,
                seeds@.len() == i,
                mins@.len() == i,
                i > 0 ==> s == seed_at(seed0, (i - 1) as nat),
                i == 0 ==> s == seed0,
                forall|j: int| 0 <= j < i ==> seeds@[j] == seed_at(seed0, j as nat),
                forall|j: int| 0 <= j < i ==> mins@[j] == u64::MAX,
            decreases num_hashes - i,
        {
            s = splitmix64(s);
            seeds.push(s);
            mins.push(u64::MAX);
            i += 1;
        }
        let sketch = MinHash { seeds, mins };
        proof {
            assert(sketch@.seeds =~= MinHashModel::fresh(num_hashes as nat, seed0).seeds);
            assert(sketch@.mins =~= MinHashModel::fresh(num_hashes as nat, seed0).mins);
        }
        sketch
    }

    /// Takes one more hash value into account, in every slot.
    pub fn update(&mut self, x: u64)
        requires
            old(self).wf(),
        ensures
            final(self).wf(),
            final(self)@ == old(self)@.observe(x),
    {
        let n: usize = self.seeds.len();
        let ghost before = self@;
        let mut i: usize = 0;
        while i < n
            invariant
                i <= n,
                n == before.seeds.len(),
                before.seeds.len() == before.mins.len(),
                self@.seeds == before.seeds,
                self@.mins.len() == before.mins.len(),
                forall|j: int| 0 <= j < i ==> self@.mins[j] == before.observe(x).mins[j],
                forall|j: int| i <= j < n ==> self@.mins[j] == before.mins[j],
            decreases n - i,
        {
            let h: u64 = mix_with_seed(x, self.seeds[i]);
            if h < self.mins[i] {
                self.mins[i] = h;
            }
            i += 1;
        }
        proof {
            assert(self@.mins =~= before.observe(x).mins);
        }
    }

    /// The minima, slot by slot. This ends the sketch.
    pub fn finish(self) -> (signature: Vec<u64>)
        ensures
            signature@ == self@.mins,
    {
        self.mins
    }
}

} // verus!
