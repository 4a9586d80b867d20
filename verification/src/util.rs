//! The deterministic 64-bit mixer (splitmix64) and the two hashes built on it.

use vstd::prelude::*;

verus! {

/// Increment added to the input before the two mixing rounds.
pub const GOLDEN_GAMMA: u64 = 0x9E3779B97F4A7C15;

/// Multiplier of the first mixing round.
pub const MIX_MUL_1: u64 = 0xBF58476D1CE4E5B9;

/// Multiplier of the second mixing round.
pub const MIX_MUL_2: u64 = 0x94D049BB133111EB;

/// Value xor-ed into the seed of a band hash before any element is folded in.
pub const BAND_SALT: u64 = 0xDEADBEEFDEADBEEF;

/// One xor-shift-multiply round: `(z ^ (z >> shift)) * mul` modulo 2^64.
pub open spec fn mix_round(z: u64, shift: u64, mul: u64) -> u64 {
    (z ^ (z >> shift)).wrapping_mul(mul)
}

/// The splitmix64 output for `x`.
pub open spec fn mix(x: u64) -> u64 {
    let z0 = x.wrapping_add(GOLDEN_GAMMA);
    let z1 = mix_round(z0, 30, MIX_MUL_1);
    let z2 = mix_round(z1, 27, MIX_MUL_2);
    z2 ^ (z2 >> 31u64)
}

/// The mixer applied to `x` combined with `seed`.
pub open spec fn mix_seeded(x: u64, seed: u64) -> u64 {
    mix(x ^ seed)
}

/// The key of a chunk: start from `seed ^ BAND_SALT` and fold each element
/// in, first to last, by `acc = mix(acc ^ v)`.
pub open spec fn band_hash(chunk: Seq<u64>, seed: u64) -> u64
    decreases chunk.len(),
{
    if chunk.len() == 0 {
        seed ^ BAND_SALT
    } else {
        mix(band_hash(chunk.drop_last(), seed) ^ chunk.last())
    }
}

/// Mixes a 64-bit value into a well-distributed 64-bit value. The result
/// depends on `x` alone.
pub fn splitmix64(x: u64) -> (r: u64)
    ensures
        r == mix(x),
{
    let z0: u64 = x.wrapping_add(GOLDEN_GAMMA);
    let z1: u64 = (z0 ^ (z0 >> 30)).wrapping_mul(MIX_MUL_1);
    let z2: u64 = (z1 ^ (z1 >> 27)).wrapping_mul(MIX_MUL_2);
    z2 ^ (z2 >> 31)
}

/// Mixes `x` under `seed`: one permutation of the 64-bit values per seed.
pub fn mix_with_seed(x: u64, seed: u64) -> (r: u64)
    ensures
        r == mix_seeded(x, seed),
{
    splitmix64(x ^ seed)
}

/// Folds a chunk of values into one 64-bit key, in order.
pub fn hash_band(chunk: &[u64], seed: u64) -> (r: u64)
    ensures
        r == band_hash(chunk@, seed),
{
    let mut acc: u64 = seed ^ BAND_SALT;
    let mut i: usize = 0;
    while i < chunk.len()
        invariant
            i <= chunk.len(),
            acc == band_hash(chunk@.take(i as int), seed),
        decreases chunk.len() - i,
    {
        proof {
            assert(chunk@.take(i + 1).drop_last() =~= chunk@.take(i as int));
        }
        acc = splitmix64(acc ^ chunk[i]);
        i += 1;
    }
    proof {
        assert(chunk@.take(chunk.len() as int) =~= chunk@);
    }
    acc
}

} // verus!
