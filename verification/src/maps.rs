//! The two hash maps of the index, as far as the index relies on them.
//!
//! Both are `hashbrown` maps hashed with `rustc_hash::FxBuildHasher`. What
//! they hold is named by `band_buckets` and `tallies`; the functions of this
//! module state, over those names, what the map operations do. None of
//! these statements is proved here: they restate what `hashbrown` documents.

use vstd::prelude::*;

verus! {

/// One band's buckets: a hash map from band key to the ids filed under it.
#[verifier::external_body]
pub struct BandMap {
    inner: hashbrown::HashMap<u64, Vec<u32>, rustc_hash::FxBuildHasher>,
}

/// The buckets that a band map holds: each key with its ids, oldest first.
pub uninterp spec fn band_buckets(m: BandMap) -> Map<u64, Seq<u32>>;

/// The ids filed under `key`, none where the key is absent.
pub open spec fn bucket_of(buckets: Map<u64, Seq<u32>>, key: u64) -> Seq<u32> {
    if buckets.contains_key(key) {
        buckets[key]
    } else {
        Seq::empty()
    }
}

/// `hashbrown::HashMap::with_hasher`, given `rustc_hash::FxBuildHasher`:
/// the new map holds no key.
#[verifier::external_body]
pub(crate) fn band_map_new() -> (m: BandMap)
    ensures
        forall|key: u64| !band_buckets(m).contains_key(key),
{
    BandMap { inner: hashbrown::HashMap::with_hasher(rustc_hash::FxBuildHasher::default()) }
}

/// `hashbrown::HashMap::entry` followed by `Entry::or_default`: hands out the
/// bucket under `key`, which is the stored one or, where the key was absent,
/// a new empty one. Whatever the caller leaves in it is what the map then
/// holds under `key`; no other key changes.
#[verifier::external_body]
pub(crate) fn band_map_slot(m: &mut BandMap, key: u64) -> (ids: &mut Vec<u32>)
    ensures
        ids@ == bucket_of(band_buckets(*old(m)), key),
        band_buckets(*final(m)) == band_buckets(*old(m)).insert(key, final(ids)@),
{
    m.inner.entry(key).or_default()
}

/// `hashbrown::HashMap::get`: the bucket under `key`, if the map has one.
#[verifier::external_body]
pub(crate) fn band_map_get(m: &BandMap, key: u64) -> (found: Option<&Vec<u32>>)
    ensures
        found is Some <==> band_buckets(*m).contains_key(key),
        found matches Some(ids) ==> ids@ == band_buckets(*m)[key],
{
    m.inner.get(&key)
}

/// `hashbrown::HashMap::shrink_to_fit`: gives back spare table capacity and
/// leaves every key and bucket as it was.
#[verifier::external_body]
pub(crate) fn band_map_shrink(m: &mut BandMap)
    ensures
        band_buckets(*final(m)) == band_buckets(*old(m)),
{
    m.inner.shrink_to_fit()
}

/// The collision counters of one query: a hash map from id to count.
#[verifier::external_body]
pub struct TallyMap {
    inner: hashbrown::HashMap<u32, u32, rustc_hash::FxBuildHasher>,
}

/// The counts that a tally map holds, by id.
pub uninterp spec fn tallies(m: TallyMap) -> Map<u32, u32>;

/// The count of `id`, zero where the map has none.
pub open spec fn tally_of(counts: Map<u32, u32>, id: u32) -> nat {
    if counts.contains_key(id) {
        counts[id] as nat
    } else {
        0
    }
}

/// `hashbrown::HashMap::with_hasher`, given `rustc_hash::FxBuildHasher`:
/// the new map holds no id.
#[verifier::external_body]
pub(crate) fn tally_map_new() -> (m: TallyMap)
    ensures
        forall|id: u32| !tallies(m).contains_key(id),
{
    TallyMap { inner: hashbrown::HashMap::with_hasher(rustc_hash::FxBuildHasher::default()) }
}

/// `hashbrown::HashMap::entry` followed by `Entry::or_insert` with zero:
/// hands out the counter of `id`, which holds the stored count or, where the
/// id was absent, zero. Whatever the caller leaves in it is what the map then
/// holds for `id`; no other id changes.
#[verifier::external_body]
pub(crate) fn tally_map_slot(m: &mut TallyMap, id: u32) -> (count: &mut u32)
    ensures
        *count == tally_of(tallies(*old(m)), id),
        tallies(*final(m)) == tallies(*old(m)).insert(id, *final(count)),
{
    m.inner.entry(id).or_insert(0)
}

/// `IntoIterator::into_iter` of `hashbrown::HashMap`, collected: every id
/// of the map with its count, each id once, in an order that is left open.
#[verifier::external_body]
pub(crate) fn tally_map_entries(m: TallyMap) -> (entries: Vec<(u32, u32)>)
    ensures
        forall|i: int|
            0 <= i < entries@.len() ==> tallies(m).contains_key((#[trigger] entries@[i]).0)
                && tallies(m)[entries@[i].0] == entries@[i].1,
        forall|i: int, j: int|
            0 <= i < j < entries@.len() ==> (#[trigger] entries@[i]).0 != (#[trigger] entries@[j]).0,
        forall|id: u32|
            tallies(m).contains_key(id) ==> exists|i: int|
                0 <= i < entries@.len() && (#[trigger] entries@[i]).0 == id,
{
    m.inner.into_iter().collect()
}

} // verus!
