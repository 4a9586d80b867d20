//! Banding of signatures into buckets, and candidate lookup.
//!
//! A signature is cut into `bands` consecutive chunks of `rows_per_band`
//! values. Each chunk is folded into a 64-bit key, and the item's id is
//! appended to the bucket that the band keeps under that key. Two items are
//! candidates for each other as often as their ids share a bucket.

use crate::errors::LshError;
use crate::maps::{
    band_buckets, band_map_get, band_map_new, band_map_shrink, band_map_slot, bucket_of, tallies,
    tally_map_entries, tally_map_new, tally_map_slot, tally_of, BandMap, TallyMap,
};
use crate::rank::{ranks_before, sort_candidates};
use crate::util::{band_hash, hash_band};
use vstd::prelude::*;

verus! {

/// Seed that diversifies the keys of the bands: band `b` hashes under
/// `b ^ INDEX_SEED`. It is fixed, so two indices with the same parameters
/// give the same signature the same keys.
pub const INDEX_SEED: u64 = 0xC0FFEEFADE;

/// How a signature is cut: `bands` chunks of `rows_per_band` values each.
#[derive(Clone, Copy, Debug, PartialEq, Eq, Structural)]
pub struct LshParams {
    pub bands: usize,
    pub rows_per_band: usize,
}

/// Why a pair of numbers is no banding.
#[derive(Debug, Clone, Copy, PartialEq, Eq, Structural)]
pub enum LshParamsError {
    /// `bands` or `rows_per_band` was zero.
    Zero,
}

impl LshParams {
    /// Both counts are positive.
    pub open spec fn positive(&self) -> bool {
        self.bands > 0 && self.rows_per_band > 0
    }

    /// The number of values that the banding reads from a signature.
    pub open spec fn signature_len_spec(&self) -> nat {
        (self.bands * self.rows_per_band) as nat
    }

    /// The banding is positive and the length it reads is a `usize`.
    pub open spec fn wf(&self) -> bool {
        self.positive() && self.signature_len_spec() <= usize::MAX
    }

    /// Accepts any two positive counts and rejects a zero.
    pub fn new(bands: usize, rows_per_band: usize) -> (r: Result<LshParams, LshParamsError>)
        ensures
            r is Err <==> bands == 0 || rows_per_band == 0,
            r matches Err(e) ==> e == LshParamsError::Zero,
            r matches Ok(p) ==> p.bands == bands && p.rows_per_band == rows_per_band,
    {
        if bands == 0 || rows_per_band == 0 {
            return Err(LshParamsError::Zero);
        }
        Ok(LshParams { bands, rows_per_band })
    }

    /// `bands * rows_per_band`, where that product is a `usize`.
    pub fn signature_len(&self) -> (n: usize)
        requires
            self.signature_len_spec() <= usize::MAX,
        ensures
            n == self.signature_len_spec(),
    {
        self.bands * self.rows_per_band
    }
}

/// How often `id` stands in `ids`.
pub open spec fn occurrences(ids: Seq<u32>, id: u32) -> nat
    decreases ids.len(),
{
    if ids.len() == 0 {
        0
    } else {
        occurrences(ids.drop_last(), id) + if ids.last() == id {
            1nat
        } else {
            0nat
        }
    }
}

/// What an index holds, as mathematics: its banding, the seed of its band
/// keys and, for each band, the buckets by key.
pub struct IndexModel {
    pub params: LshParams,
    pub seed: u64,
    pub buckets: Seq<Map<u64, Seq<u32>>>,
}

impl IndexModel {
    /// The banding is well formed, the seed is `INDEX_SEED` and there is one
    /// bucket map per band.
    pub open spec fn wf(self) -> bool {
        self.params.wf() && self.seed == INDEX_SEED && self.buckets.len() == self.params.bands
    }

    /// The chunk of `sig` that band `b` reads.
    pub open spec fn chunk(self, sig: Seq<u64>, b: int) -> Seq<u64> {
        sig.subrange(b * self.params.rows_per_band, (b + 1) * self.params.rows_per_band)
    }

    /// The key under which band `b` files `sig`.
    pub open spec fn band_key(self, sig: Seq<u64>, b: int) -> u64 {
        band_hash(self.chunk(sig, b), (b as u64) ^ self.seed)
    }

    /// The ids that band `b` files under the key of `sig`.
    pub open spec fn bucket(self, sig: Seq<u64>, b: int) -> Seq<u32> {
        bucket_of(self.buckets[b], self.band_key(sig, b))
    }

    /// How often `id` stands in the buckets that the first `n` bands keep
    /// under the keys of `sig`.
    pub open spec fn collisions_in(self, sig: Seq<u64>, id: u32, n: nat) -> nat
        decreases n,
    {
        if n == 0 {
            0
        } else {
            self.collisions_in(sig, id, (n - 1) as nat) + occurrences(self.bucket(sig, n - 1), id)
        }
    }

    /// The collision count of `id` for `sig`: how often `id` stands in the
    /// buckets that the bands keep under the keys of `sig`, all bands taken
    /// together and every occurrence counted.
    pub open spec fn collisions(self, sig: Seq<u64>, id: u32) -> nat {
        self.collisions_in(sig, id, self.params.bands as nat)
    }

    /// How many ids the first `n` bands keep under the keys of `sig`.
    pub open spec fn matched_in(self, sig: Seq<u64>, n: nat) -> nat
        decreases n,
    {
        if n == 0 {
            0
        } else {
            self.matched_in(sig, (n - 1) as nat) + self.bucket(sig, n - 1).len()
        }
    }

    /// How many ids the bands keep under the keys of `sig`, all together. No
    /// id collides with `sig` more often than this.
    pub open spec fn matched(self, sig: Seq<u64>) -> nat {
        self.matched_in(sig, self.params.bands as nat)
    }

    /// `id` is a candidate for `sig`: it collides at least once, and at
    /// least `min_collisions` times.
    pub open spec fn is_candidate(self, sig: Seq<u64>, min_collisions: usize, id: u32) -> bool {
        self.collisions(sig, id) >= 1 && self.collisions(sig, id) >= min_collisions
    }

    /// `out` is the answer to the query: it lists the candidates, each once
    /// and with its collision count, those with more collisions first and,
    /// among equals, the smaller id first.
    pub open spec fn answers(self, sig: Seq<u64>, min_collisions: usize, out: Seq<(u32, u32)>) -> bool {
        &&& forall|i: int|
            0 <= i < out.len() ==> self.is_candidate(sig, min_collisions, (#[trigger] out[i]).0)
                && out[i].1 == self.collisions(sig, out[i].0)
        &&& forall|id: u32|
            self.is_candidate(sig, min_collisions, id) ==> exists|i: int|
                0 <= i < out.len() && (#[trigger] out[i]).0 == id
        &&& forall|i: int, j: int|
            0 <= i < j < out.len() ==> ranks_before(#[trigger] out[i], #[trigger] out[j])
    }

    /// Band `b` after `id` was filed under the key of `sig`.
    pub open spec fn band_with(self, id: u32, sig: Seq<u64>, b: int) -> Map<u64, Seq<u32>> {
        self.buckets[b].insert(self.band_key(sig, b), self.bucket(sig, b).push(id))
    }

    /// The index after `id` was filed under `sig` in every band.
    pub open spec fn with_item(self, id: u32, sig: Seq<u64>) -> IndexModel {
        IndexModel {
            params: self.params,
            seed: self.seed,
            buckets: Seq::new(self.buckets.len(), |b: int| self.band_with(id, sig, b)),
        }
    }

    /// The first `n` bands hold no more collisions than the first `m`, for
    /// `n` up to `m`.
    pub proof fn lemma_collisions_grow(self, sig: Seq<u64>, id: u32, n: nat, m: nat)
        requires
            n <= m,
        ensures
            self.collisions_in(sig, id, n) <= self.collisions_in(sig, id, m),
        decreases m,
    {
        if n < m {
            self.lemma_collisions_grow(sig, id, n, (m - 1) as nat);
        }
    }

    /// The first `n` bands match no more ids than the first `m`, for `n` up
    /// to `m`.
    pub proof fn lemma_matched_grow(self, sig: Seq<u64>, n: nat, m: nat)
        requires
            n <= m,
        ensures
            self.matched_in(sig, n) <= self.matched_in(sig, m),
        decreases m,
    {
        if n < m {
            self.lemma_matched_grow(sig, n, (m - 1) as nat);
        }
    }

    /// An id collides no more often than there are ids in the matched
    /// buckets.
    pub proof fn lemma_collisions_matched(self, sig: Seq<u64>, id: u32, n: nat)
        ensures
            self.collisions_in(sig, id, n) <= self.matched_in(sig, n),
        decreases n,
    {
        if n > 0 {
            self.lemma_collisions_matched(sig, id, (n - 1) as nat);
            lemma_occurrences_bound(self.bucket(sig, n - 1), id);
        }
    }

    /// Filing an item under a signature and asking for that signature finds
    /// the item in every band: where `id` stood in none of the buckets that
    /// `sig` selects, it afterwards collides with `sig` exactly `bands`
    /// times, and every answer to a query for `sig` that asks for `bands`
    /// collisions lists it with that count.
    pub proof fn lemma_round_trip(self, id: u32, sig: Seq<u64>)
        requires
            self.wf(),
            sig.len() >= self.params.signature_len_spec(),
            forall|b: int| 0 <= b < self.params.bands ==> occurrences(self.bucket(sig, b), id) == 0,
        ensures
            self.with_item(id, sig).collisions(sig, id) == self.params.bands,
            forall|out: Seq<(u32, u32)>| #[trigger]
                self.with_item(id, sig).answers(sig, self.params.bands, out) ==> exists|i: int|
                    0 <= i < out.len() && (#[trigger] out[i]).0 == id && out[i].1
                        == self.params.bands,
    {
        let after = self.with_item(id, sig);
        after.lemma_round_trip_bands(self, id, sig, self.params.bands as nat);
        assert(after.is_candidate(sig, self.params.bands, id));
    }

    /// The induction behind `lemma_round_trip`, over the bands counted so far.
    proof fn lemma_round_trip_bands(self, before: IndexModel, id: u32, sig: Seq<u64>, n: nat)
        requires
            before.wf(),
            self == before.with_item(id, sig),
            n <= before.params.bands,
            forall|b: int|
                0 <= b < before.params.bands ==> occurrences(before.bucket(sig, b), id) == 0,
        ensures
            self.collisions_in(sig, id, n) == n,
        decreases n,
    {
        if n > 0 {
            self.lemma_round_trip_bands(before, id, sig, (n - 1) as nat);
            let b = n - 1;
            assert(self.band_key(sig, b) == before.band_key(sig, b));
            assert(self.buckets[b] == before.band_with(id, sig, b));
            assert(self.bucket(sig, b) == before.bucket(sig, b).push(id));
            assert(before.bucket(sig, b).push(id).drop_last() =~= before.bucket(sig, b));
        }
    }

    /// A query has one answer: two lists that both answer it are equal. So
    /// the answer depends on what the index holds and on nothing else.
    pub proof fn lemma_answer_unique(
        self,
        sig: Seq<u64>,
        min_collisions: usize,
        a: Seq<(u32, u32)>,
        b: Seq<(u32, u32)>,
    )
        requires
            self.answers(sig, min_collisions, a),
            self.answers(sig, min_collisions, b),
        ensures
            a == b,
    {
        let n = if a.len() <= b.len() {
            a.len() as int
        } else {
            b.len() as int
        };
        self.lemma_answers_agree(sig, min_collisions, a, b, n as nat);
        if n < b.len() {
            let i = self.lemma_answer_has(sig, min_collisions, b, a, n);
            assert(a.take(n)[i] == b.take(n)[i]);
        }
        if n < a.len() {
            let i = self.lemma_answer_has(sig, min_collisions, a, b, n);
            assert(a.take(n)[i] == b.take(n)[i]);
        }
        assert(a.take(a.len() as int) =~= a);
        assert(b.take(b.len() as int) =~= b);
    }

    /// An entry of one answer stands in every other answer.
    proof fn lemma_answer_has(
        self,
        sig: Seq<u64>,
        min_collisions: usize,
        a: Seq<(u32, u32)>,
        b: Seq<(u32, u32)>,
        n: int,
    ) -> (i: int)
        requires
            self.answers(sig, min_collisions, a),
            self.answers(sig, min_collisions, b),
            0 <= n < a.len(),
        ensures
            0 <= i < b.len(),
            b[i] == a[n],
    {
        assert(self.is_candidate(sig, min_collisions, a[n].0));
        let i = choose|i: int| 0 <= i < b.len() && (#[trigger] b[i]).0 == a[n].0;
        assert(b[i].1 == self.collisions(sig, b[i].0));
        i
    }

    /// Two answers to a query agree on their first `n` entries.
    proof fn lemma_answers_agree(
        self,
        sig: Seq<u64>,
        min_collisions: usize,
        a: Seq<(u32, u32)>,
        b: Seq<(u32, u32)>,
        n: nat,
    )
        requires
            self.answers(sig, min_collisions, a),
            self.answers(sig, min_collisions, b),
            n <= a.len(),
            n <= b.len(),
        ensures
            a.take(n as int) == b.take(n as int),
        decreases n,
    {
        if n > 0 {
            let m = n - 1;
            self.lemma_answers_agree(sig, min_collisions, a, b, m as nat);
            assert(forall|i: int| 0 <= i < m ==> a.take(m)[i] == b.take(m)[i]);
            let j = self.lemma_answer_has(sig, min_collisions, a, b, m);
            let i = self.lemma_answer_has(sig, min_collisions, b, a, m);
            if j < m {
                assert(a.take(m)[j] == b.take(m)[j]);
                assert(ranks_before(a[j], a[m]));
            }
            if i < m {
                assert(a.take(m)[i] == b.take(m)[i]);
                assert(ranks_before(b[i], b[m]));
            }
            if j > m {
                assert(ranks_before(b[m], b[j]));
            }
            if i > m {
                assert(ranks_before(a[m], a[i]));
            }
            assert(a[m] == b[m]);
            assert(a.take(n as int) =~= b.take(n as int)) by {
                assert forall|x: int| 0 <= x < n implies a.take(n as int)[x] == b.take(n as int)[x] by {
                    if x < m {
                        assert(a.take(m)[x] == b.take(m)[x]);
                    }
                }
            }
        }
    }

    /// Sorting the chosen entries of a full tally gives the answer to the
    /// query.
    proof fn lemma_sorted_answers(
        self,
        sig: Seq<u64>,
        min_collisions: usize,
        counts: Map<u32, u32>,
        entries: Seq<(u32, u32)>,
        chosen: Seq<(u32, u32)>,
        out: Seq<(u32, u32)>,
    )
        requires
            all_counted(counts),
            forall|id: u32| tally_of(counts, id) == self.collisions(sig, id),
            forall|m: int|
                0 <= m < entries.len() ==> counts.contains_key((#[trigger] entries[m]).0)
                    && counts[entries[m].0] == entries[m].1,
            forall|id: u32|
                counts.contains_key(id) ==> exists|m: int|
                    0 <= m < entries.len() && (#[trigger] entries[m]).0 == id,
            forall|n: int|
                0 <= n < chosen.len() ==> entries.contains(#[trigger] chosen[n]) && chosen[n].1
                    >= min_collisions,
            forall|m: int|
                0 <= m < entries.len() && (#[trigger] entries[m]).1 >= min_collisions
                    ==> chosen.contains(entries[m]),
            distinct_ids(chosen),
            out.to_multiset() == chosen.to_multiset(),
            forall|i: int, j: int|
                0 <= i < j < out.len() ==> !ranks_before(#[trigger] out[j], #[trigger] out[i]),
        ensures
            self.answers(sig, min_collisions, out),
    {
        assert forall|x: (u32, u32)| out.contains(x) <==> chosen.contains(x) by {
            vstd::seq_lib::to_multiset_contains(out, x);
            vstd::seq_lib::to_multiset_contains(chosen, x);
        }
        assert forall|i: int| 0 <= i < out.len() implies self.is_candidate(
            sig,
            min_collisions,
            (#[trigger] out[i]).0,
        ) && out[i].1 == self.collisions(sig, out[i].0) by {
            assert(out.contains(out[i]));
            assert(chosen.contains(out[i]));
            let n = choose|n: int| 0 <= n < chosen.len() && chosen[n] == out[i];
            assert(entries.contains(chosen[n]));
            let m = choose|m: int| 0 <= m < entries.len() && entries[m] == out[i];
            assert(counts.contains_key(entries[m].0));
            assert(tally_of(counts, out[i].0) == self.collisions(sig, out[i].0));
        }
        assert forall|id: u32| self.is_candidate(sig, min_collisions, id) implies exists|i: int|
            0 <= i < out.len() && (#[trigger] out[i]).0 == id by {
            assert(tally_of(counts, id) == self.collisions(sig, id));
            assert(counts.contains_key(id));
            let m = choose|m: int| 0 <= m < entries.len() && (#[trigger] entries[m]).0 == id;
            assert(chosen.contains(entries[m]));
            assert(out.contains(entries[m]));
            let i = choose|i: int| 0 <= i < out.len() && out[i] == entries[m];
            assert(out[i].0 == id);
        }
        assert(chosen.no_duplicates());
        chosen.lemma_multiset_has_no_duplicates();
        out.lemma_multiset_has_no_duplicates_conv();
        assert forall|i: int, j: int| 0 <= i < j < out.len() implies ranks_before(
            #[trigger] out[i],
            #[trigger] out[j],
        ) by {
            assert(out[i] != out[j]);
            assert(!ranks_before(out[j], out[i]));
            assert(tally_of(counts, out[i].0) == self.collisions(sig, out[i].0));
            assert(tally_of(counts, out[j].0) == self.collisions(sig, out[j].0));
        }
    }

}

/// Buckets of signatures, one map per band.
pub struct LshIndex {
    params: LshParams,
    bands: Vec<BandMap>,
    seed: u64,
}

impl View for LshIndex {
    type V = IndexModel;

    closed spec fn view(&self) -> IndexModel {
        IndexModel {
            params: self.params,
            seed: self.seed,
            buckets: Seq::new(self.bands@.len(), |b: int| band_buckets(self.bands@[b])),
        }
    }
}

impl LshIndex {
    /// The index is in a state that its own operations leave it in.
    pub open spec fn wf(&self) -> bool {
        self@.wf()
    }

    /// An index without items, for the banding `params`.
    pub fn with_params(params: LshParams) -> (index: LshIndex)
        requires
            params.wf(),
        ensures
            index.wf(),
            index@.params == params,
            forall|b: int, key: u64|
                0 <= b < params.bands ==> !(#[trigger] index@.buckets[b].contains_key(key)),
    {
        let mut bands: Vec<BandMap> = Vec::new();
        let mut b: usize = 0;
        while b < params.bands
            invariant
                b <= params.bands,
                bands@.len() == b,
                forall|i: int, key: u64|
                    0 <= i < b ==> !(#[trigger] band_buckets(bands@[i]).contains_key(key)),
            decreases params.bands - b,
        {
            bands.push(band_map_new());
            b += 1;
        }
        LshIndex { params, bands, seed: INDEX_SEED }
    }

    /// The key under which band `b` files `signature`.
    fn key_of_band(&self, signature: &[u64], b: usize) -> (key: u64)
        requires
            self.wf(),
            b < self@.params.bands,
            signature@.len() >= self@.params.signature_len_spec(),
        ensures
            key == self@.band_key(signature@, b as int),
    {
        proof {
            lemma_chunk_bounds(b as int, self.params.bands as int, self.params.rows_per_band as int);
        }
        let start: usize = b * self.params.rows_per_band;
        let end: usize = start + self.params.rows_per_band;
        hash_band(&signature[start..end], (b as u64) ^ self.seed)
    }

    /// Files `id` under `signature` in every band, or reports a signature
    /// that is too short and leaves the index as it was.
    pub fn insert(&mut self, id: u32, signature: &[u64]) -> (r: Result<(), LshError>)
        requires
            old(self).wf(),
        ensures
            final(self).wf(),
            r is Err <==> signature@.len() < old(self)@.params.signature_len_spec(),
            r matches Err(e) ==> *final(self) == *old(self) && e == (LshError::ShortSignature {
                sig_len: signature@.len() as usize,
                need: old(self)@.params.signature_len_spec() as usize,
            }),
            r is Ok ==> final(self)@ == old(self)@.with_item(id, signature@),
    {
        let need: usize = self.params.signature_len();
        if signature.len() < need {
            return Err(LshError::ShortSignature { sig_len: signature.len(), need });
        }
        let ghost before = self@;
        let mut b: usize = 0;
        while b < self.params.bands
            invariant
                self.wf(),
                self@.params == before.params,
                self@.seed == before.seed,
                before.wf(),
                signature@.len() >= before.params.signature_len_spec(),
                b <= before.params.bands,
                forall|i: int| 0 <= i < b ==> self@.buckets[i] == before.band_with(id, signature@, i),
                forall|i: int| b <= i < before.params.bands ==> self@.buckets[i] == before.buckets[i],
            decreases before.params.bands - b,
        {
            let key: u64 = self.key_of_band(signature, b);
            let ghost mid = self@;
            let ids = band_map_slot(&mut self.bands[b], key);
            ids.push(id);
            proof {
                assert(before.band_key(signature@, b as int) == mid.band_key(signature@, b as int));
                assert forall|i: int| 0 <= i < b + 1 implies self@.buckets[i] == before.band_with(
                    id,
                    signature@,
                    i,
                ) by {
                    if i < b {
                        assert(self@.buckets[i] == mid.buckets[i]);
                    }
                }
                assert forall|i: int| b + 1 <= i < before.params.bands implies self@.buckets[i]
                    == before.buckets[i] by {
                    assert(self@.buckets[i] == mid.buckets[i]);
                }
            }
            b += 1;
        }
        proof {
            assert(self@.buckets =~= before.with_item(id, signature@).buckets);
        }
        Ok(())
    }

    /// Counts, for every id, its collisions with `signature`.
    fn tally_collisions(&self, signature: &[u64]) -> (counts: TallyMap)
        requires
            self.wf(),
            signature@.len() >= self@.params.signature_len_spec(),
            forall|id: u32| self@.collisions(signature@, id) <= u32::MAX,
        ensures
            all_counted(tallies(counts)),
            forall|id: u32| tally_of(tallies(counts), id) == self@.collisions(signature@, id),
    {
        let mut counts = tally_map_new();
        let mut b: usize = 0;
        while b < self.params.bands
            invariant
                self.wf(),
                signature@.len() >= self@.params.signature_len_spec(),
                forall|id: u32| self@.collisions(signature@, id) <= u32::MAX,
                b <= self@.params.bands,
                all_counted(tallies(counts)),
                forall|id: u32|
                    tally_of(tallies(counts), id) == self@.collisions_in(signature@, id, b as nat),
            decreases self@.params.bands - b,
        {
            let key: u64 = self.key_of_band(signature, b);
            proof {
                assert forall|id: u32|
                    self@.collisions_in(signature@, id, b as nat) + occurrences(
                        self@.bucket(signature@, b as int),
                        id,
                    ) <= u32::MAX by {
                    self@.lemma_collisions_grow(signature@, id, (b + 1) as nat, self@.params.bands as nat);
                    assert(self@.collisions(signature@, id) <= u32::MAX);
                    assert(self@.collisions_in(signature@, id, (b + 1) as nat)
                        == self@.collisions_in(signature@, id, b as nat) + occurrences(
                        self@.bucket(signature@, b as int),
                        id,
                    ));
                }
            }
            match band_map_get(&self.bands[b], key) {
                Some(ids) => {
                    assert(ids@ == self@.bucket(signature@, b as int));
                    tally_bucket(&mut counts, ids);
                },
                None => {
                    assert(self@.bucket(signature@, b as int) =~= Seq::empty());
                },
            }
            b += 1;
        }
        counts
    }

    /// The ids that share buckets with `signature`, each with the number of
    /// its collisions: those with at least `min_collisions` of them, the most
    /// collisions first and, among equals, the smaller id first. An id counts
    /// once for each time it stands in a bucket that a band keeps under the
    /// key of `signature`. A signature that is too short is reported.
    pub fn query_candidates(&self, signature: &[u64], min_collisions: usize) -> (r: Result<
        Vec<(u32, u32)>,
        LshError,
    >)
        requires
            self.wf(),
            signature@.len() >= self@.params.signature_len_spec() ==> forall|id: u32|
                self@.collisions(signature@, id) <= u32::MAX,
        ensures
            r is Err <==> signature@.len() < self@.params.signature_len_spec(),
            r matches Err(e) ==> e == (LshError::ShortSignature {
                sig_len: signature@.len() as usize,
                need: self@.params.signature_len_spec() as usize,
            }),
            r matches Ok(out) ==> self@.answers(signature@, min_collisions, out@),
    {
        let need: usize = self.params.signature_len();
        if signature.len() < need {
            return Err(LshError::ShortSignature { sig_len: signature.len(), need });
        }
        let counts = self.tally_collisions(signature);
        let entries = tally_map_entries(counts);
        let mut out: Vec<(u32, u32)> = Vec::new();
        let mut i: usize = 0;
        while i < entries.len()
            invariant
                i <= entries@.len(),
                distinct_ids(entries@),
                distinct_ids(out@),
                forall|n: int|
                    0 <= n < out@.len() ==> entries@.take(i as int).contains(#[trigger] out@[n])
                        && out@[n].1 >= min_collisions,
                forall|m: int|
                    0 <= m < i && (#[trigger] entries@[m]).1 >= min_collisions ==> out@.contains(
                        entries@[m],
                    ),
            decreases entries@.len() - i,
        {
            let entry: (u32, u32) = entries[i];
            let ghost kept = out@;
            if entry.1 as usize >= min_collisions {
                out.push(entry);
                proof {
                    assert(out@[kept.len() as int] == entry);
                    assert forall|m: int|
                        0 <= m < i + 1 && (#[trigger] entries@[m]).1
                            >= min_collisions implies out@.contains(entries@[m]) by {
                        if m < i {
                            let n = choose|n: int| 0 <= n < kept.len() && kept[n] == entries@[m];
                            assert(out@[n] == entries@[m]);
                        }
                    }
                    assert forall|n1: int, n2: int| 0 <= n1 < n2 < out@.len() implies (
                    #[trigger] out@[n1]).0 != (#[trigger] out@[n2]).0 by {
                        if n2 == kept.len() {
                            assert(entries@.take(i as int).contains(kept[n1]));
                            let m = choose|m: int|
                                0 <= m < i && entries@.take(i as int)[m] == kept[n1];
                            assert(entries@[m].0 != entries@[i as int].0);
                        } else {
                            assert(kept[n1].0 != kept[n2].0);
                        }
                    }
                }
            }
            proof {
                assert forall|n: int| 0 <= n < out@.len() implies entries@.take(i + 1).contains(
                    #[trigger] out@[n],
                ) by {
                    if n < kept.len() {
                        assert(entries@.take(i as int).contains(kept[n]));
                        let m = choose|m: int|
                            0 <= m < i && entries@.take(i as int)[m] == kept[n];
                        assert(entries@.take(i + 1)[m] == out@[n]);
                    } else {
                        assert(entries@.take(i + 1)[i as int] == out@[n]);
                    }
                }
            }
            i += 1;
        }
        proof {
            assert(entries@.take(entries@.len() as int) =~= entries@);
        }
        let ghost chosen = out@;
        sort_candidates(&mut out);
        proof {
            self@.lemma_sorted_answers(signature@, min_collisions, tallies(counts), entries@, chosen, out@);
        }
        Ok(out)
    }

    /// Counts the ids in the buckets that `signature` selects, as far as the
    /// count stays within `u32`.
    fn count_matched(&self, signature: &[u64]) -> (total: Option<u32>)
        requires
            self.wf(),
            signature@.len() >= self@.params.signature_len_spec(),
        ensures
            total is None <==> self@.matched(signature@) > u32::MAX,
            total matches Some(t) ==> t == self@.matched(signature@),
    {
        let mut total: u32 = 0;
        let mut b: usize = 0;
        while b < self.params.bands
            invariant
                self.wf(),
                signature@.len() >= self@.params.signature_len_spec(),
                b <= self@.params.bands,
                total == self@.matched_in(signature@, b as nat),
            decreases self@.params.bands - b,
        {
            let key: u64 = self.key_of_band(signature, b);
            proof {
                self@.lemma_matched_grow(signature@, (b + 1) as nat, self@.params.bands as nat);
            }
            match band_map_get(&self.bands[b], key) {
                Some(ids) => {
                    assert(ids@ == self@.bucket(signature@, b as int));
                    let n: usize = ids.len();
                    if n > (u32::MAX - total) as usize {
                        return None;
                    }
                    total = total + n as u32;
                },
                None => {
                    assert(self@.bucket(signature@, b as int) =~= Seq::empty());
                },
            }
            b += 1;
        }
        Some(total)
    }

    /// Answers as `query_candidates` does, wherever the buckets that
    /// `signature` selects hold no more than `u32::MAX` ids in all, so that
    /// every collision count is a `u32`; gives `None` where they hold more.
    pub fn try_query_candidates(&self, signature: &[u64], min_collisions: usize) -> (r: Option<
        Result<Vec<(u32, u32)>, LshError>,
    >)
        requires
            self.wf(),
        ensures
            r is None <==> signature@.len() >= self@.params.signature_len_spec()
                && self@.matched(signature@) > u32::MAX,
            r matches Some(Err(e)) ==> signature@.len() < self@.params.signature_len_spec() && e
                == (LshError::ShortSignature {
                sig_len: signature@.len() as usize,
                need: self@.params.signature_len_spec() as usize,
            }),
            r matches Some(Ok(out)) ==> signature@.len() >= self@.params.signature_len_spec()
                && self@.answers(signature@, min_collisions, out@),
    {
        if signature.len() >= self.params.signature_len() {
            if self.count_matched(signature).is_none() {
                return None;
            }
            proof {
                assert forall|id: u32| self@.collisions(signature@, id) <= u32::MAX by {
                    self@.lemma_collisions_matched(signature@, id, self@.params.bands as nat);
                }
            }
        }
        Some(self.query_candidates(signature, min_collisions))
    }

    /// Gives spare storage back. The buckets stay as they are, so queries
    /// answer the same before and after, however often this is called.
    pub fn build(&mut self)
        requires
            old(self).wf(),
        ensures
            final(self).wf(),
            final(self)@ == old(self)@,
    {
        let ghost before = self@;
        let mut b: usize = 0;
        while b < self.bands.len()
            invariant
                self.wf(),
                self@.params == before.params,
                self@.seed == before.seed,
                self@.buckets.len() == before.buckets.len(),
                self.bands@.len() == before.buckets.len(),
                forall|i: int| 0 <= i < before.buckets.len() ==> self@.buckets[i] == before.buckets[i],
            decreases self.bands.len() - b,
        {
            let ghost mid = self@;
            band_map_shrink(&mut self.bands[b]);
            proof {
                assert forall|i: int| 0 <= i < before.buckets.len() implies self@.buckets[i]
                    == before.buckets[i] by {
                    assert(self@.buckets[i] == mid.buckets[i]);
                }
            }
            b += 1;
        }
        proof {
            assert(self@.buckets =~= before.buckets);
        }
    }
}

/// No two entries of `s` have the same id.
pub open spec fn distinct_ids(s: Seq<(u32, u32)>) -> bool {
    forall|i: int, j: int| 0 <= i < j < s.len() ==> (#[trigger] s[i]).0 != (#[trigger] s[j]).0
}

/// Every count that `counts` holds is at least one.
pub open spec fn all_counted(counts: Map<u32, u32>) -> bool {
    forall|id: u32| counts.contains_key(id) ==> #[trigger] counts[id] >= 1
}

/// Counts each id of `ids` once more in `counts`, as often as it stands there.
fn tally_bucket(counts: &mut TallyMap, ids: &Vec<u32>)
    requires
        all_counted(tallies(*old(counts))),
        forall|id: u32| tally_of(tallies(*old(counts)), id) + occurrences(ids@, id) <= u32::MAX,
    ensures
        all_counted(tallies(*final(counts))),
        forall|id: u32|
            tally_of(tallies(*final(counts)), id) == tally_of(tallies(*old(counts)), id)
                + occurrences(ids@, id),
{
    let ghost start = tallies(*counts);
    let mut j: usize = 0;
    while j < ids.len()
        invariant
            j <= ids@.len(),
            all_counted(tallies(*counts)),
            forall|id: u32| tally_of(start, id) + occurrences(ids@, id) <= u32::MAX,
            forall|id: u32|
                tally_of(tallies(*counts), id) == tally_of(start, id) + occurrences(
                    ids@.take(j as int),
                    id,
                ),
        decreases ids@.len() - j,
    {
        let id: u32 = ids[j];
        let ghost mid = tallies(*counts);
        proof {
            lemma_occurrences_prefix(ids@, id, j + 1);
            lemma_occurrences_next(ids@, id, j as int);
            assert(tally_of(start, id) + occurrences(ids@, id) <= u32::MAX);
        }
        let count = tally_map_slot(counts, id);
        *count = *count + 1;
        proof {
            assert forall|other: u32|
                tally_of(tallies(*counts), other) == tally_of(start, other) + occurrences(
                    ids@.take(j + 1),
                    other,
                ) by {
                lemma_occurrences_next(ids@, other, j as int);
                assert(tally_of(mid, other) == tally_of(start, other) + occurrences(
                    ids@.take(j as int),
                    other,
                ));
            }
        }
        j += 1;
    }
    proof {
        assert(ids@.take(ids@.len() as int) =~= ids@);
    }
}

/// No id stands in `ids` more often than `ids` is long.
proof fn lemma_occurrences_bound(ids: Seq<u32>, id: u32)
    ensures
        occurrences(ids, id) <= ids.len(),
    decreases ids.len(),
{
    if ids.len() > 0 {
        lemma_occurrences_bound(ids.drop_last(), id);
    }
}

/// One more value of a prefix counts once more where it is `id`.
proof fn lemma_occurrences_next(ids: Seq<u32>, id: u32, j: int)
    requires
        0 <= j < ids.len(),
    ensures
        occurrences(ids.take(j + 1), id) == occurrences(ids.take(j), id) + if ids[j] == id {
            1nat
        } else {
            0nat
        },
{
    assert(ids.take(j + 1).drop_last() =~= ids.take(j));
}

/// A prefix holds `id` no more often than the whole.
proof fn lemma_occurrences_prefix(ids: Seq<u32>, id: u32, j: int)
    requires
        0 <= j <= ids.len(),
    ensures
        occurrences(ids.take(j), id) <= occurrences(ids, id),
    decreases ids.len() - j,
{
    if j == ids.len() {
        assert(ids.take(j) =~= ids);
    } else {
        lemma_occurrences_next(ids, id, j);
        lemma_occurrences_prefix(ids, id, j + 1);
    }
}

/// Band `b` of `bands` reads `rows` values that lie within the first
/// `bands * rows`.
proof fn lemma_chunk_bounds(b: int, bands: int, rows: int)
    by (nonlinear_arith)
    requires
        0 <= b < bands,
        0 <= rows,
    ensures
        0 <= b * rows,
        (b + 1) * rows == b * rows + rows,
        (b + 1) * rows <= bands * rows,
{
}

} // verus!
