use kira_cdh_compat_lsh::errors::LshError;
use kira_cdh_compat_lsh::kmv::KmvSketch;
use kira_cdh_compat_lsh::lsh::{LshIndex, LshParams, LshParamsError, INDEX_SEED};
use kira_cdh_compat_lsh::rank::candidate_order;
use kira_cdh_compat_lsh::sketch::signature_agreement;
use kira_cdh_compat_lsh::util::hash_band;
use std::cmp::Ordering;

fn index(bands: usize, rows: usize) -> LshIndex {
    LshIndex::with_params(LshParams::new(bands, rows).unwrap())
}

#[test]
fn params_reject_zero() {
    assert_eq!(LshParams::new(0, 4).unwrap_err(), LshParamsError::Zero);
    assert_eq!(LshParams::new(4, 0).unwrap_err(), LshParamsError::Zero);
    assert_eq!(LshParams::new(0, 0).unwrap_err(), LshParamsError::Zero);
}

#[test]
fn params_signature_len_is_the_product() {
    let p = LshParams::new(32, 4).unwrap();
    assert_eq!((p.bands, p.rows_per_band), (32, 4));
    assert_eq!(p.signature_len(), 128);
    assert_eq!(LshParams::new(1, 1).unwrap().signature_len(), 1);
    assert_eq!(LshParams::new(7, 9).unwrap().signature_len(), 63);
}

#[test]
fn index_seed_is_fixed() {
    assert_eq!(INDEX_SEED, 0xC0FFEEFADE);
}

#[test]
fn empty_index_has_no_candidates() {
    let idx = index(4, 2);
    assert_eq!(idx.query_candidates(&[1, 2, 3, 4, 5, 6, 7, 8], 0).unwrap(), vec![]);
    assert_eq!(idx.query_candidates(&[1, 2, 3, 4, 5, 6, 7, 8], 1).unwrap(), vec![]);
}

#[test]
fn insert_reports_a_short_signature() {
    let mut idx = index(32, 4);
    let short = vec![1u64; 127];
    assert_eq!(idx.insert(3, &short), Err(LshError::ShortSignature { sig_len: 127, need: 128 }));
    assert_eq!(idx.insert(3, &[]), Err(LshError::ShortSignature { sig_len: 0, need: 128 }));
}

#[test]
fn failed_insert_leaves_the_index_unchanged() {
    let mut idx = index(4, 2);
    let a = [1u64, 2, 3, 4, 5, 6, 7, 8];
    let b = [1u64, 2, 3, 4, 0, 0, 0, 0];
    idx.insert(10, &a).unwrap();
    idx.insert(11, &b).unwrap();
    let before_a = idx.query_candidates(&a, 0).unwrap();
    let before_b = idx.query_candidates(&b, 0).unwrap();
    assert_eq!(idx.insert(12, &a[..7]), Err(LshError::ShortSignature { sig_len: 7, need: 8 }));
    assert_eq!(idx.insert(10, &a[..1]), Err(LshError::ShortSignature { sig_len: 1, need: 8 }));
    assert_eq!(idx.query_candidates(&a, 0).unwrap(), before_a);
    assert_eq!(idx.query_candidates(&b, 0).unwrap(), before_b);
    assert_eq!(before_a, vec![(10, 4), (11, 2)]);
    assert_eq!(before_b, vec![(11, 4), (10, 2)]);
}

#[test]
fn query_reports_a_short_signature() {
    let mut idx = index(32, 4);
    idx.insert(0, &vec![1u64; 128]).unwrap();
    assert_eq!(
        idx.query_candidates(&vec![1u64; 100], 1),
        Err(LshError::ShortSignature { sig_len: 100, need: 128 })
    );
    assert_eq!(
        idx.try_query_candidates(&vec![1u64; 100], 1),
        Some(Err(LshError::ShortSignature { sig_len: 100, need: 128 }))
    );
}

#[test]
fn round_trip_finds_the_item_in_every_band() {
    let mut idx = index(32, 4);
    let mut sig = Vec::new();
    for i in 0..128u64 {
        sig.push(i * 31 + 5);
    }
    idx.insert(42, &sig).unwrap();
    assert_eq!(idx.query_candidates(&sig, 32).unwrap(), vec![(42, 32)]);
    assert_eq!(idx.query_candidates(&sig, 33).unwrap(), vec![]);
}

#[test]
fn signature_longer_than_needed_is_read_from_the_front() {
    let mut idx = index(2, 2);
    idx.insert(1, &[1, 2, 3, 4, 99, 98]).unwrap();
    assert_eq!(idx.query_candidates(&[1, 2, 3, 4], 2).unwrap(), vec![(1, 2)]);
    assert_eq!(idx.query_candidates(&[1, 2, 3, 4, 0, 0, 0], 2).unwrap(), vec![(1, 2)]);
}

#[test]
fn identical_signatures_but_for_one_position() {
    let mut idx = index(32, 4);
    let s1 = vec![1u64; 128];
    let mut s2 = s1.clone();
    s2[0] = 2;
    idx.insert(0, &s1).unwrap();
    idx.insert(1, &s2).unwrap();
    assert_eq!(idx.query_candidates(&s1, 1).unwrap(), vec![(0, 32), (1, 31)]);
    assert_eq!(idx.query_candidates(&s2, 1).unwrap(), vec![(1, 32), (0, 31)]);
    assert_eq!(idx.query_candidates(&s1, 32).unwrap(), vec![(0, 32)]);
}

#[test]
fn candidates_come_by_count_then_by_id() {
    let mut idx = index(4, 1);
    idx.insert(9, &[1, 2, 8, 9]).unwrap();
    idx.insert(2, &[1, 2, 3, 9]).unwrap();
    idx.insert(5, &[1, 2, 3, 4]).unwrap();
    idx.insert(1, &[7, 2, 3, 4]).unwrap();
    idx.insert(3, &[0, 0, 0, 0]).unwrap();
    let q = [1u64, 2, 3, 4];
    assert_eq!(idx.query_candidates(&q, 1).unwrap(), vec![(5, 4), (1, 3), (2, 3), (9, 2)]);
    assert_eq!(idx.query_candidates(&q, 3).unwrap(), vec![(5, 4), (1, 3), (2, 3)]);
    assert_eq!(idx.query_candidates(&q, 4).unwrap(), vec![(5, 4)]);
    assert_eq!(idx.query_candidates(&q, 5).unwrap(), vec![]);
}

#[test]
fn zero_min_collisions_lists_only_colliding_ids() {
    let mut idx = index(2, 1);
    idx.insert(1, &[5, 6]).unwrap();
    idx.insert(2, &[7, 8]).unwrap();
    assert_eq!(idx.query_candidates(&[5, 0], 0).unwrap(), vec![(1, 1)]);
}

#[test]
fn repeated_insert_counts_every_entry() {
    let mut idx = index(3, 2);
    let sig = [1u64, 2, 3, 4, 5, 6];
    idx.insert(7, &sig).unwrap();
    idx.insert(7, &sig).unwrap();
    idx.insert(4, &sig).unwrap();
    assert_eq!(idx.query_candidates(&sig, 1).unwrap(), vec![(7, 6), (4, 3)]);
}

#[test]
fn bands_do_not_mix() {
    let mut idx = index(2, 1);
    idx.insert(1, &[5, 6]).unwrap();
    assert_eq!(idx.query_candidates(&[6, 5], 1).unwrap(), vec![]);
    assert_ne!(hash_band(&[5], 0 ^ INDEX_SEED), hash_band(&[5], 1 ^ INDEX_SEED));
}

#[test]
fn build_changes_no_answer() {
    let mut idx = index(4, 2);
    let a = [1u64, 2, 3, 4, 5, 6, 7, 8];
    let b = [1u64, 2, 0, 0, 5, 6, 0, 0];
    idx.insert(1, &a).unwrap();
    idx.insert(2, &b).unwrap();
    let before = idx.query_candidates(&a, 1).unwrap();
    assert_eq!(before, vec![(1, 4), (2, 2)]);
    idx.build();
    assert_eq!(idx.query_candidates(&a, 1).unwrap(), before);
    idx.build();
    idx.build();
    assert_eq!(idx.query_candidates(&a, 1).unwrap(), before);
    idx.insert(3, &a).unwrap();
    assert_eq!(idx.query_candidates(&a, 1).unwrap(), vec![(1, 4), (3, 4), (2, 2)]);
}

#[test]
fn two_indices_with_the_same_parameters_agree() {
    let mut first = index(8, 2);
    let mut second = index(8, 2);
    let mut sigs = Vec::new();
    for id in 0..20u64 {
        let mut sig = Vec::new();
        for i in 0..16u64 {
            sig.push((id / 3) * 100 + i % (id % 4 + 1));
        }
        sigs.push(sig);
    }
    for (id, sig) in sigs.iter().enumerate() {
        first.insert(id as u32, sig).unwrap();
    }
    for (id, sig) in sigs.iter().enumerate().rev() {
        second.insert(id as u32, sig).unwrap();
    }
    for sig in &sigs {
        assert_eq!(first.query_candidates(sig, 1), second.query_candidates(sig, 1));
    }
}

#[test]
fn checked_query_answers_like_the_plain_one() {
    let mut idx = index(4, 1);
    idx.insert(2, &[1, 2, 3, 9]).unwrap();
    idx.insert(5, &[1, 2, 3, 4]).unwrap();
    let q = [1u64, 2, 3, 4];
    assert_eq!(idx.try_query_candidates(&q, 1), Some(Ok(vec![(5, 4), (2, 3)])));
    assert_eq!(idx.try_query_candidates(&q, 4), Some(idx.query_candidates(&q, 4)));
}

#[test]
fn many_ids_in_one_bucket_are_all_reported() {
    let mut idx = index(2, 2);
    let sig = [3u64, 1, 4, 1];
    let mut ids = Vec::new();
    for i in 0..300u32 {
        let id = (i * 7919) % 1000;
        idx.insert(id, &sig).unwrap();
        ids.push(id);
    }
    ids.sort_unstable();
    ids.dedup();
    let out = idx.query_candidates(&sig, 2).unwrap();
    assert_eq!(out.len(), ids.len());
    for (entry, id) in out.iter().zip(ids.iter()) {
        assert_eq!(*entry, (*id, 2));
    }
}

#[test]
fn kmv_signatures_of_eight_tokens_are_too_short_for_128() {
    let a = [11u64, 12, 13, 100, 101, 102, 1000, 2000];
    let b = [12u64, 13, 14, 101, 102, 103, 1000, 3000];
    let mut sa = KmvSketch::new(128);
    for h in a {
        sa.update(h);
    }
    let sig_a = sa.finish();
    let mut sb = KmvSketch::new(128);
    for h in b {
        sb.update(h);
    }
    let sig_b = sb.finish();
    assert_eq!(sig_a.len(), 8);
    let mut idx = index(32, 4);
    assert_eq!(idx.insert(0, &sig_a), Err(LshError::ShortSignature { sig_len: 8, need: 128 }));
    assert_eq!(idx.insert(1, &sig_b), Err(LshError::ShortSignature { sig_len: 8, need: 128 }));
    assert_eq!(
        idx.query_candidates(&sig_a, 1),
        Err(LshError::ShortSignature { sig_len: 8, need: 128 })
    );
}

#[test]
fn kmv_signatures_end_to_end() {
    let a = [11u64, 12, 13, 100, 101, 102, 1000, 2000];
    let b = [12u64, 13, 14, 101, 102, 103, 1000, 3000];
    let mut sa = KmvSketch::new(8);
    for h in a {
        sa.update(h);
    }
    let sig_a = sa.finish();
    let mut sb = KmvSketch::new(8);
    for h in b {
        sb.update(h);
    }
    let sig_b = sb.finish();
    let mut idx = index(8, 1);
    idx.insert(0, &sig_a).unwrap();
    idx.insert(1, &sig_b).unwrap();
    idx.build();
    let cands = idx.query_candidates(&sig_a, 1).unwrap();
    assert_eq!(cands, vec![(0, 8), (1, 1)]);
    assert!(cands.iter().any(|(id, count)| *id == 1 && *count >= 1));
    assert_eq!(signature_agreement(&sig_a, &sig_b), (1, 8));
}

#[test]
fn candidate_order_is_count_down_then_id_up() {
    assert_eq!(candidate_order(&(1, 5), &(2, 3)), Ordering::Less);
    assert_eq!(candidate_order(&(2, 3), &(1, 5)), Ordering::Greater);
    assert_eq!(candidate_order(&(1, 3), &(2, 3)), Ordering::Less);
    assert_eq!(candidate_order(&(2, 3), &(1, 3)), Ordering::Greater);
    assert_eq!(candidate_order(&(2, 3), &(2, 3)), Ordering::Equal);
}
