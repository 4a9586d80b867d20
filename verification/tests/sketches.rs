use kira_cdh_compat_lsh::kmv::KmvSketch;
use kira_cdh_compat_lsh::minhash::MinHash;
use kira_cdh_compat_lsh::sketch::signature_agreement;
use kira_cdh_compat_lsh::util::{mix_with_seed, splitmix64};

fn kmv_of(k: usize, stream: &[u64]) -> Vec<u64> {
    let mut sketch = KmvSketch::new(k);
    for h in stream {
        sketch.update(*h);
    }
    sketch.finish()
}

fn smallest(k: usize, stream: &[u64]) -> Vec<u64> {
    let mut all = stream.to_vec();
    all.sort_unstable();
    all.truncate(k);
    all
}

#[test]
fn kmv_keeps_the_k_smallest() {
    assert_eq!(kmv_of(3, &[5, 1, 9, 3, 7, 2]), vec![1, 2, 3]);
    assert_eq!(kmv_of(1, &[5, 1, 9, 3, 7, 2]), vec![1]);
    assert_eq!(kmv_of(4, &[9, 8, 7, 6, 5, 4, 3, 2, 1]), vec![1, 2, 3, 4]);
    assert_eq!(kmv_of(4, &[1, 2, 3, 4, 5, 6, 7, 8, 9]), vec![1, 2, 3, 4]);
}

#[test]
fn kmv_with_fewer_values_than_k_is_shorter() {
    assert_eq!(kmv_of(64, &[102, 3, 100, 1, 101, 2]), vec![1, 2, 3, 100, 101, 102]);
    assert_eq!(kmv_of(5, &[]), Vec::<u64>::new());
}

#[test]
fn kmv_of_size_zero_keeps_nothing() {
    assert_eq!(kmv_of(0, &[4, 2, 8]), Vec::<u64>::new());
}

#[test]
fn kmv_retains_repeated_values() {
    assert_eq!(kmv_of(2, &[5, 5]), vec![5, 5]);
    assert_eq!(kmv_of(3, &[7, 1, 7, 1, 7, 1]), vec![1, 1, 1]);
    assert_eq!(kmv_of(4, &[7, 1, 7, 1, 9]), vec![1, 1, 7, 7]);
}

#[test]
fn kmv_does_not_replace_by_an_equal_value() {
    assert_eq!(kmv_of(2, &[3, 8, 8]), vec![3, 8]);
    assert_eq!(kmv_of(2, &[u64::MAX, u64::MAX, 0]), vec![0, u64::MAX]);
}

#[test]
fn kmv_matches_sorting_on_a_long_stream() {
    let mut stream = Vec::new();
    let mut x = 2024u64;
    for _ in 0..1000 {
        x = splitmix64(x);
        stream.push(x % 500);
    }
    for k in [1usize, 2, 7, 64, 128, 999, 1000, 1500] {
        assert_eq!(kmv_of(k, &stream), smallest(k, &stream));
    }
}

#[test]
fn kmv_signature_is_ascending_and_bounded() {
    let tokens = [11u64, 12, 13, 100, 101, 102, 1000, 2000];
    let sig = kmv_of(128, &tokens);
    assert_eq!(sig, vec![11, 12, 13, 100, 101, 102, 1000, 2000]);
    let sig = kmv_of(5, &tokens);
    assert_eq!(sig.len(), 5);
    assert!(sig.iter().all(|kept| tokens.iter().filter(|t| !sig.contains(*t)).all(|t| kept <= t)));
}

#[test]
fn minhash_with_no_updates_is_all_max() {
    let sig = MinHash::new(16, 99).finish();
    assert_eq!(sig, vec![u64::MAX; 16]);
}

#[test]
fn minhash_with_no_slots_is_empty() {
    let mut mh = MinHash::new(0, 1);
    mh.update(5);
    mh.update(6);
    assert_eq!(mh.finish(), Vec::<u64>::new());
}

#[test]
fn minhash_known_minima() {
    let mut mh = MinHash::new(4, 12345);
    for x in [1u64, 2, 3, 100, 101, 102] {
        mh.update(x);
    }
    assert_eq!(
        mh.finish(),
        vec![0x0D3068E2AB9CF25F, 0x0387F12C0A525E2D, 0x29DA3B6D6629F382, 0x0025E822BB0B5667]
    );
}

#[test]
fn minhash_seeds_are_chained() {
    let s1 = splitmix64(12345);
    let s2 = splitmix64(s1);
    let s3 = splitmix64(s2);
    assert_eq!(s1, 0x22118258A9D111A0);
    assert_eq!(s3, 0xA9FB86AFF8EE1B6D);
    let mut mh = MinHash::new(3, 12345);
    mh.update(77);
    assert_eq!(mh.finish(), vec![mix_with_seed(77, s1), mix_with_seed(77, s2), mix_with_seed(77, s3)]);
}

#[test]
fn minhash_keeps_the_minimum_per_slot() {
    let stream = [5u64, 900, 31, 31, 7];
    let mut mh = MinHash::new(8, 0);
    for x in stream {
        mh.update(x);
    }
    let sig = mh.finish();
    let mut seed = 0u64;
    for slot in sig {
        seed = splitmix64(seed);
        let least = stream.iter().map(|x| mix_with_seed(*x, seed)).min().unwrap();
        assert_eq!(slot, least);
    }
}

#[test]
fn minhash_ignores_order_and_repeats() {
    let mut a = MinHash::new(32, 7);
    for x in [3u64, 1, 2] {
        a.update(x);
    }
    let mut b = MinHash::new(32, 7);
    for x in [2u64, 2, 1, 3, 1] {
        b.update(x);
    }
    assert_eq!(a.finish(), b.finish());
}

#[test]
fn agreement_of_a_signature_with_itself_is_full() {
    let s = vec![4u64, 8, 15, 16, 23, 42];
    assert_eq!(signature_agreement(&s, &s), (6, 6));
}

#[test]
fn agreement_with_an_empty_signature_compares_nothing() {
    assert_eq!(signature_agreement(&[], &[1, 2, 3]), (0, 0));
    assert_eq!(signature_agreement(&[1, 2, 3], &[]), (0, 0));
    assert_eq!(signature_agreement(&[], &[]), (0, 0));
}

#[test]
fn agreement_is_symmetric() {
    let a = [1u64, 2, 3, 4, 5];
    let b = [1u64, 9, 3, 9, 5, 6, 7];
    assert_eq!(signature_agreement(&a, &b), (3, 5));
    assert_eq!(signature_agreement(&b, &a), (3, 5));
}

#[test]
fn agreement_is_by_position() {
    assert_eq!(signature_agreement(&[1, 2, 3], &[3, 1, 2]), (0, 3));
    assert_eq!(signature_agreement(&[1, 2, 3], &[1, 2]), (2, 2));
}

fn estimate(a: &[u64], b: &[u64]) -> f64 {
    let (equal, compared) = signature_agreement(a, b);
    if compared == 0 {
        return 0.0;
    }
    equal as f64 / compared as f64
}

#[test]
fn estimate_of_a_signature_with_itself_is_one() {
    let s = vec![4u64, 8, 15, 16, 23, 42];
    assert_eq!(estimate(&s, &s), 1.0);
    assert_eq!(estimate(&[7], &[7]), 1.0);
}

#[test]
fn estimate_with_an_empty_signature_is_zero() {
    assert_eq!(estimate(&[], &[1, 2, 3]), 0.0);
    assert_eq!(estimate(&[1, 2, 3], &[]), 0.0);
}

#[test]
fn estimate_is_symmetric_and_exact() {
    let a = [1u64, 2, 3, 4];
    let b = [1u64, 9, 3, 9, 5];
    assert_eq!(estimate(&a, &b), 0.5);
    assert_eq!(estimate(&b, &a), 0.5);
    assert_eq!(estimate(&[1, 2, 3, 4], &[1, 2, 3, 5]), 0.75);
}
