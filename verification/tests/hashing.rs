use kira_cdh_compat_lsh::util::{hash_band, mix_with_seed, splitmix64};

#[test]
fn splitmix64_known_values() {
    assert_eq!(splitmix64(0), 0xE220A8397B1DCDAF);
    assert_eq!(splitmix64(1), 0x910A2DEC89025CC1);
    assert_eq!(splitmix64(u64::MAX), 0xE4D971771B652C20);
}

#[test]
fn mix_with_seed_mixes_the_xor() {
    assert_eq!(mix_with_seed(5, 9), 0x943FF9FC99DE8F03);
    assert_eq!(mix_with_seed(5, 9), splitmix64(12));
    assert_eq!(mix_with_seed(77, 0), splitmix64(77));
    assert_eq!(mix_with_seed(9, 5), mix_with_seed(5, 9));
}

#[test]
fn hash_band_of_empty_chunk_is_salted_seed() {
    assert_eq!(hash_band(&[], 7), 0xDEADBEEFDEADBEE8);
    assert_eq!(hash_band(&[], 0), 0xDEADBEEFDEADBEEF);
}

#[test]
fn hash_band_known_values() {
    assert_eq!(hash_band(&[1, 2, 3], 7), 0xC31238122A226A78);
    assert_eq!(hash_band(&[3, 2, 1], 7), 0x4E41DA200DBCF724);
}

#[test]
fn hash_band_folds_in_order() {
    let one = hash_band(&[10], 3);
    assert_eq!(one, splitmix64((3 ^ 0xDEADBEEFDEADBEEF) ^ 10));
    assert_eq!(hash_band(&[10, 20], 3), splitmix64(one ^ 20));
    assert_ne!(hash_band(&[10, 20], 3), hash_band(&[20, 10], 3));
    assert_ne!(hash_band(&[10, 20], 3), hash_band(&[10, 20], 4));
}

#[test]
fn hashing_is_repeatable() {
    for x in [0u64, 1, 42, 0xFFFF_FFFF, u64::MAX] {
        assert_eq!(splitmix64(x), splitmix64(x));
        assert_eq!(mix_with_seed(x, 99), mix_with_seed(x, 99));
        assert_eq!(hash_band(&[x, x ^ 1, 5], x), hash_band(&[x, x ^ 1, 5], x));
    }
}
