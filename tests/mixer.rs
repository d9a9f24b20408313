use rng2::mixer::{hash_total, hash_u64, KeyedHasher};
use rng2::DEFAULT_SECRET;

#[test]
fn mix_known_values() {
    assert_eq!(hash_u64(0, 0), 0);
    assert_eq!(hash_u64(1, 0), 0x87c7_b4d1_77c7_a421);
    assert_eq!(hash_u64(0x1234_5678_9abc_def0, DEFAULT_SECRET), 0x0f1d_f93c_fef9_521f);
}

#[test]
fn mix_wraps_on_overflowing_sum() {
    assert_eq!(hash_u64(u64::MAX, 1), 0);
}

#[test]
fn mix_is_deterministic() {
    for v in [0u64, 1, 42, u64::MAX, 0xdead_beef] {
        assert_eq!(hash_u64(v, DEFAULT_SECRET), hash_u64(v, DEFAULT_SECRET));
    }
}

#[test]
fn keyed_hasher_custom_matches_mix() {
    let h = KeyedHasher::new(DEFAULT_SECRET, false);
    assert_eq!(h.hash(0x1234_5678_9abc_def0), 0x0f1d_f93c_fef9_521f);
}

#[test]
fn keyed_hasher_delegated_is_stable_for_one_state() {
    let h = KeyedHasher::new(DEFAULT_SECRET, true);
    assert_eq!(h.hash(7), h.hash(7));
    assert_ne!(h.hash(1), h.hash(2));
}

#[test]
fn total_of_custom_hashes() {
    let h = KeyedHasher::new(DEFAULT_SECRET, false);
    assert_eq!(hash_total(&h, 1000), 0x4019_bffb_fa3e_f678);
    assert_eq!(hash_total(&h, 0), 0);
}
