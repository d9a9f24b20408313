use rng2::cycle::{find_cycle_len, Rand};
use rng2::mixer::{hash_u64, KeyedHasher};
use rng2::DEFAULT_SECRET;

#[test]
fn fixed_point_gives_cycle_of_one() {
    // mix(0, 0) == 0, so the generator never leaves 0.
    assert_eq!(find_cycle_len(1024, 0, false), 1);
    assert_eq!(find_cycle_len(0, 0, false), 1);
}

#[test]
fn no_cycle_within_small_limits() {
    assert_eq!(find_cycle_len(0, DEFAULT_SECRET, false), 0);
    assert_eq!(find_cycle_len(1, DEFAULT_SECRET, false), 0);
    assert_eq!(find_cycle_len(1024, DEFAULT_SECRET, false), 0);
}

#[test]
fn delegated_cycle_search_stays_in_bounds() {
    let r = find_cycle_len(4, DEFAULT_SECRET, true);
    assert!(r <= 8);
}

#[test]
fn rand_advances_by_mixing() {
    let mut g = Rand { seed: 0, hasher: KeyedHasher::new(DEFAULT_SECRET, false) };
    let a = g.rand64();
    assert_eq!(a, hash_u64(0, DEFAULT_SECRET));
    let b = g.rand64();
    assert_eq!(b, hash_u64(a, DEFAULT_SECRET));
    assert_eq!(g.seed, b);
}
