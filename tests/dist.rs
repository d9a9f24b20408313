use rng2::dist::{fill_table, probe_insert, reduce, run_distribution_test, run_lengths, RunStats};
use rng2::tweak::{dist_test, tweak_params, TweakParams};
use rng2::DEFAULT_SECRET;

fn table(bits: &[u8]) -> Vec<bool> {
    bits.iter().map(|b| *b == 1).collect()
}

#[test]
fn run_lengths_of_sixteen_slot_pattern() {
    let t = table(&[1, 1, 0, 1, 0, 0, 1, 1, 1, 0, 1, 0, 1, 0, 0, 0]);
    let st = run_lengths(&t);
    assert_eq!(st.num_runs, 5);
    assert_eq!(st.total_len, 8);
    let avg = st.total_len as f64 / st.num_runs as f64;
    assert!((avg - 1.6).abs() < 1e-12);
}

#[test]
fn run_across_boundary_is_two_runs() {
    let st = run_lengths(&table(&[1, 0, 0, 1]));
    assert_eq!(st, RunStats { num_runs: 2, total_len: 2 });
    let st = run_lengths(&table(&[1, 1, 0, 1]));
    assert_eq!(st, RunStats { num_runs: 2, total_len: 3 });
}

#[test]
fn run_lengths_edge_tables() {
    assert_eq!(run_lengths(&Vec::new()), RunStats { num_runs: 0, total_len: 0 });
    assert_eq!(run_lengths(&table(&[0, 0, 0])), RunStats { num_runs: 0, total_len: 0 });
    assert_eq!(run_lengths(&table(&[1, 1, 1])), RunStats { num_runs: 1, total_len: 3 });
}

#[test]
fn run_lengths_total_is_occupied_count() {
    for bits in [&[1u8, 0, 1, 1, 0, 1][..], &[0, 1, 1, 1, 1, 0, 0, 1][..], &[1][..]] {
        let t = table(bits);
        let occupied = t.iter().filter(|b| **b).count();
        assert_eq!(run_lengths(&t).total_len, occupied);
    }
}

#[test]
fn probe_insert_wraps_to_start() {
    let mut t = table(&[0, 0, 1, 1]);
    assert_eq!(probe_insert(&mut t, 2), 0);
    assert_eq!(t, table(&[1, 0, 1, 1]));
    assert_eq!(probe_insert(&mut t, 3), 1);
    assert_eq!(t, table(&[1, 1, 1, 1]));
}

#[test]
fn probe_insert_takes_free_home_slot() {
    let mut t = table(&[0, 1, 0, 0]);
    assert_eq!(probe_insert(&mut t, 2), 2);
    assert_eq!(probe_insert(&mut t, 1), 3);
}

#[test]
fn reduce_by_multiplication() {
    assert_eq!(reduce(0xffff_ffff, 16), 15);
    assert_eq!(reduce(0x8000_0000, 1000), 500);
    assert_eq!(reduce(12345, 0), 0);
    assert_eq!(reduce(0, 16), 0);
}

#[test]
fn fill_sixteen_slots_custom() {
    let t = fill_table(16, DEFAULT_SECRET, false, 0, 0);
    assert_eq!(t, table(&[0, 1, 0, 1, 0, 0, 0, 1, 1, 0, 1, 0, 1, 0, 1, 1]));
    assert_eq!(t.iter().filter(|b| **b).count(), 8);
}

#[test]
fn fill_edge_sizes() {
    assert!(fill_table(0, DEFAULT_SECRET, false, 0, 0).is_empty());
    assert_eq!(fill_table(1, DEFAULT_SECRET, false, 0, 0), vec![false]);
    assert_eq!(fill_table(1, DEFAULT_SECRET, true, 0, 0), vec![false]);
}

#[test]
fn fill_delegated_is_half_full() {
    let t = fill_table(256, DEFAULT_SECRET, true, 3, 5);
    assert_eq!(t.len(), 256);
    assert_eq!(t.iter().filter(|b| **b).count(), 128);
}

#[test]
fn distribution_stats_custom() {
    assert_eq!(
        run_distribution_test(64, DEFAULT_SECRET, false, 0, 0),
        RunStats { num_runs: 17, total_len: 32 }
    );
    assert_eq!(
        run_distribution_test(1024, DEFAULT_SECRET, false, 0, 0),
        RunStats { num_runs: 218, total_len: 512 }
    );
}

#[test]
fn distribution_stats_delegated_total() {
    let st = run_distribution_test(1024, DEFAULT_SECRET, true, 0, 0);
    assert_eq!(st.total_len, 512);
    assert!(st.num_runs >= 1 && st.num_runs <= 512);
}

#[test]
fn tweak_zero_parameters() {
    assert_eq!(
        tweak_params(DEFAULT_SECRET, 0),
        TweakParams { in_shift: 7, out_shift: 8, secret: 0x141d_f405_e586_b269 }
    );
    assert_eq!(
        tweak_params(DEFAULT_SECRET, 1),
        TweakParams { in_shift: 8, out_shift: 0x15, secret: 0xb7d3_fc6c_ff07_06d1 }
    );
}

#[test]
fn dist_trial_zero() {
    assert_eq!(dist_test(DEFAULT_SECRET, false, 0, 1024), RunStats { num_runs: 211, total_len: 512 });
}
