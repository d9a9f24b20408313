//! The bit-range tweaker: per trial, which input bits feed the mixer, which
//! output bits pick the slot, and the trial's secret.
use vstd::prelude::*;
use crate::dist::{RunStats, custom_slots, fill_model, run_distribution_test, runs};
use crate::mixer::{hash_u64, mix};

verus! {

/// Keys of the two mixes that derive the input shift.
pub const IN_SHIFT_KEY_1: u64 = 0x123;
pub const IN_SHIFT_KEY_2: u64 = 0x456;

/// Keys of the two mixes that derive the output shift.
pub const OUT_SHIFT_KEY_1: u64 = 0x789;
pub const OUT_SHIFT_KEY_2: u64 = 0xabc;

/// Mask that keeps a shift below 32.
pub const SHIFT_MASK: u64 = 0x1f;

/// Left shift applied to each key before hashing in trial `tweak`.
pub open spec fn tweak_in_shift(tweak: u64) -> u64 {
    mix(mix(tweak, IN_SHIFT_KEY_1), IN_SHIFT_KEY_2) & SHIFT_MASK
}

/// Right shift applied to each hash in trial `tweak`.
pub open spec fn tweak_out_shift(tweak: u64) -> u64 {
    mix(mix(tweak, OUT_SHIFT_KEY_1), OUT_SHIFT_KEY_2) & SHIFT_MASK
}

/// Secret of trial `tweak` derived from `base_secret`.
pub open spec fn tweak_secret(base_secret: u64, tweak: u64) -> u64 {
    mix(base_secret, tweak)
}

/// The parameters of one distribution trial.
#[derive(Clone, Copy, Debug, PartialEq, Eq)]
pub struct TweakParams {
    pub in_shift: u64,
    pub out_shift: u64,
    pub secret: u64,
}

/// Derives the shifts and the secret of trial `tweak`.
pub fn tweak_params(base_secret: u64, tweak: u64) -> (tp: TweakParams)
    ensures
        tp.in_shift == tweak_in_shift(tweak),
        tp.out_shift == tweak_out_shift(tweak),
        tp.secret == tweak_secret(base_secret, tweak),
        tp.in_shift < 32,
        tp.out_shift < 32,
{
    let a = hash_u64(hash_u64(tweak, IN_SHIFT_KEY_1), IN_SHIFT_KEY_2);
    let b = hash_u64(hash_u64(tweak, OUT_SHIFT_KEY_1), OUT_SHIFT_KEY_2);
    let in_shift = a & SHIFT_MASK;
    let out_shift = b & SHIFT_MASK;
    assert(in_shift < 32) by (bit_vector)
        requires
            in_shift == a & 0x1fu64,
    ;
    assert(out_shift < 32) by (bit_vector)
        requires
            out_shift == b & 0x1fu64,
    ;
    TweakParams { in_shift, out_shift, secret: hash_u64(base_secret, tweak) }
}

/// Runs trial `tweak` of the distribution test on a table of `table_size`
/// slots: the shifts and the secret come from `tweak_params`.
pub fn dist_test(hash_secret: u64, use_ahash: bool, tweak: u64, table_size: usize) -> (st: RunStats)
    ensures
        st.total_len == table_size / 2,
        !use_ahash ==> st.num_runs == runs(
            fill_model(
                custom_slots(
                    table_size as nat,
                    tweak_secret(hash_secret, tweak),
                    tweak_in_shift(tweak),
                    tweak_out_shift(tweak),
                ),
                table_size as nat,
            ),
        ).len(),
{
    let tp = tweak_params(hash_secret, tweak);
    run_distribution_test(table_size, tp.secret, use_ahash, tp.in_shift, tp.out_shift)
}

} // verus!
