//! The keyed 64-bit mixer and its delegated counterpart.
use vstd::prelude::*;

verus! {

/// Odd multiplier of the widening multiply step.
pub const MIX_MULTIPLIER: u64 = 0x9d46_0858_ea81_ac79;

/// `v` rotated left by 32 bits.
pub open spec fn rotate32(v: u64) -> u64 {
    (v << 32u64) | (v >> 32u64)
}

/// The custom mixer: `v1 = (value + secret) ^ rotl(value, 32)` with wrapping
/// addition, `v2 = v1 * MIX_MULTIPLIER` over 128 bits, and the result folds
/// both halves of `v2` into `value`.
pub open spec fn mix(value: u64, secret: u64) -> u64 {
    let sum = ((value as int + secret as int) % 0x1_0000_0000_0000_0000int) as u64;
    let v1 = sum ^ rotate32(value);
    let v2: int = v1 as int * MIX_MULTIPLIER as int;
    value ^ ((v2 % 0x1_0000_0000_0000_0000int) as u64) ^ ((v2 / 0x1_0000_0000_0000_0000int) as u64)
}

/// The mixer is a function of its inputs: equal values and secrets give
/// equal outputs, whatever the secret.
pub proof fn lemma_mix_deterministic(v1: u64, s1: u64, v2: u64, s2: u64)
    requires
        v1 == v2,
        s1 == s2,
    ensures
        mix(v1, s1) == mix(v2, s2),
{
}

/// Computes the custom mixer on `v` keyed by `hash_secret`.
pub fn hash_u64(v: u64, hash_secret: u64) -> (r: u64)
    ensures
        r == mix(v, hash_secret),
{
    let sum = v.wrapping_add(hash_secret);
    assert(sum == ((v as int + hash_secret as int) % 0x1_0000_0000_0000_0000int) as u64);
    let v1 = sum ^ ((v << 32u32) | (v >> 32u32));
    proof {
        assert((v1 as int) * (MIX_MULTIPLIER as int) < 0x1_0000_0000_0000_0000_0000_0000_0000_0000int)
            by (nonlinear_arith)
            requires
                v1 < 0x1_0000_0000_0000_0000int,
                MIX_MULTIPLIER < 0x1_0000_0000_0000_0000int,
        ;
    }
    let v2: u128 = (v1 as u128) * (MIX_MULTIPLIER as u128);
    let lo = v2 as u64;
    let hi = (v2 >> 64u32) as u64;
    proof {
        assert(lo == (v2 % 0x1_0000_0000_0000_0000u128) as u64) by (bit_vector)
            requires
                lo == v2 as u64,
        ;
        assert(hi == (v2 / 0x1_0000_0000_0000_0000u128) as u64) by (bit_vector)
            requires
                hi == (v2 >> 64u32) as u64,
        ;
    }
    v ^ lo ^ hi
}

/// `ahash::RandomState`, the delegated hasher's keyed state; opaque here.
#[verifier::external_type_specification]
#[verifier::external_body]
pub struct ExRandomState(ahash::RandomState);

/// Relies on `ahash::RandomState::with_seed`, which builds a keyed state from
/// `key` and a per-process random value; nothing is assumed about the state.
pub assume_specification[ ahash::RandomState::with_seed ](key: usize) -> ahash::RandomState;

/// Relies on `ahash::RandomState::hash_one` to hash a `u64` with `state`.
/// Its output depends on per-process keys and on the target's features, so
/// nothing is assumed about it.
#[verifier::external_body]
fn delegated_hash(state: &ahash::RandomState, v: u64) -> (r: u64) {
    state.hash_one(v)
}

/// A 64-bit keyed hash: the custom mixer, or the delegated general-purpose
/// hash when `delegated` is set.
pub struct KeyedHasher {
    pub secret: u64,
    pub delegated: bool,
    pub state: ahash::RandomState,
}

impl KeyedHasher {
    /// A hasher keyed by `secret`; the delegated state is seeded with it.
    pub fn new(secret: u64, delegated: bool) -> (h: Self)
        ensures
            h.secret == secret,
            h.delegated == delegated,
    {
        KeyedHasher { secret, delegated, state: ahash::RandomState::with_seed(secret as usize) }
    }

    /// Hashes `v`; for the custom variant this is exactly `mix(v, secret)`.
    pub fn hash(&self, v: u64) -> (r: u64)
        ensures
            !self.delegated ==> r == mix(v, self.secret),
    {
        if self.delegated {
            delegated_hash(&self.state, v)
        } else {
            hash_u64(v, self.secret)
        }
    }
}

/// Wrapping sum of `mix(k, secret)` over the keys `0 .. n`.
pub open spec fn mix_total(n: nat, secret: u64) -> u64
    decreases n,
{
    if n == 0 {
        0
    } else {
        ((mix_total((n - 1) as nat, secret) as int + mix((n - 1) as u64, secret) as int)
            % 0x1_0000_0000_0000_0000int) as u64
    }
}

/// Hashes the keys `0 .. count` and returns the wrapping sum of the hashes;
/// the work of the throughput benchmark.
pub fn hash_total(hasher: &KeyedHasher, count: u64) -> (r: u64)
    ensures
        !hasher.delegated ==> r == mix_total(count as nat, hasher.secret),
{
    let mut sum: u64 = 0;
    let mut i: u64 = 0;
    while i < count
        invariant
            i <= count,
            !hasher.delegated ==> sum == mix_total(i as nat, hasher.secret),
        decreases count - i,
    {
        sum = sum.wrapping_add(hasher.hash(i));
        i = i + 1;
    }
    sum
}

} // verus!
