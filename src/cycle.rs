//! The cycle finder: iterate a mixer as a generator from state 0 and probe,
//! in phases of doubling length, for a value that repeats a phase's first one.
use vstd::prelude::*;
use crate::mixer::{KeyedHasher, hash_u64, mix};

verus! {

/// Number of phases the search runs at most.
pub const MAX_PHASES: u64 = 64;

/// Length of phase `p`: `2^p` comparisons after its target.
pub open spec fn phase_len(p: nat) -> nat
    decreases p,
{
    if p == 0 {
        1
    } else {
        2 * phase_len((p - 1) as nat)
    }
}

/// Index, in the generated stream, of the target of phase `p`: every earlier
/// phase `q` draws its target and then `phase_len(q)` more values.
pub open spec fn phase_start(p: nat) -> nat
    decreases p,
{
    if p == 0 {
        0
    } else {
        phase_start((p - 1) as nat) + 1 + phase_len((p - 1) as nat)
    }
}

/// Within phase `p`, the value drawn `i + 1` steps after the target equals it.
pub open spec fn phase_hit(s: spec_fn(nat) -> u64, p: nat, i: nat) -> bool {
    s(phase_start(p) + 1 + i) == s(phase_start(p))
}

/// The first `j >= i` below `phase_len(p)` with a hit in phase `p`, if any.
pub open spec fn first_hit(s: spec_fn(nat) -> u64, p: nat, i: nat) -> Option<nat>
    decreases phase_len(p) - i,
{
    if i >= phase_len(p) {
        None
    } else if phase_hit(s, p, i) {
        Some(i)
    } else {
        first_hit(s, p, i + 1)
    }
}

/// What the search reports from phase `p` on for the stream `s`: the offset
/// plus one of the first hit in the first phase that has one, or 0 once a
/// phase without a hit is longer than `limit`, or after the last phase.
pub open spec fn outcome_from(s: spec_fn(nat) -> u64, limit: nat, p: nat) -> nat
    decreases MAX_PHASES - p,
{
    if p >= MAX_PHASES {
        0
    } else {
        match first_hit(s, p, 0) {
            Some(i) => i + 1,
            None => if phase_len(p) > limit {
                0
            } else {
                outcome_from(s, limit, p + 1)
            },
        }
    }
}

/// The cycle length that the search reports for the stream `s`, where `s(k)`
/// is the `k`-th value drawn (0 for "no cycle found within the limit").
pub open spec fn cycle_outcome(s: spec_fn(nat) -> u64, limit: nat) -> nat {
    outcome_from(s, limit, 0)
}

/// `f` applied `n` times to `x`.
pub open spec fn iterate(f: spec_fn(u64) -> u64, n: nat, x: u64) -> u64
    decreases n,
{
    if n == 0 {
        x
    } else {
        f(iterate(f, (n - 1) as nat, x))
    }
}

/// The stream of a generator that starts at state 0 and advances by `f`.
pub open spec fn generated(f: spec_fn(u64) -> u64) -> spec_fn(nat) -> u64 {
    |k: nat| iterate(f, k + 1, 0)
}

/// The custom mixer keyed by `secret`, as a step function.
pub open spec fn mix_step(secret: u64) -> spec_fn(u64) -> u64 {
    |v: u64| mix(v, secret)
}

/// A phase is reached when every earlier phase was at most `limit` long.
pub open spec fn phase_reached(p: nat, limit: nat) -> bool {
    forall|q: nat| q < p ==> #[trigger] phase_len(q) <= limit
}

/// No value of phase `p` repeats its target.
pub open spec fn phase_missed(s: spec_fn(nat) -> u64, p: nat) -> bool {
    forall|i: nat| i < phase_len(p) ==> !#[trigger] phase_hit(s, p, i)
}

proof fn lemma_phase_len_pos(p: nat)
    ensures
        phase_len(p) >= 1,
    decreases p,
{
    if p > 0 {
        lemma_phase_len_pos((p - 1) as nat);
    }
}

proof fn lemma_phase_len_mono(q: nat, p: nat)
    requires
        q <= p,
    ensures
        phase_len(q) <= phase_len(p),
    decreases p - q,
{
    if q < p {
        lemma_phase_len_mono(q, (p - 1) as nat);
        lemma_phase_len_pos((p - 1) as nat);
    }
}

proof fn lemma_phase_len_62()
    ensures
        phase_len(62) == 0x4000_0000_0000_0000,
{
    reveal_with_fuel(phase_len, 63);
}

/// Every value that phase `q` looks at precedes the target of a later phase.
proof fn lemma_phase_before(q: nat, p: nat)
    requires
        q < p,
    ensures
        phase_start(q) + phase_len(q) < phase_start(p),
    decreases p - q,
{
    if q + 1 < p {
        lemma_phase_before(q, (p - 1) as nat);
    }
}

proof fn lemma_first_hit_none(s: spec_fn(nat) -> u64, p: nat, i: nat)
    requires
        forall|j: nat| i <= j < phase_len(p) ==> !#[trigger] phase_hit(s, p, j),
    ensures
        first_hit(s, p, i) is None,
    decreases phase_len(p) - i,
{
    if i < phase_len(p) {
        lemma_first_hit_none(s, p, i + 1);
    }
}

proof fn lemma_first_hit_some(s: spec_fn(nat) -> u64, p: nat, i: nat, k: nat)
    requires
        i <= k < phase_len(p),
        phase_hit(s, p, k),
        forall|j: nat| i <= j < k ==> !#[trigger] phase_hit(s, p, j),
    ensures
        first_hit(s, p, i) == Some(k),
    decreases k - i,
{
    if i < k {
        lemma_first_hit_some(s, p, i + 1, k);
    }
}

proof fn lemma_first_hit_facts(s: spec_fn(nat) -> u64, p: nat, i: nat)
    ensures
        first_hit(s, p, i) is None ==> forall|j: nat|
            i <= j < phase_len(p) ==> !#[trigger] phase_hit(s, p, j),
        first_hit(s, p, i) matches Some(k) ==> i <= k < phase_len(p) && phase_hit(s, p, k)
            && forall|j: nat| i <= j < k ==> !#[trigger] phase_hit(s, p, j),
    decreases phase_len(p) - i,
{
    if i < phase_len(p) {
        lemma_first_hit_facts(s, p, i + 1);
    }
}

/// Skipping phases that were all reached and all missed keeps the outcome.
proof fn lemma_outcome_skip(s: spec_fn(nat) -> u64, limit: nat, p: nat)
    requires
        p <= MAX_PHASES,
        phase_reached(p, limit),
        forall|q: nat| q < p ==> #[trigger] phase_missed(s, q),
    ensures
        cycle_outcome(s, limit) == outcome_from(s, limit, p),
    decreases p,
{
    if p > 0 {
        let q = (p - 1) as nat;
        assert(phase_missed(s, q));
        lemma_first_hit_none(s, q, 0);
        assert(phase_len(q) <= limit);
        assert(phase_reached(q, limit));
        lemma_outcome_skip(s, limit, q);
    }
}

/// Every phase from `p` up to, not including, `q` is at most `limit` long.
pub open spec fn reached_between(p: nat, q: nat, limit: nat) -> bool {
    forall|r: nat| p <= r < q ==> #[trigger] phase_len(r) <= limit
}

proof fn lemma_zero_from(s: spec_fn(nat) -> u64, limit: nat, p: nat)
    requires
        p <= MAX_PHASES,
    ensures
        outcome_from(s, limit, p) == 0 <==> forall|q: nat|
            p <= q < MAX_PHASES && #[trigger] reached_between(p, q, limit) ==> phase_missed(s, q),
    decreases MAX_PHASES - p,
{
    if p < MAX_PHASES {
        lemma_first_hit_facts(s, p, 0);
        assert(reached_between(p, p, limit));
        match first_hit(s, p, 0) {
            Some(i) => {
                assert(phase_hit(s, p, i));
            },
            None => {
                assert(phase_missed(s, p));
                if phase_len(p) > limit {
                    assert forall|q: nat|
                        p <= q < MAX_PHASES && #[trigger] reached_between(p, q, limit) implies phase_missed(
                        s,
                        q,
                    ) by {
                        if q > p {
                            assert(phase_len(p) <= limit);
                        }
                    }
                } else {
                    lemma_zero_from(s, limit, p + 1);
                    if outcome_from(s, limit, p + 1) == 0 {
                        assert forall|q: nat|
                            p <= q < MAX_PHASES && #[trigger] reached_between(p, q, limit)
                                implies phase_missed(s, q) by {
                            if q > p {
                                assert(reached_between(p + 1, q, limit));
                            }
                        }
                    } else {
                        let q = choose|q: nat|
                            p + 1 <= q < MAX_PHASES && #[trigger] reached_between(p + 1, q, limit)
                                && !phase_missed(s, q);
                        assert(reached_between(p, q, limit));
                    }
                }
            },
        }
    }
}

/// The degenerate step function that leaves every value as it is.
pub open spec fn identity_step() -> spec_fn(u64) -> u64 {
    |v: u64| v
}

/// With the identity as the step function, every drawn value is 0, so the
/// very first comparison matches and the search reports a cycle of length 1.
pub proof fn lemma_identity_cycle(limit: nat)
    ensures
        cycle_outcome(generated(identity_step()), limit) == 1,
{
    let f = identity_step();
    let s = generated(f);
    assert(iterate(f, 0, 0) == 0);
    assert(iterate(f, 1, 0) == 0);
    assert(iterate(f, 2, 0) == 0);
    assert(phase_len(0) == 1);
    assert(phase_start(0) == 0);
    assert(phase_hit(s, 0, 0));
    assert(first_hit(s, 0, 0) == Some(0nat));
}

proof fn lemma_reached_between_zero(p: nat, limit: nat)
    ensures
        phase_reached(p, limit) <==> reached_between(0, p, limit),
{
    if phase_reached(p, limit) {
        assert forall|r: nat| 0 <= r < p implies #[trigger] phase_len(r) <= limit by {
            assert(phase_reached(p, limit));
        }
    }
    if reached_between(0, p, limit) {
        assert forall|r: nat| r < p implies #[trigger] phase_len(r) <= limit by {
            assert(reached_between(0, p, limit));
        }
    }
}

/// The search reports 0 exactly when no phase that it reaches (every earlier
/// phase being at most `limit` long) holds a value equal to its target.
pub proof fn lemma_zero_iff_no_repeat(s: spec_fn(nat) -> u64, limit: nat)
    ensures
        cycle_outcome(s, limit) == 0 <==> forall|p: nat|
            p < MAX_PHASES && #[trigger] phase_reached(p, limit) ==> phase_missed(s, p),
{
    lemma_zero_from(s, limit, 0);
    if cycle_outcome(s, limit) == 0 {
        assert forall|p: nat| p < MAX_PHASES && #[trigger] phase_reached(p, limit) implies phase_missed(
            s,
            p,
        ) by {
            lemma_reached_between_zero(p, limit);
        }
    } else {
        let q = choose|q: nat|
            0 <= q < MAX_PHASES && #[trigger] reached_between(0, q, limit) && !phase_missed(s, q);
        lemma_reached_between_zero(q, limit);
    }
}

/// Within phase `p` of the drawn values `vals`, the value drawn `i + 1`
/// steps after the target equals it.
pub open spec fn drawn_hit(vals: Seq<u64>, p: nat, i: nat) -> bool {
    vals[(phase_start(p) + 1 + i) as int] == vals[phase_start(p) as int]
}

/// The drawn values `vals` as a stream, 0 past their end.
pub open spec fn drawn_stream(vals: Seq<u64>) -> spec_fn(nat) -> u64 {
    |k: nat| if k < vals.len() { vals[k as int] } else { 0 }
}

/// Where a stream agrees with the drawn values, a hit in one is a hit in the other.
proof fn lemma_hit_from_drawn(s: spec_fn(nat) -> u64, vals: Seq<u64>, p: nat, j: nat)
    requires
        phase_start(p) + 1 + j < vals.len(),
        forall|k: nat| k < vals.len() ==> #[trigger] s(k) == vals[k as int],
    ensures
        phase_hit(s, p, j) == drawn_hit(vals, p, j),
{
    assert(s(phase_start(p)) == vals[phase_start(p) as int]);
    assert(s(phase_start(p) + 1 + j) == vals[(phase_start(p) + 1 + j) as int]);
}

/// A stream that starts with `vals` missed every phase before `p` if `vals` did.
proof fn lemma_missed_from_drawn(s: spec_fn(nat) -> u64, vals: Seq<u64>, p: nat)
    requires
        vals.len() >= phase_start(p),
        forall|k: nat| k < vals.len() ==> #[trigger] s(k) == vals[k as int],
        forall|q: nat, j: nat| q < p && j < phase_len(q) ==> !#[trigger] drawn_hit(vals, q, j),
    ensures
        forall|q: nat| q < p ==> #[trigger] phase_missed(s, q),
{
    assert forall|q: nat| q < p implies #[trigger] phase_missed(s, q) by {
        assert forall|j: nat| j < phase_len(q) implies !#[trigger] phase_hit(s, q, j) by {
            lemma_phase_before(q, p);
            lemma_hit_from_drawn(s, vals, q, j);
        }
    }
}

/// The generator state of one cycle search.
pub struct Rand {
    pub seed: u64,
    pub hasher: KeyedHasher,
}

impl Rand {
    /// Advances the generator: the new state is the hash of the old one,
    /// and is returned.
    pub fn rand64(&mut self) -> (r: u64)
        ensures
            final(self).seed == r,
            final(self).hasher == old(self).hasher,
            !old(self).hasher.delegated ==> r == mix(old(self).seed, old(self).hasher.secret),
    {
        self.seed = self.hasher.hash(self.seed);
        self.seed
    }
}

/// Searches for a cycle of the generator that starts at 0 and advances by
/// the custom mixer keyed by `hash_secret`, or by the delegated hash keyed by
/// it when `use_ahash` is set. Phase `p` (from 0 to 63) draws a target and
/// then up to `2^p` values; the first that equals the target gives the result
/// (its offset plus one). A phase without a match that is longer than
/// `limit` ends the search with 0, as does the end of the last phase.
pub fn find_cycle_len(limit: u64, hash_secret: u64, use_ahash: bool) -> (r: u64)
    ensures
        !use_ahash ==> r == cycle_outcome(generated(mix_step(hash_secret)), limit as nat),
        exists|s: spec_fn(nat) -> u64| r == #[trigger] cycle_outcome(s, limit as nat),
{
    let mut gen = Rand { seed: 0, hasher: KeyedHasher::new(hash_secret, use_ahash) };
    let ghost f = mix_step(hash_secret);
    let ghost mut vals: Seq<u64> = Seq::empty();
    let mut p: u64 = 0;
    let mut len: u64 = 1;
    while p < MAX_PHASES
        invariant
            p <= MAX_PHASES,
            p < MAX_PHASES ==> len == phase_len(p as nat),
            vals.len() == phase_start(p as nat),
            phase_reached(p as nat, limit as nat),
            forall|q: nat, j: nat|
                q < p && j < phase_len(q) ==> !#[trigger] drawn_hit(vals, q, j),
            gen.hasher.secret == hash_secret,
            gen.hasher.delegated == use_ahash,
            f == mix_step(hash_secret),
            !use_ahash ==> gen.seed == iterate(f, vals.len(), 0),
            !use_ahash ==> forall|k: int|
                0 <= k < vals.len() ==> #[trigger] vals[k] == iterate(f, (k + 1) as nat, 0),
        decreases MAX_PHASES - p,
    {
        let target = gen.rand64();
        let ghost before = vals;
        proof {
            vals = vals.push(target);
            assert forall|q: nat, j: nat| q < p && j < phase_len(q) implies !#[trigger] drawn_hit(
                vals,
                q,
                j,
            ) by {
                lemma_phase_before(q, p as nat);
                assert(!drawn_hit(before, q, j));
            }
        }
        let mut i: u64 = 0;
        while i < len
            invariant
                p < MAX_PHASES,
                len == phase_len(p as nat),
                i <= len,
                vals.len() == phase_start(p as nat) + 1 + i,
                vals[phase_start(p as nat) as int] == target,
                phase_reached(p as nat, limit as nat),
                forall|q: nat, j: nat|
                    q < p && j < phase_len(q) ==> !#[trigger] drawn_hit(vals, q, j),
                forall|j: nat| j < i ==> !#[trigger] drawn_hit(vals, p as nat, j),
                gen.hasher.secret == hash_secret,
                gen.hasher.delegated == use_ahash,
                f == mix_step(hash_secret),
                !use_ahash ==> gen.seed == iterate(f, vals.len(), 0),
                !use_ahash ==> forall|k: int|
                    0 <= k < vals.len() ==> #[trigger] vals[k] == iterate(f, (k + 1) as nat, 0),
            decreases len - i,
        {
            let v = gen.rand64();
            let ghost before = vals;
            proof {
                vals = vals.push(v);
                assert forall|q: nat, j: nat| q < p && j < phase_len(q) implies !#[trigger] drawn_hit(
                    vals,
                    q,
                    j,
                ) by {
                    lemma_phase_before(q, p as nat);
                    assert(!drawn_hit(before, q, j));
                }
                assert forall|j: nat| j < i implies !#[trigger] drawn_hit(vals, p as nat, j) by {
                    assert(!drawn_hit(before, p as nat, j));
                }
            }
            if v == target {
                let ghost s = if use_ahash { drawn_stream(vals) } else { generated(f) };
                proof {
                    assert forall|k: nat| k < vals.len() implies #[trigger] s(k) == vals[k as int] by {
                        if !use_ahash {
                            assert(vals[k as int] == iterate(f, k + 1, 0));
                        }
                    }
                    lemma_missed_from_drawn(s, vals, p as nat);
                    lemma_outcome_skip(s, limit as nat, p as nat);
                    assert forall|j: nat| j < i implies !#[trigger] phase_hit(s, p as nat, j) by {
                        lemma_hit_from_drawn(s, vals, p as nat, j);
                    }
                    lemma_hit_from_drawn(s, vals, p as nat, i as nat);
                    assert(phase_hit(s, p as nat, i as nat));
                    lemma_first_hit_some(s, p as nat, 0, i as nat);
                    assert(cycle_outcome(s, limit as nat) == i + 1);
                }
                return i + 1;
            }
            i = i + 1;
        }
        if len > limit {
            let ghost s = if use_ahash { drawn_stream(vals) } else { generated(f) };
            proof {
                assert forall|k: nat| k < vals.len() implies #[trigger] s(k) == vals[k as int] by {
                    if !use_ahash {
                        assert(vals[k as int] == iterate(f, k + 1, 0));
                    }
                }
                lemma_missed_from_drawn(s, vals, p as nat);
                lemma_outcome_skip(s, limit as nat, p as nat);
                assert forall|j: nat| j < phase_len(p as nat) implies !#[trigger] phase_hit(s, p as nat, j) by {
                    lemma_hit_from_drawn(s, vals, p as nat, j);
                }
                lemma_first_hit_none(s, p as nat, 0);
                assert(cycle_outcome(s, limit as nat) == 0);
            }
            return 0;
        }
        proof {
            assert forall|q: nat| q < p + 1 implies #[trigger] phase_len(q) <= limit by {
                if q < p {
                    assert(phase_reached(p as nat, limit as nat));
                }
            }
            assert forall|q: nat, j: nat| q < p + 1 && j < phase_len(q) implies !#[trigger] drawn_hit(
                vals,
                q,
                j,
            ) by {
                if q == p {
                    assert(!drawn_hit(vals, p as nat, j));
                }
            }
        }
        p = p + 1;
        if p < MAX_PHASES {
            proof {
                lemma_phase_len_mono((p - 1) as nat, 62);
                lemma_phase_len_62();
            }
            len = len * 2;
        }
    }
    let ghost s = if use_ahash { drawn_stream(vals) } else { generated(f) };
    proof {
        assert forall|k: nat| k < vals.len() implies #[trigger] s(k) == vals[k as int] by {
            if !use_ahash {
                assert(vals[k as int] == iterate(f, k + 1, 0));
            }
        }
        lemma_missed_from_drawn(s, vals, p as nat);
        lemma_outcome_skip(s, limit as nat, p as nat);
        assert(cycle_outcome(s, limit as nat) == 0);
    }
    0
}

} // verus!
