//! The slot-distribution simulator: an insert-only open-addressing table
//! with linear probing, filled to half its size, and a scan that measures
//! the maximal runs of occupied slots.
use vstd::prelude::*;
use crate::mixer::{KeyedHasher, mix};

verus! {

/// Number of occupied slots of `t`.
pub open spec fn occupied_count(t: Seq<bool>) -> nat
    decreases t.len(),
{
    if t.len() == 0 {
        0
    } else {
        occupied_count(t.drop_last()) + if t.last() {
            1nat
        } else {
            0nat
        }
    }
}

/// Lengths of the maximal runs of occupied slots of `t`, left to right. A run
/// ends at the last slot; it is never joined with one that starts at slot 0.
pub open spec fn runs(t: Seq<bool>) -> Seq<nat>
    decreases t.len(),
{
    if t.len() == 0 {
        Seq::empty()
    } else {
        let r = runs(t.drop_last());
        if !t.last() {
            r
        } else if t.len() == 1 || !t[t.len() - 2] {
            r.push(1)
        } else {
            r.update(r.len() - 1, r.last() + 1)
        }
    }
}

/// Sum of a sequence of lengths.
pub open spec fn total(s: Seq<nat>) -> nat
    decreases s.len(),
{
    if s.len() == 0 {
        0
    } else {
        total(s.drop_last()) + s.last()
    }
}

/// Index reached `k` steps after `start` in a table of `len` slots, wrapping
/// from the last slot to slot 0.
pub open spec fn probe_index(len: nat, start: nat, k: nat) -> nat {
    if start + k < len {
        start + k
    } else {
        (start + k - len) as nat
    }
}

/// The first free slot at or after step `k` of a probe from `start`.
pub open spec fn probe_from(t: Seq<bool>, start: nat, k: nat) -> nat
    decreases t.len() - k,
{
    if k >= t.len() {
        start
    } else if !t[probe_index(t.len(), start, k) as int] {
        probe_index(t.len(), start, k)
    } else {
        probe_from(t, start, k + 1)
    }
}

/// The slot that linear probing from `start` occupies in `t`.
pub open spec fn free_slot(t: Seq<bool>, start: nat) -> nat {
    probe_from(t, start, 0)
}

/// `t` after inserting a key whose home slot is `h`.
pub open spec fn insert_model(t: Seq<bool>, h: nat) -> Seq<bool> {
    t.update(free_slot(t, h) as int, true)
}

/// A table of `size` free slots after inserting keys with home slots `slots`,
/// in order.
pub open spec fn fill_model(slots: Seq<nat>, size: nat) -> Seq<bool>
    decreases slots.len(),
{
    if slots.len() == 0 {
        Seq::new(size, |i: int| false)
    } else {
        insert_model(fill_model(slots.drop_last(), size), slots.last())
    }
}

proof fn lemma_count_bound(t: Seq<bool>)
    ensures
        occupied_count(t) <= t.len(),
        occupied_count(t) < t.len() ==> exists|m: int| 0 <= m < t.len() && !#[trigger] t[m],
    decreases t.len(),
{
    if t.len() > 0 {
        let d = t.drop_last();
        lemma_count_bound(d);
        if occupied_count(t) < t.len() && t.last() {
            let m = choose|m: int| 0 <= m < d.len() && !#[trigger] d[m];
            assert(!t[m]);
        }
        if occupied_count(t) < t.len() && !t.last() {
            assert(!t[t.len() - 1]);
        }
    }
}

proof fn lemma_count_update(t: Seq<bool>, j: int)
    requires
        0 <= j < t.len(),
        !t[j],
    ensures
        occupied_count(t.update(j, true)) == occupied_count(t) + 1,
    decreases t.len(),
{
    let u = t.update(j, true);
    if j == t.len() - 1 {
        assert(u.drop_last() =~= t.drop_last());
    } else {
        assert(u.drop_last() =~= t.drop_last().update(j, true));
        lemma_count_update(t.drop_last(), j);
    }
}

proof fn lemma_count_all_free(size: nat)
    ensures
        occupied_count(Seq::new(size, |i: int| false)) == 0,
    decreases size,
{
    if size > 0 {
        assert(Seq::new(size, |i: int| false).drop_last() =~= Seq::new(
            (size - 1) as nat,
            |i: int| false,
        ));
        lemma_count_all_free((size - 1) as nat);
    }
}

/// Number of probe steps from `start` to slot `m`.
pub open spec fn probe_distance(len: nat, start: nat, m: nat) -> nat {
    if m >= start {
        (m - start) as nat
    } else {
        (m + len - start) as nat
    }
}

proof fn lemma_probe_found(t: Seq<bool>, start: nat, k: nat, m: nat)
    requires
        start < t.len(),
        m < t.len(),
        !t[m as int],
        k <= probe_distance(t.len(), start, m),
    ensures
        probe_from(t, start, k) < t.len(),
        !t[probe_from(t, start, k) as int],
    decreases probe_distance(t.len(), start, m) - k,
{
    if t[probe_index(t.len(), start, k) as int] {
        lemma_probe_found(t, start, k + 1, m);
    }
}

/// Linear probing from a home slot finds a free slot whenever the table has
/// one; inserting there occupies one more slot.
proof fn lemma_insert(t: Seq<bool>, h: nat)
    requires
        h < t.len(),
        occupied_count(t) < t.len(),
    ensures
        free_slot(t, h) < t.len(),
        !t[free_slot(t, h) as int],
        insert_model(t, h).len() == t.len(),
        occupied_count(insert_model(t, h)) == occupied_count(t) + 1,
{
    lemma_count_bound(t);
    let m = choose|m: int| 0 <= m < t.len() && !#[trigger] t[m];
    lemma_probe_found(t, h, 0, m as nat);
    lemma_count_update(t, free_slot(t, h) as int);
}

proof fn lemma_fill(slots: Seq<nat>, size: nat)
    requires
        slots.len() <= size,
        forall|k: int| 0 <= k < slots.len() ==> #[trigger] slots[k] < size,
    ensures
        fill_model(slots, size).len() == size,
        occupied_count(fill_model(slots, size)) == slots.len(),
    decreases slots.len(),
{
    if slots.len() == 0 {
        lemma_count_all_free(size);
    } else {
        let d = slots.drop_last();
        lemma_fill(d, size);
        lemma_insert(fill_model(d, size), slots.last());
    }
}

/// Filling a table of `size` slots with `size / 2` keys by linear probing,
/// from any home slots, leaves exactly `size / 2` slots occupied.
pub proof fn lemma_half_fill(slots: Seq<nat>, size: nat)
    requires
        slots.len() == size / 2,
        forall|k: int| 0 <= k < slots.len() ==> #[trigger] slots[k] < size,
    ensures
        fill_model(slots, size).len() == size,
        occupied_count(fill_model(slots, size)) == size / 2,
{
    lemma_fill(slots, size);
}

proof fn lemma_runs_nonempty(t: Seq<bool>)
    requires
        t.len() > 0,
        t.last(),
    ensures
        runs(t).len() > 0,
    decreases t.len(),
{
    if t.len() > 1 && t[t.len() - 2] {
        lemma_runs_nonempty(t.drop_last());
    }
}

proof fn lemma_total_bump(s: Seq<nat>)
    requires
        s.len() > 0,
    ensures
        total(s.update(s.len() - 1, s.last() + 1)) == total(s) + 1,
{
    assert(s.update(s.len() - 1, s.last() + 1).drop_last() =~= s.drop_last());
}

/// Each occupied slot lies in exactly one run: the run lengths add up to the
/// number of occupied slots.
pub proof fn lemma_runs_cover_occupied(t: Seq<bool>)
    ensures
        total(runs(t)) == occupied_count(t),
    decreases t.len(),
{
    if t.len() > 0 {
        let d = t.drop_last();
        lemma_runs_cover_occupied(d);
        if t.last() && !(t.len() == 1 || !t[t.len() - 2]) {
            assert(d.last());
            lemma_runs_nonempty(d);
            lemma_total_bump(runs(d));
        } else if t.last() {
            assert(runs(d).push(1).drop_last() =~= runs(d));
        }
    }
}

/// Run-length statistics of a table: how many maximal runs of occupied slots
/// it holds, and their total length.
#[derive(Clone, Copy, Debug, PartialEq, Eq)]
pub struct RunStats {
    pub num_runs: usize,
    pub total_len: usize,
}

/// Scans `table` once and counts its maximal runs of occupied slots and
/// their total length; a run at the end is counted, and is not joined with
/// one at the start.
pub fn run_lengths(table: &Vec<bool>) -> (st: RunStats)
    ensures
        st.num_runs == runs(table@).len(),
        st.total_len == total(runs(table@)),
{
    let ghost t = table@;
    let mut num_runs: usize = 0;
    let mut total_len: usize = 0;
    let mut i: usize = 0;
    while i < table.len()
        invariant
            t == table@,
            i <= t.len(),
            num_runs <= i,
            total_len <= i,
            num_runs == runs(t.take(i as int)).len(),
            total_len == total(runs(t.take(i as int))),
        decreases t.len() - i,
    {
        let ghost before = t.take(i as int);
        let ghost after = t.take(i + 1);
        proof {
            assert(after.drop_last() =~= before);
            assert(after.last() == t[i as int]);
        }
        if table[i] {
            if i == 0 || !table[i - 1] {
                proof {
                    if i > 0 {
                        assert(after[after.len() - 2] == t[i - 1]);
                    }
                    assert(runs(before).push(1).drop_last() =~= runs(before));
                }
                num_runs = num_runs + 1;
            } else {
                proof {
                    assert(after[after.len() - 2] == t[i - 1]);
                    assert(before.last() == t[i - 1]);
                    lemma_runs_nonempty(before);
                    lemma_total_bump(runs(before));
                }
            }
            total_len = total_len + 1;
        }
        i = i + 1;
    }
    proof {
        assert(t.take(t.len() as int) =~= t);
    }
    RunStats { num_runs, total_len }
}

/// Inserts a key whose home slot is `h`: probes forward from `h`, wrapping to
/// slot 0 past the end, and occupies the first free slot, which it returns.
pub fn probe_insert(table: &mut Vec<bool>, h: usize) -> (slot: usize)
    requires
        h < old(table).len(),
        occupied_count(old(table)@) < old(table).len(),
    ensures
        slot == free_slot(old(table)@, h as nat),
        slot < old(table).len(),
        !old(table)@[slot as int],
        final(table)@ == insert_model(old(table)@, h as nat),
        occupied_count(final(table)@) == occupied_count(old(table)@) + 1,
{
    let ghost t = table@;
    proof {
        lemma_insert(t, h as nat);
        lemma_count_bound(t);
    }
    let ghost m = choose|m: int| 0 <= m < t.len() && !#[trigger] t[m];
    let ghost mut k: nat = 0;
    let mut j = h;
    while table[j]
        invariant
            t == table@,
            h < t.len(),
            0 <= m < t.len(),
            !t[m],
            k <= probe_distance(t.len(), h as nat, m as nat),
            j == probe_index(t.len(), h as nat, k),
            j < t.len(),
            probe_from(t, h as nat, k) == free_slot(t, h as nat),
        decreases t.len() - k,
    {
        if j == table.len() - 1 {
            j = 0;
        } else {
            j = j + 1;
        }
        proof {
            k = k + 1;
        }
    }
    table.set(j, true);
    j
}

/// `x * n / 2^32`: maps a 32-bit hash onto `[0, n)` by a fixed-point multiply.
pub open spec fn reduce_spec(x: u32, n: u32) -> nat {
    ((x as nat) * (n as nat)) / 0x1_0000_0000
}

/// Maps the 32-bit value `x` onto `[0, n)` as `(x * n) >> 32`.
pub fn reduce(x: u32, n: u32) -> (r: usize)
    ensures
        r == reduce_spec(x, n),
        n > 0 ==> r < n,
        n == 0 ==> r == 0,
{
    proof {
        assert((x as nat) * (n as nat) < 0x1_0000_0000_0000_0000) by (nonlinear_arith)
            requires
                x < 0x1_0000_0000nat,
                n < 0x1_0000_0000nat,
        ;
        assert(((x as nat) * (n as nat)) / 0x1_0000_0000 <= n) by (nonlinear_arith)
            requires
                x < 0x1_0000_0000nat,
        ;
        assert(n > 0 ==> ((x as nat) * (n as nat)) / 0x1_0000_0000 < n) by (nonlinear_arith)
            requires
                x < 0x1_0000_0000nat,
        ;
    }
    let p: u64 = (x as u64) * (n as u64);
    let q: u64 = p >> 32u32;
    assert(q == p / 0x1_0000_0000) by (bit_vector)
        requires
            q == p >> 32u32,
    ;
    q as usize
}

/// Home slot of key `i` under the custom mixer: the key shifted left by
/// `in_shift`, mixed, shifted right by `out_shift`, truncated to 32 bits and
/// reduced onto the table by multiplication.
pub open spec fn custom_slot(i: nat, size: nat, secret: u64, in_shift: u64, out_shift: u64) -> nat {
    reduce_spec(((mix((i as u64) << in_shift, secret) >> out_shift) as u32), size as u32)
}

/// Home slots of the keys `0 .. n` under the custom mixer.
pub open spec fn custom_prefix(n: nat, size: nat, secret: u64, in_shift: u64, out_shift: u64) -> Seq<nat> {
    Seq::new(n, |k: int| custom_slot(k as nat, size, secret, in_shift, out_shift))
}

proof fn lemma_custom_prefix_push(
    before: Seq<nat>,
    n: nat,
    size: nat,
    secret: u64,
    in_shift: u64,
    out_shift: u64,
)
    requires
        before == custom_prefix(n, size, secret, in_shift, out_shift),
    ensures
        before.push(custom_slot(n, size, secret, in_shift, out_shift)) == custom_prefix(
            n + 1,
            size,
            secret,
            in_shift,
            out_shift,
        ),
{
    assert(before.push(custom_slot(n, size, secret, in_shift, out_shift)) =~= custom_prefix(
        n + 1,
        size,
        secret,
        in_shift,
        out_shift,
    ));
}

/// Home slots of the keys `0 .. size / 2` under the custom mixer.
pub open spec fn custom_slots(size: nat, secret: u64, in_shift: u64, out_shift: u64) -> Seq<nat> {
    custom_prefix(size / 2, size, secret, in_shift, out_shift)
}

/// Home slot of key `i` in a table of `table_size` slots. The key is shifted
/// left by `in_shift` and hashed; the hash is shifted right by `out_shift`.
/// The custom mixer's hash is reduced by multiplication, the delegated one's
/// by masking with `table_size - 1`.
pub fn home_slot(hasher: &KeyedHasher, i: usize, table_size: usize, in_shift: u64, out_shift: u64) -> (h: usize)
    requires
        i < table_size,
        in_shift < 64,
        out_shift < 64,
    ensures
        h < table_size,
        !hasher.delegated ==> h == custom_slot(i as nat, table_size as nat, hasher.secret, in_shift, out_shift),
{
    let key = (i as u64) << in_shift;
    let x = hasher.hash(key) >> out_shift;
    if hasher.delegated {
        let mask = table_size - 1;
        let h = (x as usize) & mask;
        assert(h <= mask) by (bit_vector)
            requires
                h == (x as usize) & mask,
        ;
        h
    } else {
        let n = table_size as u32;
        assert(n <= table_size) by (bit_vector)
            requires
                n == table_size as u32,
        ;
        reduce(x as u32, n)
    }
}

/// Fills a table of `table_size` free slots with the keys `0 .. table_size / 2`,
/// in order, each at the slot that linear probing from its home slot finds.
pub fn fill_table(table_size: usize, hash_secret: u64, use_ahash: bool, in_shift: u64, out_shift: u64) -> (table: Vec<bool>)
    requires
        in_shift < 64,
        out_shift < 64,
    ensures
        table@.len() == table_size,
        occupied_count(table@) == table_size / 2,
        !use_ahash ==> table@ == fill_model(
            custom_slots(table_size as nat, hash_secret, in_shift, out_shift),
            table_size as nat,
        ),
        exists|slots: Seq<nat>|
            slots.len() == table_size / 2 && (forall|k: int| 0 <= k < slots.len() ==> #[trigger] slots[k] < table_size)
                && table@ == #[trigger] fill_model(slots, table_size as nat),
{
    let mut table: Vec<bool> = Vec::new();
    while table.len() < table_size
        invariant
            table.len() <= table_size,
            table@ == Seq::new(table.len() as nat, |i: int| false),
        decreases table_size - table.len(),
    {
        table.push(false);
        assert(table@ =~= Seq::new(table.len() as nat, |i: int| false));
    }
    proof {
        lemma_count_all_free(table_size as nat);
    }
    let hasher = KeyedHasher::new(hash_secret, use_ahash);
    let half = table_size / 2;
    let ghost size = table_size as nat;
    let ghost mut slots: Seq<nat> = Seq::empty();
    let mut i: usize = 0;
    while i < half
        invariant
            half == table_size / 2,
            i <= half,
            in_shift < 64,
            out_shift < 64,
            size == table_size as nat,
            table@.len() == table_size,
            hasher.secret == hash_secret,
            hasher.delegated == use_ahash,
            slots.len() == i,
            forall|k: int| 0 <= k < slots.len() ==> #[trigger] slots[k] < table_size,
            table@ == fill_model(slots, size),
            occupied_count(table@) == i,
            !use_ahash ==> slots == custom_prefix(i as nat, size, hash_secret, in_shift, out_shift),
        decreases half - i,
    {
        let h = home_slot(&hasher, i, table_size, in_shift, out_shift);
        probe_insert(&mut table, h);
        proof {
            let before = slots;
            slots = slots.push(h as nat);
            assert(slots.drop_last() =~= before);
            if !use_ahash {
                lemma_custom_prefix_push(before, i as nat, size, hash_secret, in_shift, out_shift);
            }
        }
        i = i + 1;
    }
    proof {
        if !use_ahash {
            assert(slots == custom_slots(size, hash_secret, in_shift, out_shift));
        }
    }
    table
}

/// Builds a half-full table with `fill_table` and measures its runs.
pub fn run_distribution_test(
    table_size: usize,
    hash_secret: u64,
    use_ahash: bool,
    in_shift: u64,
    out_shift: u64,
) -> (st: RunStats)
    requires
        in_shift < 64,
        out_shift < 64,
    ensures
        st.total_len == table_size / 2,
        !use_ahash ==> st.num_runs == runs(
            fill_model(custom_slots(table_size as nat, hash_secret, in_shift, out_shift), table_size as nat),
        ).len(),
        exists|slots: Seq<nat>|
            slots.len() == table_size / 2 && (forall|k: int| 0 <= k < slots.len() ==> #[trigger] slots[k] < table_size)
                && st.num_runs == runs(#[trigger] fill_model(slots, table_size as nat)).len(),
{
    let table = fill_table(table_size, hash_secret, use_ahash, in_shift, out_shift);
    let st = run_lengths(&table);
    proof {
        lemma_runs_cover_occupied(table@);
        let slots = choose|slots: Seq<nat>|
            slots.len() == table_size / 2 && (forall|k: int| 0 <= k < slots.len() ==> #[trigger] slots[k] < table_size)
                && table@ == #[trigger] fill_model(slots, table_size as nat);
        assert(st.num_runs == runs(fill_model(slots, table_size as nat)).len());
    }
    st
}

} // verus!
