//! Quality probes for 64-bit hash functions: a keyed multiply-rotate-xor
//! mixer, a cycle finder that iterates a mixer as a generator, and an
//! open-addressing slot-distribution simulator with run-length statistics.
use vstd::prelude::*;

pub mod cycle;
pub mod dist;
pub mod mixer;
pub mod tweak;

verus! {

/// Base secret of the custom mixer and seed of the delegated hash.
pub const DEFAULT_SECRET: u64 = 0xe786_c22b_119c_1465;

/// Number of cycle searches, each with the secret one higher.
pub const CYCLE_TRIALS: u64 = 10;

/// Phase length beyond which a cycle search gives up.
pub const CYCLE_LIMIT: u64 = 0x10_0000_0000;

/// Slots of the distribution test's table.
pub const DIST_TABLE_SIZE: usize = 0x1000_0000;

/// Number of distribution trials, one per tweak.
pub const DIST_TWEAKS: u64 = 100;

/// Number of hashes of the throughput benchmark.
pub const BENCH_COUNT: u64 = 0x4000_0000;

/// Number of values written by the raw output modes.
pub const RAW_COUNT: u64 = 0x4_0000_0000;

} // verus!
