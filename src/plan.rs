//! Partition count, per-thread input ranges and buffer sizing.
use vstd::prelude::*;
use vstd::arithmetic::div_mod::lemma_fundamental_div_mod;
use vstd::arithmetic::mul::lemma_mul_inequality;
use vstd::arithmetic::power2::pow2;
use crate::hash::{lemma_partition_count_bounds, partition_count, valid_hash_bits};

verus! {

/// Reasons a run is refused before any partitioning work starts.
#[derive(Clone, Copy, Debug, PartialEq, Eq, Structural)]
pub enum ConfigError {
    /// The thread count is below one.
    InvalidThreadCount,
    /// The number of hash bits lies outside the accepted range.
    InvalidHashBits,
    /// Threads times partitions exceeds the caller's buffer ceiling.
    TooManyBuffers,
    /// The partitioning method id is neither of the known ones.
    InvalidMethod,
}

/// The two partitioning methods.
#[derive(Clone, Copy, Debug, PartialEq, Eq, Structural)]
pub enum PartitionMethod {
    /// Thread-private buffers per partition, gathered afterwards.
    IndependentOutput,
    /// Count per (thread, partition), then move into one shared array.
    CountThenMove,
}

impl PartitionMethod {
    /// The method with the given id: 1 for independent output, 2 for
    /// count-then-move. Any other id is a configuration error.
    pub fn from_id(id: i32) -> (r: Result<PartitionMethod, ConfigError>)
        ensures
            id == 1 ==> r == Ok::<PartitionMethod, ConfigError>(PartitionMethod::IndependentOutput),
            id == 2 ==> r == Ok::<PartitionMethod, ConfigError>(PartitionMethod::CountThenMove),
            id != 1 && id != 2 ==> r == Err::<PartitionMethod, ConfigError>(
                ConfigError::InvalidMethod,
            ),
    {
        if id == 1 {
            Ok(PartitionMethod::IndependentOutput)
        } else if id == 2 {
            Ok(PartitionMethod::CountThenMove)
        } else {
            Err(ConfigError::InvalidMethod)
        }
    }
}

/// Default buffer over-provisioning, in percent of the uniform estimate.
pub const DEFAULT_SAFETY_PERCENT: usize = 150;

/// The fixed parameters of one partitioning run.
#[derive(Clone, Copy, Debug, PartialEq, Eq, Structural)]
pub struct PartitionPlan {
    pub num_threads: usize,
    pub num_hash_bits: u32,
    pub num_partitions: usize,
    pub total_tuples: usize,
    /// Over-provisioning of the initial buffer capacity, in percent of the
    /// uniform estimate.
    pub safety_percent: usize,
}

/// First input index of thread `t` when `n` tuples are split over `threads`.
pub open spec fn range_start(n: nat, threads: nat, t: nat) -> nat {
    t * (n / threads) + if t < n % threads {
        t
    } else {
        n % threads
    }
}

/// Ceiling of `a / b`.
pub open spec fn ceil_div(a: nat, b: nat) -> nat {
    ((a + b - 1) as int / b as int) as nat
}

/// Initial capacity of one (thread, partition) buffer: the uniform share
/// `ceil(ceil(n / threads) / parts)` scaled by `percent / 100` (rounded up),
/// but never more than one thread's whole share.
pub open spec fn buffer_capacity(n: nat, threads: nat, parts: nat, percent: nat) -> nat {
    let share = ceil_div(n, threads);
    let scaled = ceil_div(ceil_div(share, parts) * percent, 100);
    if scaled < share {
        scaled
    } else {
        share
    }
}

pub proof fn lemma_range_start(n: nat, threads: nat, t: nat)
    requires
        threads >= 1,
        t < threads,
    ensures
        range_start(n, threads, 0) == 0,
        range_start(n, threads, threads) == n,
        range_start(n, threads, t) <= range_start(n, threads, t + 1) <= n,
        range_start(n, threads, t + 1) - range_start(n, threads, t) == n / threads + if t < n
            % threads {
            1int
        } else {
            0
        },
{
    let q = n / threads;
    lemma_fundamental_div_mod(n as int, threads as int);
    assert((t + 1) * q == t * q + q) by (nonlinear_arith);
    lemma_mul_inequality((t + 1) as int, threads as int, q as int);
    assert(0 * q == 0);
}

impl PartitionPlan {
    pub open spec fn wf(self) -> bool {
        &&& self.num_threads >= 1
        &&& valid_hash_bits(self.num_hash_bits as nat)
        &&& self.num_partitions == partition_count(self.num_hash_bits as nat)
    }

    /// First input index of thread `t`.
    pub open spec fn start_of(self, t: nat) -> nat {
        range_start(self.total_tuples as nat, self.num_threads as nat, t)
    }

    /// Checks the configuration and fixes the plan for `total_tuples` input
    /// tuples. `max_buffers` bounds the number of (thread, partition) buffers.
    pub fn new(total_tuples: usize, num_threads: i32, num_hash_bits: i32, max_buffers: usize) -> (r:
        Result<PartitionPlan, ConfigError>)
        ensures
            num_threads < 1 ==> r == Err::<PartitionPlan, ConfigError>(
                ConfigError::InvalidThreadCount,
            ),
            num_threads >= 1 && !valid_hash_bits(num_hash_bits as nat) ==> r == Err::<
                PartitionPlan,
                ConfigError,
            >(ConfigError::InvalidHashBits),
            num_threads >= 1 && 1 <= num_hash_bits <= 18 ==> (num_threads * pow2(
                num_hash_bits as nat,
            ) > max_buffers <==> r == Err::<PartitionPlan, ConfigError>(
                ConfigError::TooManyBuffers,
            )),
            r is Ok ==> {
                let plan = r->Ok_0;
                &&& plan.wf()
                &&& plan.num_threads == num_threads
                &&& plan.num_hash_bits == num_hash_bits
                &&& plan.total_tuples == total_tuples
                &&& plan.safety_percent == DEFAULT_SAFETY_PERCENT
            },
            num_threads >= 1 && 1 <= num_hash_bits <= 18 && num_threads * pow2(num_hash_bits as nat)
                <= max_buffers ==> r is Ok,
    {
        if num_threads < 1 {
            return Err(ConfigError::InvalidThreadCount);
        }
        if num_hash_bits < 1 || num_hash_bits > 18 {
            return Err(ConfigError::InvalidHashBits);
        }
        let bits = num_hash_bits as u32;
        proof {
            lemma_partition_count_bounds(bits as nat);
            vstd::bits::lemma_u64_shl_is_mul(1, bits as u64);
            assert(num_threads * pow2(bits as nat) <= 0x7fff_ffff * 0x40000) by (nonlinear_arith)
                requires
                    num_threads <= 0x7fff_ffff,
                    pow2(bits as nat) <= 0x40000,
                    num_threads >= 1,
            ;
        }
        let parts: u64 = 1u64 << (bits as u64);
        let buffers: u64 = (num_threads as u64) * parts;
        if buffers > max_buffers as u64 {
            return Err(ConfigError::TooManyBuffers);
        }
        Ok(PartitionPlan {
            num_threads: num_threads as usize,
            num_hash_bits: bits,
            num_partitions: parts as usize,
            total_tuples,
            safety_percent: DEFAULT_SAFETY_PERCENT,
        })
    }

    /// The input index range `[start, end)` scanned by thread `t`. The ranges
    /// of threads `0, 1, ..` follow one another and cover the input; their
    /// lengths differ by at most one.
    pub fn thread_range(&self, t: usize) -> (r: (usize, usize))
        requires
            self.wf(),
            t < self.num_threads,
        ensures
            r.0 == self.start_of(t as nat),
            r.1 == self.start_of((t + 1) as nat),
            r.0 <= r.1 <= self.total_tuples,
            r.1 - r.0 == self.total_tuples / self.num_threads || r.1 - r.0 == self.total_tuples
                / self.num_threads + 1,
    {
        proof {
            lemma_range_start(self.total_tuples as nat, self.num_threads as nat, t as nat);
        }
        let q = self.total_tuples / self.num_threads;
        let rem = self.total_tuples % self.num_threads;
        proof {
            lemma_mul_inequality(t as int, self.num_threads as int, q as int);
            lemma_fundamental_div_mod(self.total_tuples as int, self.num_threads as int);
        }
        let base = t * q;
        let start = if t < rem {
            base + t
        } else {
            base + rem
        };
        let len = if t < rem {
            q + 1
        } else {
            q
        };
        (start, start + len)
    }

    /// The same plan with another buffer over-provisioning percentage.
    pub fn with_safety_percent(self, safety_percent: usize) -> (r: PartitionPlan)
        ensures
            r == (PartitionPlan { safety_percent, ..self }),
    {
        PartitionPlan { safety_percent, ..self }
    }

    /// Initial capacity of each (thread, partition) buffer. Buffers grow past
    /// it as needed.
    pub fn initial_buffer_capacity(&self) -> (r: usize)
        requires
            self.wf(),
        ensures
            r == buffer_capacity(
                self.total_tuples as nat,
                self.num_threads as nat,
                self.num_partitions as nat,
                self.safety_percent as nat,
            ),
    {
        let safety_percent = self.safety_percent;
        let n = self.total_tuples as u128;
        let t = self.num_threads as u128;
        let p = self.num_partitions as u128;
        let share = (n + t - 1) / t;
        proof {
            lemma_partition_count_bounds(self.num_hash_bits as nat);
            lemma_fundamental_div_mod((n + t - 1) as int, t as int);
            assert(share <= n) by (nonlinear_arith)
                requires
                    t * share <= n + t - 1,
                    t >= 1,
            ;
        }
        let per_buffer = (share + p - 1) / p;
        proof {
            lemma_fundamental_div_mod((share + p - 1) as int, p as int);
            assert(per_buffer <= share) by (nonlinear_arith)
                requires
                    p * per_buffer <= share + p - 1,
                    p >= 1,
            ;
            assert(per_buffer * (safety_percent as u128) <= 0xffff_ffff_ffff_ffff * 0xffff_ffff_ffff_ffff)
                by (nonlinear_arith)
                requires
                    per_buffer <= 0xffff_ffff_ffff_ffff,
                    safety_percent <= 0xffff_ffff_ffff_ffff,
            ;
        }
        let scaled = (per_buffer * (safety_percent as u128) + 99) / 100;
        if scaled < share {
            scaled as usize
        } else {
            share as usize
        }
    }
}

} // verus!
