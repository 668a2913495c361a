use vstd::prelude::*;
use vstd::arithmetic::power2::{lemma2_to64, lemma_pow2_strictly_increases, pow2};
use vstd::bits::{lemma_u64_low_bits_mask_is_mod, lemma_u64_shl_is_mul, low_bits_mask};

verus! {

/// The smallest number of hash bits a plan accepts.
pub const MIN_HASH_BITS: u32 = 1;

/// The largest number of hash bits a plan accepts.
pub const MAX_HASH_BITS: u32 = 18;

pub open spec fn valid_hash_bits(bits: nat) -> bool {
    MIN_HASH_BITS <= bits <= MAX_HASH_BITS
}

/// Number of partitions selected by `bits` hash bits.
pub open spec fn partition_count(bits: nat) -> nat {
    pow2(bits)
}

/// The partition of a key: its low `bits` bits.
pub open spec fn partition_of(key: u64, bits: nat) -> nat {
    key as nat % pow2(bits)
}

pub proof fn lemma_partition_count_bounds(bits: nat)
    requires
        valid_hash_bits(bits),
    ensures
        2 <= partition_count(bits) <= 0x40000,
{
    lemma2_to64();
    if bits < 18 {
        lemma_pow2_strictly_increases(bits, 18);
    }
    if bits > 1 {
        lemma_pow2_strictly_increases(1, bits);
    }
}

/// Radix hash: selects the partition of `key` from its low `num_hash_bits` bits.
pub fn hash(key: u64, num_hash_bits: u32) -> (r: u32)
    requires
        valid_hash_bits(num_hash_bits as nat),
    ensures
        r as nat == partition_of(key, num_hash_bits as nat),
        (r as nat) < partition_count(num_hash_bits as nat),
{
    let b = num_hash_bits as u64;
    proof {
        lemma_partition_count_bounds(b as nat);
        lemma_u64_shl_is_mul(1, b);
        lemma_u64_low_bits_mask_is_mod(key, b as nat);
    }
    let mask: u64 = (1u64 << b) - 1;
    assert(mask == low_bits_mask(b as nat) as u64);
    (key & mask) as u32
}

} // verus!
