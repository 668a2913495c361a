//! Laws that tie the hash, the two partitioning methods and their layouts
//! together.
use vstd::prelude::*;
use crate::hash::{partition_count, partition_of, valid_hash_bits};
use crate::model::{
    grouped, lemma_grouped_is_permutation, lemma_partition_start_step, part_of, partition_start,
};
use crate::tuple::Tuple;
use vstd::arithmetic::power2::lemma_pow2_pos;

verus! {

/// Buffers `0 .. p` of a per-partition result, one after the other.
pub open spec fn joined(parts: Seq<Seq<Tuple>>, p: nat) -> Seq<Tuple>
    decreases p,
{
    if p == 0 {
        Seq::empty()
    } else {
        joined(parts, (p - 1) as nat) + parts[p - 1]
    }
}

/// Every key falls in one of the `2^bits` partitions.
pub proof fn lemma_partition_in_range(key: u64, bits: nat)
    requires
        valid_hash_bits(bits),
    ensures
        partition_of(key, bits) < partition_count(bits),
{
    lemma_pow2_pos(bits);
}

/// The partition sizes add up to the number of input tuples.
pub proof fn lemma_partition_sizes_sum(s: Seq<Tuple>, bits: nat)
    ensures
        partition_start(s, bits, partition_count(bits)) == s.len(),
{
    lemma_grouped_is_permutation(s, bits);
}

/// The partition-major layout holds the input tuples, each exactly as often
/// as the input does.
pub proof fn lemma_layout_keeps_tuples(s: Seq<Tuple>, bits: nat)
    ensures
        grouped(s, bits, partition_count(bits)).to_multiset() == s.to_multiset(),
{
    lemma_grouped_is_permutation(s, bits);
}

proof fn lemma_joined_parts(parts: Seq<Seq<Tuple>>, s: Seq<Tuple>, bits: nat, p: nat)
    requires
        p <= parts.len(),
        forall|q: int| 0 <= q < p ==> #[trigger] parts[q] == part_of(s, bits, q as nat),
    ensures
        joined(parts, p) == grouped(s, bits, p),
    decreases p,
{
    if p > 0 {
        lemma_joined_parts(parts, s, bits, (p - 1) as nat);
    }
}

/// Per-partition buffers that hold each partition of the input together
/// hold the input tuples, each exactly as often as the input does, and as
/// many tuples as the input.
pub proof fn lemma_partitions_keep_tuples(parts: Seq<Seq<Tuple>>, s: Seq<Tuple>, bits: nat)
    requires
        parts.len() == partition_count(bits),
        forall|p: int| 0 <= p < parts.len() ==> #[trigger] parts[p] == part_of(s, bits, p as nat),
    ensures
        joined(parts, parts.len()).to_multiset() == s.to_multiset(),
        joined(parts, parts.len()).len() == s.len(),
{
    lemma_joined_parts(parts, s, bits, parts.len());
    lemma_grouped_is_permutation(s, bits);
}

proof fn lemma_grouped_prefix(s: Seq<Tuple>, bits: nat, p: nat, q: nat)
    requires
        p <= q,
    ensures
        grouped(s, bits, q).subrange(0, partition_start(s, bits, p) as int) == grouped(s, bits, p),
    decreases q,
{
    if p < q {
        let q0 = (q - 1) as nat;
        lemma_grouped_prefix(s, bits, p, q0);
        lemma_partition_start_step(s, bits, p, q0);
        assert(grouped(s, bits, q).subrange(0, partition_start(s, bits, p) as int) =~= grouped(
            s,
            bits,
            q0,
        ).subrange(0, partition_start(s, bits, p) as int));
    } else {
        assert(grouped(s, bits, q).subrange(0, partition_start(s, bits, p) as int) =~= grouped(
            s,
            bits,
            p,
        ));
    }
}

/// Both methods put the same tuples in each partition: the slot of
/// partition `p` in the shared layout is exactly partition `p`, which is
/// what the per-partition buffers hold.
pub proof fn lemma_methods_agree(s: Seq<Tuple>, bits: nat, p: nat)
    requires
        valid_hash_bits(bits),
        p < partition_count(bits),
    ensures
        grouped(s, bits, partition_count(bits)).subrange(
            partition_start(s, bits, p) as int,
            partition_start(s, bits, p + 1) as int,
        ) == part_of(s, bits, p),
{
    let n = partition_count(bits);
    lemma_grouped_prefix(s, bits, p + 1, n);
    lemma_partition_start_step(s, bits, p, p + 1);
    lemma_partition_start_step(s, bits, p + 1, n);
    assert(grouped(s, bits, n).subrange(
        partition_start(s, bits, p) as int,
        partition_start(s, bits, p + 1) as int,
    ) =~= grouped(s, bits, n).subrange(0, partition_start(s, bits, p + 1) as int).subrange(
        partition_start(s, bits, p) as int,
        partition_start(s, bits, p + 1) as int,
    ));
    assert(grouped(s, bits, p + 1).subrange(
        partition_start(s, bits, p) as int,
        partition_start(s, bits, p + 1) as int,
    ) =~= part_of(s, bits, p));
}

} // verus!
