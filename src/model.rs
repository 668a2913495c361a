//! Mathematical model of a partitioned relation.
use vstd::prelude::*;
use vstd::arithmetic::power2::{lemma_pow2_pos, pow2};
use vstd::seq_lib::lemma_multiset_commutative;
use crate::hash::{partition_count, partition_of};
use crate::tuple::Tuple;

verus! {

broadcast use vstd::seq_lib::group_to_multiset_ensures, vstd::multiset::group_multiset_axioms;

/// The tuples of `s` whose key falls in partition `p`, in input order.
pub open spec fn part_of(s: Seq<Tuple>, bits: nat, p: nat) -> Seq<Tuple>
    decreases s.len(),
{
    if s.len() == 0 {
        Seq::empty()
    } else {
        let rest = part_of(s.drop_last(), bits, p);
        if partition_of(s.last().key, bits) == p {
            rest.push(s.last())
        } else {
            rest
        }
    }
}

/// Partitions `0 .. p` of `s`, laid out one after the other.
pub open spec fn grouped(s: Seq<Tuple>, bits: nat, p: nat) -> Seq<Tuple>
    decreases p,
{
    if p == 0 {
        Seq::empty()
    } else {
        grouped(s, bits, (p - 1) as nat) + part_of(s, bits, (p - 1) as nat)
    }
}

/// Where partition `p` starts in the partition-major layout of `s`.
pub open spec fn partition_start(s: Seq<Tuple>, bits: nat, p: nat) -> nat {
    grouped(s, bits, p).len()
}

/// Splitting the input splits every partition the same way.
pub proof fn lemma_part_of_append(a: Seq<Tuple>, b: Seq<Tuple>, bits: nat, p: nat)
    ensures
        part_of(a + b, bits, p) == part_of(a, bits, p) + part_of(b, bits, p),
    decreases b.len(),
{
    if b.len() == 0 {
        assert(a + b =~= a);
        assert(part_of(a, bits, p) + part_of(b, bits, p) =~= part_of(a, bits, p));
    } else {
        let b0 = b.drop_last();
        lemma_part_of_append(a, b0, bits, p);
        assert((a + b).drop_last() =~= a + b0);
        assert((a + b).last() == b.last());
        if partition_of(b.last().key, bits) == p {
            assert(part_of(a, bits, p) + part_of(b0, bits, p).push(b.last()) =~= (part_of(a, bits, p)
                + part_of(b0, bits, p)).push(b.last()));
        }
    }
}

/// The partitions of a prefix of `s` are prefixes of the partitions of `s`.
pub proof fn lemma_part_of_prefix(s: Seq<Tuple>, i: int, j: int, bits: nat, p: nat)
    requires
        0 <= i <= j <= s.len(),
    ensures
        part_of(s.subrange(0, j), bits, p) == part_of(s.subrange(0, i), bits, p) + part_of(
            s.subrange(i, j),
            bits,
            p,
        ),
{
    assert(s.subrange(0, j) =~= s.subrange(0, i) + s.subrange(i, j));
    lemma_part_of_append(s.subrange(0, i), s.subrange(i, j), bits, p);
}

/// One more input tuple adds it to its own partition and to no other.
pub proof fn lemma_part_of_push(s: Seq<Tuple>, x: Tuple, bits: nat, p: nat)
    ensures
        part_of(s.push(x), bits, p) == if partition_of(x.key, bits) == p {
            part_of(s, bits, p).push(x)
        } else {
            part_of(s, bits, p)
        },
{
    assert(s.push(x).drop_last() =~= s);
}

proof fn lemma_grouped_push(s: Seq<Tuple>, x: Tuple, bits: nat, p: nat)
    ensures
        grouped(s.push(x), bits, p).to_multiset() == if partition_of(x.key, bits) < p {
            grouped(s, bits, p).to_multiset().insert(x)
        } else {
            grouped(s, bits, p).to_multiset()
        },
    decreases p,
{
    if p > 0 {
        let q = (p - 1) as nat;
        lemma_grouped_push(s, x, bits, q);
        lemma_part_of_push(s, x, bits, q);
        lemma_multiset_commutative(grouped(s.push(x), bits, q), part_of(s.push(x), bits, q));
        lemma_multiset_commutative(grouped(s, bits, q), part_of(s, bits, q));
        assert(grouped(s.push(x), bits, p).to_multiset() =~= (if partition_of(x.key, bits) < p {
            grouped(s, bits, p).to_multiset().insert(x)
        } else {
            grouped(s, bits, p).to_multiset()
        }));
    }
}

/// All partitions together hold exactly the input tuples, each as often as
/// the input does.
pub proof fn lemma_grouped_is_permutation(s: Seq<Tuple>, bits: nat)
    ensures
        grouped(s, bits, partition_count(bits)).to_multiset() == s.to_multiset(),
        grouped(s, bits, partition_count(bits)).len() == s.len(),
    decreases s.len(),
{
    let n = partition_count(bits);
    if s.len() == 0 {
        lemma_grouped_empty(s, bits, n);
        assert(grouped(s, bits, n).to_multiset() =~= s.to_multiset());
    } else {
        let s0 = s.drop_last();
        let x = s.last();
        lemma_grouped_is_permutation(s0, bits);
        lemma_pow2_pos(bits);
        assert(s0.push(x) =~= s);
        lemma_grouped_push(s0, x, bits, n);
    }
    grouped(s, bits, n).to_multiset_ensures();
    s.to_multiset_ensures();
}

proof fn lemma_grouped_empty(s: Seq<Tuple>, bits: nat, p: nat)
    requires
        s.len() == 0,
    ensures
        grouped(s, bits, p).len() == 0,
    decreases p,
{
    if p > 0 {
        lemma_grouped_empty(s, bits, (p - 1) as nat);
    }
}

/// Partition starts do not decrease, and partition `p` ends where `p + 1` starts.
pub proof fn lemma_partition_start_step(s: Seq<Tuple>, bits: nat, p: nat, q: nat)
    requires
        p <= q,
    ensures
        partition_start(s, bits, p) <= partition_start(s, bits, q),
        partition_start(s, bits, p + 1) == partition_start(s, bits, p) + part_of(s, bits, p).len(),
    decreases q - p,
{
    if p < q {
        lemma_partition_start_step(s, bits, p, (q - 1) as nat);
    }
}

/// A sequence that holds each partition in its slot holds the whole layout.
pub proof fn lemma_layout(o: Seq<Tuple>, s: Seq<Tuple>, bits: nat, q: nat)
    requires
        partition_start(s, bits, q) <= o.len(),
        forall|p: nat|
            p < q ==> o.subrange(
                partition_start(s, bits, p) as int,
                partition_start(s, bits, p + 1) as int,
            ) == #[trigger] part_of(s, bits, p),
    ensures
        o.subrange(0, partition_start(s, bits, q) as int) == grouped(s, bits, q),
    decreases q,
{
    if q == 0 {
        assert(o.subrange(0, 0) =~= grouped(s, bits, 0));
    } else {
        let q0 = (q - 1) as nat;
        lemma_partition_start_step(s, bits, q0, q);
        lemma_layout(o, s, bits, q0);
        assert(o.subrange(0, partition_start(s, bits, q) as int) =~= o.subrange(
            0,
            partition_start(s, bits, q0) as int,
        ) + o.subrange(partition_start(s, bits, q0) as int, partition_start(s, bits, q) as int));
        assert(part_of(s, bits, q0) == o.subrange(
            partition_start(s, bits, q0) as int,
            partition_start(s, bits, q0 + 1) as int,
        ));
    }
}

/// A partition of `s` holds at most as many tuples as `s`.
pub proof fn lemma_part_of_len(s: Seq<Tuple>, bits: nat, p: nat)
    ensures
        part_of(s, bits, p).len() <= s.len(),
    decreases s.len(),
{
    if s.len() > 0 {
        lemma_part_of_len(s.drop_last(), bits, p);
    }
}

/// Partitions of the first `i` tuples fill the start of each partition's slot.
pub proof fn lemma_prefix_in_slot(s: Seq<Tuple>, bits: nat, i: int, p: nat)
    requires
        0 <= i <= s.len(),
    ensures
        part_of(s.subrange(0, i), bits, p).len() <= part_of(s, bits, p).len(),
        partition_start(s, bits, p) + part_of(s, bits, p).len() == partition_start(s, bits, p + 1),
{
    lemma_part_of_prefix(s, i, s.len() as int, bits, p);
    assert(s.subrange(0, s.len() as int) =~= s);
    lemma_partition_start_step(s, bits, p, p);
}

/// The slot of every partition below the partition count lies inside `s`.
pub proof fn lemma_slots_within(s: Seq<Tuple>, bits: nat, p: nat)
    requires
        p < partition_count(bits),
    ensures
        partition_start(s, bits, p + 1) <= s.len(),
{
    lemma_grouped_is_permutation(s, bits);
    lemma_partition_start_step(s, bits, p + 1, partition_count(bits));
}

} // verus!
