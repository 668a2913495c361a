//! Count-then-move partitioning: count per (thread, partition), turn the
//! counts into exclusive offsets, then place every tuple in one shared array.
use vstd::prelude::*;
use crate::hash::{hash, partition_count, partition_of};
use crate::model::{
    grouped, lemma_grouped_is_permutation, lemma_layout, lemma_part_of_len, lemma_part_of_prefix,
    lemma_part_of_push, lemma_partition_start_step, lemma_prefix_in_slot, lemma_slots_within,
    part_of, partition_start,
};
use crate::plan::{lemma_range_start, PartitionPlan};
use crate::tuple::Tuple;

verus! {

/// Tuples of partition `p` among the first `i` tuples of `s`.
pub open spec fn prefix_count(s: Seq<Tuple>, bits: nat, i: int, p: nat) -> nat {
    part_of(s.subrange(0, i), bits, p).len()
}

/// Tuples of partition `p` in thread `t`'s input range.
pub open spec fn range_count(plan: PartitionPlan, s: Seq<Tuple>, t: nat, p: nat) -> nat {
    part_of(
        s.subrange(plan.start_of(t) as int, plan.start_of(t + 1) as int),
        plan.num_hash_bits as nat,
        p,
    ).len()
}

/// Every tuple among the first `i` of `s` sits in its partition's slot of
/// `out`, in input order.
pub open spec fn placed_upto(out: Seq<Tuple>, s: Seq<Tuple>, bits: nat, i: int) -> bool {
    forall|p: nat, j: int|
        #![trigger part_of(s.subrange(0, i), bits, p)[j]]
        p < partition_count(bits) && 0 <= j < prefix_count(s, bits, i, p) ==> out[partition_start(
            s,
            bits,
            p,
        ) + j] == part_of(s.subrange(0, i), bits, p)[j]
}

/// The output of count-then-move: all tuples in one array, partition by
/// partition, and where each partition starts.
pub struct SharedOutput {
    pub tuples: Vec<Tuple>,
    /// `partition_starts[p] .. partition_starts[p + 1]` is partition `p`;
    /// the last entry is the number of tuples.
    pub partition_starts: Vec<usize>,
}

/// Pass one for thread `t`: how many tuples of its input range fall in each
/// partition.
pub fn count_range(plan: &PartitionPlan, input: &Vec<Tuple>, t: usize) -> (r: Vec<usize>)
    requires
        plan.wf(),
        input.len() == plan.total_tuples,
        t < plan.num_threads,
    ensures
        r.len() == plan.num_partitions,
        forall|p: int| 0 <= p < r.len() ==> r[p] == range_count(*plan, input@, t as nat, p as nat),
{
    let bits = plan.num_hash_bits;
    let (start, end) = plan.thread_range(t);
    let mut row: Vec<usize> = Vec::new();
    let mut p: usize = 0;
    while p < plan.num_partitions
        invariant
            p <= plan.num_partitions,
            row.len() == p,
            forall|k: int| 0 <= k < p ==> row[k] == 0,
        decreases plan.num_partitions - p,
    {
        row.push(0);
        p = p + 1;
    }
    let ghost s = input@;
    let mut i: usize = start;
    while i < end
        invariant
            plan.wf(),
            start <= i <= end <= input.len(),
            bits == plan.num_hash_bits,
            s == input@,
            row.len() == plan.num_partitions,
            forall|k: int|
                0 <= k < row.len() ==> row[k] == part_of(
                    s.subrange(start as int, i as int),
                    bits as nat,
                    k as nat,
                ).len(),
        decreases end - i,
    {
        let x = input[i];
        let q = hash(x.key, bits) as usize;
        proof {
            assert(s.subrange(start as int, i + 1) =~= s.subrange(start as int, i as int).push(x));
            assert forall|k: nat| #[trigger]
                part_of(s.subrange(start as int, i + 1), bits as nat, k) == if partition_of(
                    x.key,
                    bits as nat,
                ) == k {
                    part_of(s.subrange(start as int, i as int), bits as nat, k).push(x)
                } else {
                    part_of(s.subrange(start as int, i as int), bits as nat, k)
                } by {
                lemma_part_of_push(s.subrange(start as int, i as int), x, bits as nat, k);
            }
            lemma_part_of_len(s.subrange(start as int, i as int), bits as nat, q as nat);
        }
        let c = row[q];
        row.set(q, c + 1);
        i = i + 1;
    }
    row
}

/// Exclusive prefix sums of the histogram in partition-major order:
/// `offsets[p][t]` is where thread `t` starts writing partition `p`.
fn exclusive_offsets(plan: &PartitionPlan, input: &Vec<Tuple>, hist: &Vec<Vec<usize>>) -> (r: Vec<
    Vec<usize>,
>)
    requires
        plan.wf(),
        input.len() == plan.total_tuples,
        hist.len() == plan.num_threads,
        forall|t: int|
            0 <= t < hist.len() ==> #[trigger] hist[t].len() == plan.num_partitions,
        forall|t: int, p: int|
            0 <= t < hist.len() && 0 <= p < plan.num_partitions ==> #[trigger] hist[t][p]
                == range_count(*plan, input@, t as nat, p as nat),
    ensures
        r.len() == plan.num_partitions,
        forall|p: int| 0 <= p < r.len() ==> #[trigger] r[p].len() == plan.num_threads,
        forall|p: int, t: int|
            0 <= p < r.len() && 0 <= t < plan.num_threads ==> #[trigger] r[p][t] == partition_start(
                input@,
                plan.num_hash_bits as nat,
                p as nat,
            ) + prefix_count(input@, plan.num_hash_bits as nat, plan.start_of(t as nat) as int, p as nat),
{
    let ghost s = input@;
    let ghost bits = plan.num_hash_bits as nat;
    let ghost n = plan.total_tuples as nat;
    let threads = plan.num_threads;
    proof {
        lemma_range_start(n, threads as nat, 0);
        assert(s.subrange(0, 0) =~= Seq::<Tuple>::empty());
    }
    let mut offsets: Vec<Vec<usize>> = Vec::new();
    let mut acc: usize = 0;
    let mut p: usize = 0;
    while p < plan.num_partitions
        invariant
            plan.wf(),
            s == input@,
            bits == plan.num_hash_bits,
            n == plan.total_tuples,
            threads == plan.num_threads,
            n == s.len(),
            hist.len() == threads,
            forall|t: int| 0 <= t < hist.len() ==> #[trigger] hist[t].len() == plan.num_partitions,
            forall|t: int, q: int|
                0 <= t < hist.len() && 0 <= q < plan.num_partitions ==> #[trigger] hist[t][q]
                    == range_count(*plan, s, t as nat, q as nat),
            p <= plan.num_partitions,
            offsets.len() == p,
            acc == partition_start(s, bits, p as nat),
            forall|q: int| 0 <= q < p ==> #[trigger] offsets[q].len() == threads,
            forall|q: int, t: int|
                0 <= q < p && 0 <= t < threads ==> #[trigger] offsets[q][t] == partition_start(
                    s,
                    bits,
                    q as nat,
                ) + prefix_count(s, bits, plan.start_of(t as nat) as int, q as nat),
        decreases plan.num_partitions - p,
    {
        let mut col: Vec<usize> = Vec::new();
        let mut t: usize = 0;
        proof {
            lemma_slots_within(s, bits, p as nat);
        }
        while t < threads
            invariant
                plan.wf(),
                s == input@,
                bits == plan.num_hash_bits,
                n == plan.total_tuples,
                threads == plan.num_threads,
                n == s.len(),
                hist.len() == threads,
                forall|t: int|
                    0 <= t < hist.len() ==> #[trigger] hist[t].len() == plan.num_partitions,
                forall|t: int, q: int|
                    0 <= t < hist.len() && 0 <= q < plan.num_partitions ==> #[trigger] hist[t][q]
                        == range_count(*plan, s, t as nat, q as nat),
                p < plan.num_partitions,
                partition_start(s, bits, p as nat + 1) <= n,
                t <= threads,
                col.len() == t,
                acc == partition_start(s, bits, p as nat) + prefix_count(
                    s,
                    bits,
                    plan.start_of(t as nat) as int,
                    p as nat,
                ),
                forall|u: int|
                    0 <= u < t ==> #[trigger] col[u] == partition_start(s, bits, p as nat)
                        + prefix_count(s, bits, plan.start_of(u as nat) as int, p as nat),
            decreases threads - t,
        {
            col.push(acc);
            proof {
                lemma_range_start(n, threads as nat, t as nat);
                lemma_part_of_prefix(
                    s,
                    plan.start_of(t as nat) as int,
                    plan.start_of(t as nat + 1) as int,
                    bits,
                    p as nat,
                );
                lemma_prefix_in_slot(s, bits, plan.start_of(t as nat + 1) as int, p as nat);
            }
            assert(hist[t as int].len() == plan.num_partitions);
            acc = acc + hist[t][p];
            t = t + 1;
        }
        proof {
            lemma_range_start(n, threads as nat, 0);
            assert(s.subrange(0, n as int) =~= s);
            lemma_prefix_in_slot(s, bits, n as int, p as nat);
        }
        offsets.push(col);
        p = p + 1;
    }
    offsets
}

/// Pass two for thread `t`: writes each tuple of its input range at its
/// partition's cursor, the cursors starting at the thread's offsets.
fn move_range(
    plan: &PartitionPlan,
    input: &Vec<Tuple>,
    t: usize,
    offsets: &Vec<Vec<usize>>,
    out: &mut Vec<Tuple>,
)
    requires
        plan.wf(),
        input.len() == plan.total_tuples,
        t < plan.num_threads,
        offsets.len() == plan.num_partitions,
        forall|p: int| 0 <= p < offsets.len() ==> #[trigger] offsets[p].len() == plan.num_threads,
        forall|p: int, u: int|
            0 <= p < offsets.len() && 0 <= u < plan.num_threads ==> #[trigger] offsets[p][u]
                == partition_start(input@, plan.num_hash_bits as nat, p as nat) + prefix_count(
                input@,
                plan.num_hash_bits as nat,
                plan.start_of(u as nat) as int,
                p as nat,
            ),
        old(out).len() == plan.total_tuples,
        placed_upto(old(out)@, input@, plan.num_hash_bits as nat, plan.start_of(t as nat) as int),
    ensures
        final(out).len() == plan.total_tuples,
        placed_upto(
            final(out)@,
            input@,
            plan.num_hash_bits as nat,
            plan.start_of(t as nat + 1) as int,
        ),
{
    let ghost s = input@;
    let bits = plan.num_hash_bits;
    let ghost b = bits as nat;
    let (start, end) = plan.thread_range(t);
    let mut cursors: Vec<usize> = Vec::new();
    let mut p: usize = 0;
    while p < plan.num_partitions
        invariant
            p <= plan.num_partitions,
            offsets.len() == plan.num_partitions,
            forall|q: int| 0 <= q < offsets.len() ==> #[trigger] offsets[q].len() == plan.num_threads,
            t < plan.num_threads,
            cursors.len() == p,
            forall|q: int| 0 <= q < p ==> #[trigger] cursors[q] == offsets[q][t as int],
        decreases plan.num_partitions - p,
    {
        assert(offsets[p as int].len() == plan.num_threads);
        cursors.push(offsets[p][t]);
        p = p + 1;
    }
    let mut i: usize = start;
    while i < end
        invariant
            plan.wf(),
            s == input@,
            bits == plan.num_hash_bits,
            b == bits as nat,
            start <= i <= end <= s.len(),
            s.len() == plan.total_tuples,
            out.len() == plan.total_tuples,
            cursors.len() == plan.num_partitions,
            forall|q: int|
                0 <= q < cursors.len() ==> #[trigger] cursors[q] == partition_start(s, b, q as nat)
                    + prefix_count(s, b, i as int, q as nat),
            placed_upto(out@, s, b, i as int),
        decreases end - i,
    {
        let x = input[i];
        let q = hash(x.key, bits) as usize;
        let c = cursors[q];
        let ghost before = out@;
        proof {
            assert(s.subrange(0, i + 1) =~= s.subrange(0, i as int).push(x));
            lemma_part_of_push(s.subrange(0, i as int), x, b, q as nat);
            lemma_prefix_in_slot(s, b, i + 1, q as nat);
            lemma_slots_within(s, b, q as nat);
        }
        out.set(c, x);
        cursors.set(q, c + 1);
        proof {
            assert forall|p: nat, j: int|
                p < partition_count(b) && 0 <= j < prefix_count(s, b, i + 1, p) implies out@[partition_start(s, b, p) + j]
                    == #[trigger] part_of(s.subrange(0, i + 1), b, p)[j] by {
                lemma_part_of_push(s.subrange(0, i as int), x, b, p);
                lemma_prefix_in_slot(s, b, i as int, p);
                lemma_slots_within(s, b, p);
                assert(partition_of(x.key, b) == q);
                if p != q {
                    lemma_prefix_in_slot(s, b, i as int, p);
                    if p < q {
                        lemma_partition_start_step(s, b, p + 1, q as nat);
                    } else {
                        lemma_partition_start_step(s, b, q as nat + 1, p);
                    }
                    assert(before[partition_start(s, b, p) + j] == part_of(s.subrange(0, i as int), b, p)[j]);
                    assert(partition_start(s, b, p) + j != c);
                    assert(part_of(s.subrange(0, i + 1), b, p) == part_of(s.subrange(0, i as int), b, p));
                } else if j < prefix_count(s, b, i as int, p) {
                    assert(before[partition_start(s, b, p) + j] == part_of(s.subrange(0, i as int), b, p)[j]);
                }
            }
            assert forall|k: int| 0 <= k < cursors.len() implies #[trigger] cursors[k] == partition_start(s, b, k as nat)
                    + prefix_count(s, b, i + 1, k as nat) by {
                lemma_part_of_push(s.subrange(0, i as int), x, b, k as nat);
            }
        }
        i = i + 1;
    }
}

/// Count-then-move partitioning. Every thread counts its input range per
/// partition; the counts become exclusive offsets in partition-major order;
/// every thread then writes its tuples into one array of exactly the input's
/// size. The result holds partition 0, then partition 1, and so on, each
/// partition in input order.
pub fn count_then_move(plan: &PartitionPlan, input: &Vec<Tuple>) -> (r: SharedOutput)
    requires
        plan.wf(),
        input.len() == plan.total_tuples,
    ensures
        r.tuples@ == grouped(input@, plan.num_hash_bits as nat, plan.num_partitions as nat),
        r.tuples.len() == input.len(),
        r.tuples@.to_multiset() == input@.to_multiset(),
        r.partition_starts.len() == plan.num_partitions + 1,
        forall|p: int|
            0 <= p <= plan.num_partitions ==> #[trigger] r.partition_starts[p] == partition_start(
                input@,
                plan.num_hash_bits as nat,
                p as nat,
            ),
{
    let ghost s = input@;
    let ghost b = plan.num_hash_bits as nat;
    let ghost n = plan.total_tuples as nat;
    let threads = plan.num_threads;
    let mut hist: Vec<Vec<usize>> = Vec::new();
    let mut t: usize = 0;
    while t < threads
        invariant
            plan.wf(),
            input.len() == plan.total_tuples,
            threads == plan.num_threads,
            t <= threads,
            hist.len() == t,
            forall|u: int| 0 <= u < t ==> #[trigger] hist[u].len() == plan.num_partitions,
            forall|u: int, p: int|
                0 <= u < t && 0 <= p < plan.num_partitions ==> #[trigger] hist[u][p]
                    == range_count(*plan, input@, u as nat, p as nat),
        decreases threads - t,
    {
        let row = count_range(plan, input, t);
        hist.push(row);
        t = t + 1;
    }
    let offsets = exclusive_offsets(plan, input, &hist);
    let mut out: Vec<Tuple> = Vec::new();
    let mut k: usize = 0;
    while k < plan.total_tuples
        invariant
            k <= plan.total_tuples,
            out.len() == k,
        decreases plan.total_tuples - k,
    {
        out.push(Tuple { key: 0, payload: 0 });
        k = k + 1;
    }
    proof {
        lemma_range_start(n, threads as nat, 0);
        assert(s.subrange(0, 0) =~= Seq::<Tuple>::empty());
    }
    let mut t: usize = 0;
    while t < threads
        invariant
            plan.wf(),
            s == input@,
            b == plan.num_hash_bits,
            n == plan.total_tuples,
            input.len() == plan.total_tuples,
            threads == plan.num_threads,
            t <= threads,
            out.len() == plan.total_tuples,
            offsets.len() == plan.num_partitions,
            forall|p: int| 0 <= p < offsets.len() ==> #[trigger] offsets[p].len() == plan.num_threads,
            forall|p: int, u: int|
                0 <= p < offsets.len() && 0 <= u < plan.num_threads ==> #[trigger] offsets[p][u]
                    == partition_start(s, b, p as nat) + prefix_count(
                    s,
                    b,
                    plan.start_of(u as nat) as int,
                    p as nat,
                ),
            placed_upto(out@, s, b, plan.start_of(t as nat) as int),
        decreases threads - t,
    {
        move_range(plan, input, t, &offsets, &mut out);
        t = t + 1;
    }
    proof {
        lemma_range_start(n, threads as nat, 0);
        assert(s.subrange(0, n as int) =~= s);
        lemma_grouped_is_permutation(s, b);
        assert forall|p: nat| p < partition_count(b) implies out@.subrange(
            partition_start(s, b, p) as int,
            partition_start(s, b, p + 1) as int,
        ) == #[trigger] part_of(s, b, p) by {
            lemma_prefix_in_slot(s, b, n as int, p);
            lemma_slots_within(s, b, p);
            assert(out@.subrange(partition_start(s, b, p) as int, partition_start(s, b, p + 1) as int)
                =~= part_of(s.subrange(0, n as int), b, p));
        }
        lemma_layout(out@, s, b, partition_count(b));
        assert(out@ =~= out@.subrange(0, partition_start(s, b, partition_count(b)) as int));
    }
    let mut starts: Vec<usize> = Vec::new();
    let mut p: usize = 0;
    while p < plan.num_partitions
        invariant
            plan.wf(),
            s == input@,
            b == plan.num_hash_bits,
            p <= plan.num_partitions,
            starts.len() == p,
            offsets.len() == plan.num_partitions,
            forall|q: int| 0 <= q < offsets.len() ==> #[trigger] offsets[q].len() == plan.num_threads,
            forall|q: int, u: int|
                0 <= q < offsets.len() && 0 <= u < plan.num_threads ==> #[trigger] offsets[q][u]
                    == partition_start(s, b, q as nat) + prefix_count(
                    s,
                    b,
                    plan.start_of(u as nat) as int,
                    q as nat,
                ),
            plan.start_of(0) == 0,
            s.subrange(0, 0) == Seq::<Tuple>::empty(),
            forall|q: int| 0 <= q < p ==> #[trigger] starts[q] == partition_start(s, b, q as nat),
        decreases plan.num_partitions - p,
    {
        assert(offsets[p as int].len() == plan.num_threads);
        starts.push(offsets[p][0]);
        p = p + 1;
    }
    starts.push(plan.total_tuples);
    SharedOutput { tuples: out, partition_starts: starts }
}

} // verus!
