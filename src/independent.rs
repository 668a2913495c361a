//! Independent-output partitioning: every thread scatters its input range
//! into buffers of its own, one per partition; a gather step then joins the
//! buffers of each partition in thread order.
use vstd::prelude::*;
use crate::hash::{hash, partition_of};
use crate::model::{lemma_part_of_prefix, lemma_part_of_push, part_of};
use crate::plan::{lemma_range_start, PartitionPlan};
use crate::tuple::Tuple;

verus! {

/// Partition `p`'s buffers of threads `0 .. t`, one after the other.
pub open spec fn thread_concat(locals: Seq<Vec<Vec<Tuple>>>, p: int, t: nat) -> Seq<Tuple>
    decreases t,
{
    if t == 0 {
        Seq::empty()
    } else {
        thread_concat(locals, p, (t - 1) as nat) + locals[t - 1][p]@
    }
}

/// The scan of thread `t`: its input range split into one buffer per
/// partition, each in input order. Buffers start at the plan's capacity
/// estimate and grow as needed, so a skewed key distribution loses nothing.
pub fn scatter_range(plan: &PartitionPlan, input: &Vec<Tuple>, t: usize) -> (r: Vec<Vec<Tuple>>)
    requires
        plan.wf(),
        input.len() == plan.total_tuples,
        t < plan.num_threads,
    ensures
        r.len() == plan.num_partitions,
        forall|p: int|
            0 <= p < r.len() ==> #[trigger] r[p]@ == part_of(
                input@.subrange(plan.start_of(t as nat) as int, plan.start_of((t + 1) as nat) as int),
                plan.num_hash_bits as nat,
                p as nat,
            ),
{
    let ghost s = input@;
    let bits = plan.num_hash_bits;
    let ghost b = bits as nat;
    let (start, end) = plan.thread_range(t);
    let capacity = plan.initial_buffer_capacity();
    let mut buffers: Vec<Vec<Tuple>> = Vec::new();
    let mut p: usize = 0;
    while p < plan.num_partitions
        invariant
            p <= plan.num_partitions,
            buffers.len() == p,
            forall|q: int| 0 <= q < p ==> #[trigger] buffers[q]@.len() == 0,
        decreases plan.num_partitions - p,
    {
        buffers.push(Vec::with_capacity(capacity));
        p = p + 1;
    }
    let mut i: usize = start;
    while i < end
        invariant
            plan.wf(),
            s == input@,
            bits == plan.num_hash_bits,
            b == bits as nat,
            start <= i <= end <= s.len(),
            buffers.len() == plan.num_partitions,
            forall|q: int|
                0 <= q < buffers.len() ==> #[trigger] buffers[q]@ == part_of(
                    s.subrange(start as int, i as int),
                    b,
                    q as nat,
                ),
        decreases end - i,
    {
        let x = input[i];
        let q = hash(x.key, bits) as usize;
        proof {
            assert(s.subrange(start as int, i + 1) =~= s.subrange(start as int, i as int).push(x));
            assert forall|k: nat| #[trigger]
                part_of(s.subrange(start as int, i + 1), b, k) == if partition_of(x.key, b) == k {
                    part_of(s.subrange(start as int, i as int), b, k).push(x)
                } else {
                    part_of(s.subrange(start as int, i as int), b, k)
                } by {
                lemma_part_of_push(s.subrange(start as int, i as int), x, b, k);
            }
        }
        buffers[q].push(x);
        i = i + 1;
    }
    buffers
}

/// The gather step: for every partition, the buffers of all threads joined
/// in thread order.
pub fn gather(plan: &PartitionPlan, locals: &Vec<Vec<Vec<Tuple>>>) -> (r: Vec<Vec<Tuple>>)
    requires
        plan.wf(),
        forall|t: int| 0 <= t < locals.len() ==> #[trigger] locals[t].len() == plan.num_partitions,
    ensures
        r.len() == plan.num_partitions,
        forall|p: int|
            0 <= p < r.len() ==> #[trigger] r[p]@ == thread_concat(locals@, p, locals.len() as nat),
{
    let mut out: Vec<Vec<Tuple>> = Vec::new();
    let mut p: usize = 0;
    while p < plan.num_partitions
        invariant
            p <= plan.num_partitions,
            forall|t: int| 0 <= t < locals.len() ==> #[trigger] locals[t].len() == plan.num_partitions,
            out.len() == p,
            forall|q: int|
                0 <= q < p ==> #[trigger] out[q]@ == thread_concat(locals@, q, locals.len() as nat),
        decreases plan.num_partitions - p,
    {
        let mut joined: Vec<Tuple> = Vec::new();
        let mut t: usize = 0;
        while t < locals.len()
            invariant
                p < plan.num_partitions,
                forall|u: int|
                    0 <= u < locals.len() ==> #[trigger] locals[u].len() == plan.num_partitions,
                t <= locals.len(),
                joined@ == thread_concat(locals@, p as int, t as nat),
            decreases locals.len() - t,
        {
            assert(locals[t as int].len() == plan.num_partitions);
            let buffer = &locals[t][p];
            let ghost before = joined@;
            let mut k: usize = 0;
            while k < buffer.len()
                invariant
                    k <= buffer.len(),
                    joined@ == before + buffer@.subrange(0, k as int),
                decreases buffer.len() - k,
            {
                joined.push(buffer[k]);
                k = k + 1;
                assert(joined@ =~= before + buffer@.subrange(0, k as int));
            }
            assert(buffer@.subrange(0, k as int) =~= buffer@);
            t = t + 1;
        }
        out.push(joined);
        p = p + 1;
    }
    out
}

proof fn lemma_concat_is_prefix(
    plan: PartitionPlan,
    s: Seq<Tuple>,
    locals: Seq<Vec<Vec<Tuple>>>,
    p: int,
    t: nat,
)
    requires
        plan.wf(),
        s.len() == plan.total_tuples,
        t <= plan.num_threads,
        locals.len() == plan.num_threads,
        0 <= p < plan.num_partitions,
        forall|u: int|
            0 <= u < locals.len() ==> (#[trigger] locals[u])[p]@ == part_of(
                s.subrange(plan.start_of(u as nat) as int, plan.start_of((u + 1) as nat) as int),
                plan.num_hash_bits as nat,
                p as nat,
            ),
    ensures
        thread_concat(locals, p, t) == part_of(
            s.subrange(0, plan.start_of(t) as int),
            plan.num_hash_bits as nat,
            p as nat,
        ),
    decreases t,
{
    let n = plan.total_tuples as nat;
    let threads = plan.num_threads as nat;
    lemma_range_start(n, threads, 0);
    if t == 0 {
        assert(s.subrange(0, 0) =~= Seq::<Tuple>::empty());
    } else {
        let u = (t - 1) as nat;
        lemma_concat_is_prefix(plan, s, locals, p, u);
        lemma_range_start(n, threads, u);
        lemma_part_of_prefix(
            s,
            plan.start_of(u) as int,
            plan.start_of(t) as int,
            plan.num_hash_bits as nat,
            p as nat,
        );
        assert(locals[u as int][p]@ == part_of(
            s.subrange(plan.start_of(u) as int, plan.start_of(u + 1) as int),
            plan.num_hash_bits as nat,
            p as nat,
        ));
    }
}

/// Independent-output partitioning. Every thread scans its input range into
/// private per-partition buffers; the buffers are then gathered per
/// partition in thread order. Partition `p` of the result holds exactly the
/// input tuples whose key falls in `p`, in input order.
pub fn independent_output(plan: &PartitionPlan, input: &Vec<Tuple>) -> (r: Vec<Vec<Tuple>>)
    requires
        plan.wf(),
        input.len() == plan.total_tuples,
    ensures
        r.len() == plan.num_partitions,
        forall|p: int|
            0 <= p < r.len() ==> #[trigger] r[p]@ == part_of(
                input@,
                plan.num_hash_bits as nat,
                p as nat,
            ),
{
    let threads = plan.num_threads;
    let mut locals: Vec<Vec<Vec<Tuple>>> = Vec::new();
    let mut t: usize = 0;
    while t < threads
        invariant
            plan.wf(),
            input.len() == plan.total_tuples,
            threads == plan.num_threads,
            t <= threads,
            locals.len() == t,
            forall|u: int| 0 <= u < t ==> #[trigger] locals[u].len() == plan.num_partitions,
            forall|u: int, p: int|
                0 <= u < t && 0 <= p < plan.num_partitions ==> #[trigger] locals[u][p]@ == part_of(
                    input@.subrange(
                        plan.start_of(u as nat) as int,
                        plan.start_of((u + 1) as nat) as int,
                    ),
                    plan.num_hash_bits as nat,
                    p as nat,
                ),
        decreases threads - t,
    {
        let buffers = scatter_range(plan, input, t);
        locals.push(buffers);
        t = t + 1;
    }
    let r = gather(plan, &locals);
    proof {
        let n = plan.total_tuples as nat;
        lemma_range_start(n, threads as nat, 0);
        assert(input@.subrange(0, n as int) =~= input@);
        assert forall|p: int| 0 <= p < r.len() implies #[trigger] r[p]@ == part_of(
            input@,
            plan.num_hash_bits as nat,
            p as nat,
        ) by {
            assert forall|u: int| 0 <= u < locals.len() implies (#[trigger] locals@[u])[p]@ == part_of(
                input@.subrange(plan.start_of(u as nat) as int, plan.start_of((u + 1) as nat) as int),
                plan.num_hash_bits as nat,
                p as nat,
            ) by {
                assert(locals[u][p]@ == part_of(
                    input@.subrange(plan.start_of(u as nat) as int, plan.start_of((u + 1) as nat) as int),
                    plan.num_hash_bits as nat,
                    p as nat,
                ));
            }
            lemma_concat_is_prefix(*plan, input@, locals@, p, threads as nat);
        }
    }
    r
}

} // verus!
