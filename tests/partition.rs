use radix_partition::count_move::{count_range, count_then_move, SharedOutput};
use radix_partition::hash::hash;
use radix_partition::independent::{gather, independent_output, scatter_range};
use radix_partition::plan::{ConfigError, PartitionMethod, PartitionPlan, DEFAULT_SAFETY_PERCENT};
use radix_partition::tuple::Tuple;

fn keyed(keys: &[u64]) -> Vec<Tuple> {
    keys.iter().enumerate().map(|(i, k)| Tuple::new(*k, 1000 + i as u64)).collect()
}

fn plan(n: usize, threads: i32, bits: i32) -> PartitionPlan {
    PartitionPlan::new(n, threads, bits, usize::MAX).unwrap()
}

fn slots(out: &SharedOutput) -> Vec<Vec<Tuple>> {
    let starts = &out.partition_starts;
    (0..starts.len() - 1).map(|p| out.tuples[starts[p]..starts[p + 1]].to_vec()).collect()
}

fn sorted(mut v: Vec<Tuple>) -> Vec<Tuple> {
    v.sort_by_key(|t| (t.key, t.payload));
    v
}

fn mixed_input(n: usize) -> Vec<Tuple> {
    let keys: Vec<u64> = (0..n as u64).map(|i| i.wrapping_mul(0x9E37_79B9_7F4A_7C15) ^ (i >> 3)).collect();
    keyed(&keys)
}

#[test]
fn hash_takes_low_bits() {
    assert_eq!(hash(5, 1), 1);
    assert_eq!(hash(6, 1), 0);
    assert_eq!(hash(6, 2), 2);
    assert_eq!(hash(0x1234, 8), 0x34);
    assert_eq!(hash(u64::MAX, 18), 0x3FFFF);
    assert_eq!(hash(1 << 18, 18), 0);
}

#[test]
fn hash_stays_below_partition_count() {
    for bits in 1..=18u32 {
        for key in [0u64, 1, 7, 12345, u64::MAX, 1 << 40, 0xDEAD_BEEF] {
            let p = hash(key, bits);
            assert!((p as u64) < (1u64 << bits));
            assert_eq!(p, hash(key, bits));
        }
    }
}

#[test]
fn plan_rejects_bad_configuration() {
    assert_eq!(PartitionPlan::new(10, 0, 4, 1000), Err(ConfigError::InvalidThreadCount));
    assert_eq!(PartitionPlan::new(10, -3, 40, 1000), Err(ConfigError::InvalidThreadCount));
    assert_eq!(PartitionPlan::new(10, 2, 0, 1000), Err(ConfigError::InvalidHashBits));
    assert_eq!(PartitionPlan::new(10, 2, 19, 1000), Err(ConfigError::InvalidHashBits));
    assert_eq!(PartitionPlan::new(10, 4, 8, 1023), Err(ConfigError::TooManyBuffers));
    assert!(PartitionPlan::new(10, 4, 8, 1024).is_ok());
}

#[test]
fn plan_fixes_partition_count() {
    let p = plan(100, 3, 5);
    assert_eq!(p.num_partitions, 32);
    assert_eq!(p.num_threads, 3);
    assert_eq!(p.num_hash_bits, 5);
    assert_eq!(p.total_tuples, 100);
    assert_eq!(p.safety_percent, DEFAULT_SAFETY_PERCENT);
    assert_eq!(plan(0, 1, 18).num_partitions, 1 << 18);
}

#[test]
fn thread_ranges_cover_input_evenly() {
    let p = plan(10, 3, 1);
    assert_eq!(p.thread_range(0), (0, 4));
    assert_eq!(p.thread_range(1), (4, 7));
    assert_eq!(p.thread_range(2), (7, 10));
    let q = plan(2, 4, 1);
    let ranges: Vec<(usize, usize)> = (0..4).map(|t| q.thread_range(t)).collect();
    assert_eq!(ranges, vec![(0, 1), (1, 2), (2, 2), (2, 2)]);
}

#[test]
fn buffer_capacity_scales_uniform_share() {
    assert_eq!(plan(100, 2, 2).initial_buffer_capacity(), 20);
    assert_eq!(plan(3, 1, 1).initial_buffer_capacity(), 3);
    assert_eq!(plan(3, 1, 1).with_safety_percent(1000).initial_buffer_capacity(), 3);
    assert_eq!(plan(1000, 4, 3).with_safety_percent(100).initial_buffer_capacity(), 32);
    assert_eq!(plan(0, 4, 3).initial_buffer_capacity(), 0);
}

#[test]
fn method_ids() {
    assert_eq!(PartitionMethod::from_id(1), Ok(PartitionMethod::IndependentOutput));
    assert_eq!(PartitionMethod::from_id(2), Ok(PartitionMethod::CountThenMove));
    assert_eq!(PartitionMethod::from_id(0), Err(ConfigError::InvalidMethod));
    assert_eq!(PartitionMethod::from_id(3), Err(ConfigError::InvalidMethod));
}

#[test]
fn eight_keys_one_bit_both_methods() {
    let input = keyed(&[0, 1, 2, 3, 4, 5, 6, 7]);
    for threads in [1, 2, 3, 8] {
        let p = plan(8, threads, 1);
        let io = independent_output(&p, &input);
        let cm = count_then_move(&p, &input);
        for parts in [io, slots(&cm)] {
            assert_eq!(parts.len(), 2);
            let k0: Vec<u64> = parts[0].iter().map(|t| t.key).collect();
            let k1: Vec<u64> = parts[1].iter().map(|t| t.key).collect();
            assert_eq!(k0, vec![0, 2, 4, 6]);
            assert_eq!(k1, vec![1, 3, 5, 7]);
        }
        assert_eq!(cm.partition_starts, vec![0, 4, 8]);
    }
}

#[test]
fn empty_input_gives_empty_output() {
    let input: Vec<Tuple> = Vec::new();
    let p = plan(0, 2, 3);
    let io = independent_output(&p, &input);
    assert_eq!(io.len(), 8);
    assert!(io.iter().all(|b| b.is_empty()));
    let cm = count_then_move(&p, &input);
    assert!(cm.tuples.is_empty());
    assert_eq!(cm.partition_starts, vec![0; 9]);
}

#[test]
fn skewed_keys_grow_buffers() {
    let keys: Vec<u64> = (0..1000u64).map(|i| i * 16).collect();
    let input = keyed(&keys);
    let p = plan(1000, 4, 4);
    let io = independent_output(&p, &input);
    assert_eq!(io[0], input);
    assert!(io[1..].iter().all(|b| b.is_empty()));
    let cm = count_then_move(&p, &input);
    assert_eq!(cm.tuples, input);
    assert_eq!(cm.partition_starts[0], 0);
    assert!(cm.partition_starts[1..].iter().all(|s| *s == 1000));
}

#[test]
fn output_is_a_permutation_of_input() {
    let input = mixed_input(777);
    let p = plan(777, 5, 3);
    let io = independent_output(&p, &input);
    let flat: Vec<Tuple> = io.iter().flatten().copied().collect();
    assert_eq!(sorted(flat), sorted(input.clone()));
    let cm = count_then_move(&p, &input);
    assert_eq!(sorted(cm.tuples.clone()), sorted(input));
}

#[test]
fn partition_sizes_sum_to_input_size() {
    let input = mixed_input(500);
    let p = plan(500, 3, 6);
    let io = independent_output(&p, &input);
    assert_eq!(io.iter().map(|b| b.len()).sum::<usize>(), 500);
    let cm = count_then_move(&p, &input);
    let sizes: usize = (0..64).map(|q| cm.partition_starts[q + 1] - cm.partition_starts[q]).sum();
    assert_eq!(sizes, 500);
    assert_eq!(*cm.partition_starts.last().unwrap(), 500);
}

#[test]
fn shared_output_has_exactly_n_slots() {
    let input = mixed_input(301);
    let cm = count_then_move(&plan(301, 7, 2), &input);
    assert_eq!(cm.tuples.len(), 301);
    let io = independent_output(&plan(301, 7, 2), &input);
    assert_eq!(slots(&cm), io);
}

#[test]
fn methods_agree_on_membership() {
    let input = mixed_input(1234);
    for (threads, bits) in [(1, 1), (2, 4), (6, 7), (16, 2)] {
        let p = plan(1234, threads, bits);
        let io = independent_output(&p, &input);
        let cm = slots(&count_then_move(&p, &input));
        assert_eq!(io.len(), cm.len());
        for q in 0..io.len() {
            assert_eq!(sorted(io[q].clone()), sorted(cm[q].clone()));
            assert!(io[q].iter().all(|t| hash(t.key, bits as u32) as usize == q));
        }
    }
}

#[test]
fn partitions_keep_input_order_across_threads() {
    let input = keyed(&[3, 1, 2, 5, 7, 4, 9, 6, 11]);
    let p = plan(9, 3, 1);
    let io = independent_output(&p, &input);
    let k1: Vec<u64> = io[1].iter().map(|t| t.key).collect();
    assert_eq!(k1, vec![3, 1, 5, 7, 9, 11]);
    assert_eq!(count_then_move(&p, &input).tuples.iter().map(|t| t.key).collect::<Vec<_>>(), vec![2, 4, 6, 3, 1, 5, 7, 9, 11]);
}

#[test]
fn per_thread_passes() {
    let input = keyed(&[0, 1, 2, 3, 4, 5, 6, 7, 8, 9]);
    let p = plan(10, 3, 2);
    assert_eq!(count_range(&p, &input, 0), vec![1, 1, 1, 1]);
    assert_eq!(count_range(&p, &input, 1), vec![1, 1, 1, 0]);
    assert_eq!(count_range(&p, &input, 2), vec![1, 1, 0, 1]);
    let locals: Vec<Vec<Vec<Tuple>>> = (0..3).map(|t| scatter_range(&p, &input, t)).collect();
    assert_eq!(locals[2][3], keyed(&[0, 1, 2, 3, 4, 5, 6, 7, 8, 9])[7..8].to_vec());
    let parts = gather(&p, &locals);
    assert_eq!(parts, independent_output(&p, &input));
    let k0: Vec<u64> = parts[0].iter().map(|t| t.key).collect();
    assert_eq!(k0, vec![0, 4, 8]);
}
