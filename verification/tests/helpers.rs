use lib::logged_chunks::Ps;
use lib::machine::Op;

#[test]
fn ranks_of_values() {
    assert_eq!(lib::logged_chunks::rank_compress(&[30, -5, 12]), vec![2, 0, 1]);
    assert_eq!(lib::cheapest_chunks::compress_to_ranks(&[30, -5, 12]), vec![2, 0, 1]);
    assert_eq!(lib::rank_radix::ranks(&vec![30, -5, 12, 7]), vec![3, 0, 2, 1]);
    assert_eq!(lib::rank_radix::ranks(&vec![]), Vec::<i32>::new());
}

#[test]
fn order_checks() {
    assert!(lib::logged_chunks::is_sorted(&[0, 1, 2]));
    assert!(!lib::logged_chunks::is_sorted(&[0, 2, 2]));
    assert!(!lib::logged_chunks::is_sorted(&[1, 0]));
    assert!(lib::cheapest_chunks::is_sorted(&[1, 1, 3]));
    assert!(!lib::cheapest_chunks::is_sorted(&[3, 1]));
    assert!(lib::rank_radix::ordered(&vec![]));
    assert!(lib::rank_radix::ordered(&vec![-4, 0, 9]));
    assert!(!lib::rank_radix::ordered(&vec![0, -4]));
    assert!(lib::sorted_chunks::is_sorted(&[5]));
    assert!(!lib::sorted_chunks::is_sorted(&[5, 4]));
    assert!(lib::range_chunks::is_sorted(&[2, 2, 3]));
    assert!(!lib::range_chunks::is_sorted(&[2, 3, 1]));
}

#[test]
fn positions_of_extremes() {
    assert_eq!(lib::range_chunks::find_min_idx(&[4, 1, 7, 1]), 1);
    assert_eq!(lib::range_chunks::find_max_idx(&[4, 9, 7, 9]), 1);
    assert_eq!(lib::range_chunks::find_min_idx(&[]), 0);
    assert_eq!(lib::indexed_radix::find_min_index(&[8, 6, 7, 5]), 3);
    assert_eq!(lib::sorted_chunks::index_of_min(&[3, -2, 5]), 1);
    // The top of a Ps stack is the last element of the vector.
    assert_eq!(lib::logged_chunks::find_min_rank(&[0, 3, 1, 2]), 3);
    assert_eq!(lib::rank_radix::pos_of(&vec![5, 6, 7], 7), 2);
    assert_eq!(lib::rank_radix::pos_of(&vec![5, 6, 7], 9), 3);
}

#[test]
fn ranges() {
    assert!(lib::range_chunks::all_outside(&[1, 9, 20], 10, 19));
    assert!(!lib::range_chunks::all_outside(&[1, 10, 20], 10, 19));
    assert_eq!(lib::range_chunks::find_nearest_chunk(&[1, 2, 3, 4, 50], 40, 60), Some((1, false)));
    assert_eq!(lib::range_chunks::find_nearest_chunk(&[50, 2, 3, 4, 5], 40, 60), Some((0, true)));
    assert_eq!(lib::range_chunks::find_nearest_chunk(&[1, 50, 3, 4, 50], 40, 60), Some((1, true)));
    assert_eq!(lib::range_chunks::find_nearest_chunk(&[1, 2], 40, 60), None);
    assert_eq!(lib::range_chunks::value_range(&[3, -8, 12, 0]), (-8, 12));
    assert_eq!(lib::range_chunks::chunk_count(6), 5);
    assert_eq!(lib::range_chunks::chunk_count(20), 5);
    assert_eq!(lib::range_chunks::chunk_count(21), 30);
    assert_eq!(lib::sorted_chunks::find_in_range(&[9, 1, 2, 8, 3], 7, 9), 0);
    assert_eq!(lib::sorted_chunks::find_in_range(&[1, 2, 3, 9, 8], 7, 9), 4);
    assert_eq!(lib::sorted_chunks::find_in_range(&[1, 2, 3], 7, 9), 3);
    assert_eq!(lib::sorted_chunks::find_max_in_range(&[4, 9, 6, 2], 3, 8), 2);
    assert_eq!(lib::sorted_chunks::find_max_in_range(&[4, 9, 6, 2], 10, 20), 4);
}

#[test]
fn rotations() {
    let mut v = vec![1, 2, 3];
    lib::range_chunks::rotate_up(&mut v);
    assert_eq!(v, vec![2, 3, 1]);
    lib::range_chunks::rotate_down(&mut v);
    assert_eq!(v, vec![1, 2, 3]);
    let mut one = vec![7];
    lib::range_chunks::rotate_up(&mut one);
    assert_eq!(one, vec![7]);
}

#[test]
fn sorting_by_insertion() {
    let mut v = vec![5, -1, 3, 3, 0];
    lib::sorted_chunks::insertion_sort(&mut v);
    assert_eq!(v, vec![-1, 0, 3, 3, 5]);
}

#[test]
fn index_table_lookup() {
    let table = lib::indexed_radix::make_indexed(&[30, -5, 12]);
    assert_eq!(lib::indexed_radix::lookup_idx(&table, 30), 2);
    assert_eq!(lib::indexed_radix::lookup_idx(&table, -5), 0);
    assert_eq!(lib::indexed_radix::lookup_idx(&table, 12), 1);
}

#[test]
fn machine_with_a_log() {
    let mut ps = Ps::new(vec![3, 1, 2]);
    assert_eq!(ps.a, vec![2, 1, 3]);
    assert_eq!(ps.a_top(), 3);
    assert_eq!(ps.a_second(), 1);
    assert_eq!(ps.a_third(), 2);
    ps.sa();
    assert_eq!(ps.a, vec![2, 3, 1]);
    ps.pb();
    assert_eq!(ps.b_top(), 1);
    ps.ra();
    assert_eq!(ps.a, vec![3, 2]);
    ps.rra();
    ps.pa();
    assert_eq!(ps.a, vec![2, 3, 1]);
    assert!(ps.b.is_empty());
    assert_eq!(ps.ops, vec![Op::Sa, Op::Pb, Op::Ra, Op::Rra, Op::Pa]);
    // Operations on too few elements are still recorded.
    ps.sb();
    ps.rrb();
    assert_eq!(ps.ops.len(), 7);
}

#[test]
fn recorded_only_when_effective() {
    let mut a = vec![1];
    let mut log: Vec<Op> = Vec::new();
    lib::indexed_radix::sa(&mut a, &mut log);
    lib::indexed_radix::ra(&mut a, &mut log);
    assert!(log.is_empty());
    let mut b: Vec<i32> = Vec::new();
    lib::indexed_radix::pb(&mut a, &mut b, &mut log);
    assert_eq!(log, vec![Op::Pb]);
    assert_eq!(b, vec![1]);
}

#[test]
fn sorting_small_machines() {
    let mut ps = Ps::new(vec![3, 1, 2]);
    lib::logged_chunks::sort_small_a(&mut ps);
    assert_eq!(ps.a, vec![3, 2, 1]);
    let mut ps5 = Ps::new(vec![5, 2, 4, 1, 3]);
    lib::logged_chunks::sort_small(&mut ps5);
    assert_eq!(ps5.a, vec![5, 4, 3, 2, 1]);
    assert!(ps5.b.is_empty());
}

#[test]
fn library_operations_undo_each_other() {
    let start = vec![9, 4, 7, 1];
    let mut ps = Ps::new(start.clone());
    let a0 = ps.a.clone();
    ps.sa();
    ps.sa();
    assert_eq!(ps.a, a0);
    ps.ra();
    ps.rra();
    assert_eq!(ps.a, a0);
    ps.rra();
    ps.ra();
    assert_eq!(ps.a, a0);
    ps.pb();
    ps.pa();
    assert_eq!(ps.a, a0);
    assert!(ps.b.is_empty());
    ps.pb();
    ps.pb();
    let b0 = ps.b.clone();
    ps.rr();
    ps.rrr();
    assert_eq!(ps.b, b0);
    ps.ss();
    ps.ss();
    assert_eq!(ps.b, b0);
    assert_eq!(ps.ops.len(), 14);
}

#[test]
fn ranks_count_smaller_values_even_when_repeated() {
    assert_eq!(lib::cheapest_chunks::compress_to_ranks(&[5, 3, 5, 1]), vec![2, 1, 2, 0]);
    assert_eq!(lib::indexed_radix::make_indexed(&[5, 3, 5, 1]), vec![(5, 2), (3, 1), (5, 2), (1, 0)]);
    assert_eq!(lib::cheapest_chunks::compress_to_ranks(&[]), Vec::<i32>::new());
}

#[test]
fn rotations_recorded() {
    let mut ps = Ps::new(vec![1, 2, 3, 4, 5]);
    lib::logged_chunks::bring_top_a(&mut ps, 2);
    assert_eq!(ps.ops, vec![Op::Ra, Op::Ra]);
    let mut ps = Ps::new(vec![1, 2, 3, 4, 5]);
    lib::logged_chunks::bring_top_a(&mut ps, 4);
    assert_eq!(ps.ops, vec![Op::Rra]);
    assert_eq!(ps.a_top(), 5);
    let mut a = vec![1, 2, 3, 4, 5];
    let mut log: Vec<Op> = Vec::new();
    lib::indexed_radix::rotate_to_top_a(&mut a, 3, &mut log);
    assert_eq!(log, vec![Op::Rra, Op::Rra]);
    assert_eq!(a, vec![4, 5, 1, 2, 3]);
}

#[test]
fn smallest_pushed_with_one_pb_each() {
    let mut a = vec![4, 1, 5, 2, 3];
    let mut b: Vec<i32> = Vec::new();
    let mut log: Vec<Op> = Vec::new();
    lib::indexed_radix::push_smallest_to_b(&mut a, &mut b, 2, &mut log);
    assert_eq!(b, vec![2, 1]);
    assert_eq!(log.iter().filter(|op| **op == Op::Pb).count(), 2);
    assert!(log.iter().all(|op| *op == Op::Pb || *op == Op::Ra || *op == Op::Rra));
}

#[test]
fn smallest_pushed_onto_any_b() {
    let mut a = vec![4, 1, 5, 2, 3];
    let mut b: Vec<i32> = vec![1, 9];
    let mut log: Vec<Op> = Vec::new();
    lib::indexed_radix::push_smallest_to_b(&mut a, &mut b, 2, &mut log);
    assert_eq!(b, vec![2, 1, 1, 9]);
    assert!(log.iter().all(|op| *op == Op::Pb || *op == Op::Ra || *op == Op::Rra));
}

#[test]
fn range_sort_prints_only_its_operations() {
    let v: Vec<i32> = vec![31, 7, 19, 3, 25, 11, 29, 1, 17, 23, 5, 13];
    let bounds = vec![(1, 10), (11, 20), (21, 31)];
    let mut a = v.clone();
    let mut log: Vec<Op> = Vec::new();
    lib::range_chunks::push_swap(&mut a, &bounds, &mut log);
    let mut sorted = v.clone();
    sorted.sort();
    assert_eq!(a, sorted);
    assert!(log.iter().all(|op| !matches!(op, Op::Sb | Op::Ss | Op::Rr | Op::Rrr)));
}
