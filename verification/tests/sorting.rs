use lib::machine::Op;

/// Apply the operations to a (first element on top) and an empty b.
fn replay(input: &[i32], ops: &[Op]) -> (Vec<i32>, Vec<i32>) {
    let mut a: Vec<i32> = input.to_vec();
    let mut b: Vec<i32> = Vec::new();
    fn swap(s: &mut Vec<i32>) {
        if s.len() >= 2 {
            s.swap(0, 1);
        }
    }
    fn up(s: &mut Vec<i32>) {
        if s.len() >= 2 {
            let x = s.remove(0);
            s.push(x);
        }
    }
    fn down(s: &mut Vec<i32>) {
        if s.len() >= 2 {
            let x = s.pop().unwrap();
            s.insert(0, x);
        }
    }
    for op in ops {
        match op {
            Op::Sa => swap(&mut a),
            Op::Sb => swap(&mut b),
            Op::Ss => {
                swap(&mut a);
                swap(&mut b);
            }
            Op::Pa => {
                if !b.is_empty() {
                    let x = b.remove(0);
                    a.insert(0, x);
                }
            }
            Op::Pb => {
                if !a.is_empty() {
                    let x = a.remove(0);
                    b.insert(0, x);
                }
            }
            Op::Ra => up(&mut a),
            Op::Rb => up(&mut b),
            Op::Rr => {
                up(&mut a);
                up(&mut b);
            }
            Op::Rra => down(&mut a),
            Op::Rrb => down(&mut b),
            Op::Rrr => {
                down(&mut a);
                down(&mut b);
            }
        }
    }
    (a, b)
}

fn assert_sorts(input: &[i32], ops: &[Op]) {
    let (a, b) = replay(input, ops);
    let mut expected = input.to_vec();
    expected.sort();
    assert_eq!(a, expected, "a is not the sorted input");
    assert!(b.is_empty(), "b is not empty");
}

/// Distinct values in a shuffled order, the same on every run.
fn shuffled(n: usize, seed: u64) -> Vec<i32> {
    let mut v: Vec<i32> = (0..n as i32).map(|i| i * 7 - 1000).collect();
    let mut x = seed;
    for i in (1..n).rev() {
        x = x.wrapping_mul(6364136223846793005).wrapping_add(1442695040888963407);
        let j = ((x >> 33) as usize) % (i + 1);
        v.swap(i, j);
    }
    v
}

fn all_permutations(v: &[i32]) -> Vec<Vec<i32>> {
    if v.len() <= 1 {
        return vec![v.to_vec()];
    }
    let mut out = Vec::new();
    for i in 0..v.len() {
        let mut rest = v.to_vec();
        let x = rest.remove(i);
        for mut p in all_permutations(&rest) {
            p.insert(0, x);
            out.push(p);
        }
    }
    out
}

/// The inputs every strategy is tried on: small and large, in and out of order.
fn inputs() -> Vec<Vec<i32>> {
    let mut out: Vec<Vec<i32>> = vec![vec![], vec![42], vec![2, 1], vec![1, 2], vec![3, 1, 2]];
    out.extend(all_permutations(&[10, -5, 7]));
    out.extend(all_permutations(&[4, 2, 9, -1]));
    out.extend(all_permutations(&[5, 1, 3, 2, 4]));
    out.push(vec![i32::MAX, i32::MIN, 0, -1, 1]);
    out.push((0..9).collect());
    out.push((0..9).rev().collect());
    out.push(shuffled(6, 11));
    out.push(shuffled(7, 12));
    out.push(vec![6, 5, 4, 3, 2, 1]);
    out.push(vec![7, 1, 6, 2, 5, 3, 4]);
    out.push(vec![0, i32::MIN, i32::MAX, 1, 2, 3]);
    out.push(vec![i32::MAX, 0, -5, i32::MIN, 9, 4, 2, 1, 8]);
    out.push(shuffled(8, 1));
    out.push(shuffled(12, 2));
    out.push(shuffled(20, 3));
    out.push(shuffled(21, 4));
    out.push(shuffled(100, 5));
    out.push(shuffled(100, 6));
    out.push(shuffled(500, 7));
    out
}

fn range_bounds(a: &[i32]) -> Vec<(i32, i32)> {
    if a.len() <= 5 {
        return Vec::new();
    }
    let k = lib::range_chunks::chunk_count(a.len());
    let (mn, mx) = lib::range_chunks::value_range(a);
    let range = (mx as i64 - mn as i64) as f64;
    let chunk_size = range / k as f64;
    (0..k)
        .map(|c| {
            let lo = mn as f64 + chunk_size * c as f64;
            let hi = mn as f64 + chunk_size * (c + 1) as f64;
            (lo as i32, hi as i32)
        })
        .collect()
}

#[test]
fn logged_chunks_sorts_every_input() {
    for v in inputs() {
        let ops = lib::logged_chunks::solve(&v);
        assert_sorts(&v, &ops);
    }
}

#[test]
fn cheapest_chunks_sorts_every_input() {
    for v in inputs() {
        let ops = lib::cheapest_chunks::sort(v.clone());
        assert_sorts(&v, &ops);
    }
}

#[test]
fn rank_radix_sorts_every_input() {
    for v in inputs() {
        let ops = lib::rank_radix::solve(&v);
        assert_sorts(&v, &ops);
    }
}

#[test]
fn indexed_radix_sorts_every_input() {
    for v in inputs() {
        let ops = lib::indexed_radix::solve(v.clone());
        assert_sorts(&v, &ops);
    }
}

#[test]
fn sorted_chunks_sorts_every_input() {
    for v in inputs() {
        let ops = lib::sorted_chunks::solve(v.clone());
        assert_sorts(&v, &ops);
    }
}

#[test]
fn range_chunks_sorts_every_input() {
    for v in inputs() {
        let bounds = range_bounds(&v);
        let mut a = v.clone();
        let mut log: Vec<Op> = Vec::new();
        lib::range_chunks::push_swap(&mut a, &bounds, &mut log);
        assert_sorts(&v, &log);
        let (replayed, _) = replay(&v, &log);
        assert_eq!(replayed, a);
    }
}

#[test]
fn sorted_input_gives_no_operations() {
    let sorted: Vec<i32> = vec![-3, 0, 4, 8, 15, 16, 23, 42];
    assert!(lib::logged_chunks::solve(&sorted).is_empty());
    assert!(lib::cheapest_chunks::sort(sorted.clone()).is_empty());
    assert!(lib::rank_radix::solve(&sorted).is_empty());
    assert!(lib::indexed_radix::solve(sorted.clone()).is_empty());
    assert!(lib::sorted_chunks::solve(sorted.clone()).is_empty());
    let mut a = sorted.clone();
    let mut log: Vec<Op> = Vec::new();
    lib::range_chunks::push_swap(&mut a, &range_bounds(&sorted), &mut log);
    assert!(log.is_empty());
    assert_eq!(a, sorted);
}

#[test]
fn empty_input_gives_no_operations() {
    let empty: Vec<i32> = Vec::new();
    assert!(lib::logged_chunks::solve(&empty).is_empty());
    assert!(lib::cheapest_chunks::sort(empty.clone()).is_empty());
    assert!(lib::rank_radix::solve(&empty).is_empty());
    assert!(lib::indexed_radix::solve(empty.clone()).is_empty());
    assert!(lib::sorted_chunks::solve(empty.clone()).is_empty());
}

#[test]
fn three_one_two_is_sorted_by_each_strategy() {
    let v = vec![3, 1, 2];
    for ops in [
        lib::logged_chunks::solve(&v),
        lib::cheapest_chunks::sort(v.clone()),
        lib::rank_radix::solve(&v),
        lib::indexed_radix::solve(v.clone()),
        lib::sorted_chunks::solve(v.clone()),
    ] {
        assert!(!ops.is_empty());
        assert!(ops.len() <= 3);
        assert_sorts(&v, &ops);
    }
}

#[test]
fn two_out_of_order_need_one_swap() {
    let v = vec![2, 1];
    assert_eq!(lib::logged_chunks::solve(&v), vec![Op::Sa]);
    assert_eq!(lib::rank_radix::solve(&v), vec![Op::Sa]);
    assert_eq!(lib::indexed_radix::solve(v.clone()), vec![Op::Sa]);
    let mut a = v.clone();
    let mut log: Vec<Op> = Vec::new();
    lib::range_chunks::sort_three(&mut a, &mut log);
    assert_eq!(log, vec![Op::Sa]);
    assert_eq!(a, vec![1, 2]);
}

#[test]
fn range_chunks_small_sorts() {
    for p in all_permutations(&[9, 3, 6]) {
        let mut a = p.clone();
        let mut log: Vec<Op> = Vec::new();
        lib::range_chunks::sort_three(&mut a, &mut log);
        assert_eq!(a, vec![3, 6, 9]);
        assert!(log.len() <= 2);
        assert_sorts(&p, &log);
    }
    for p in all_permutations(&[5, 1, 3, 2, 4]) {
        let mut a = p.clone();
        let mut b: Vec<i32> = Vec::new();
        let mut log: Vec<Op> = Vec::new();
        lib::range_chunks::sort_five(&mut a, &mut b, &mut log);
        assert_eq!(a, vec![1, 2, 3, 4, 5]);
        assert!(b.is_empty());
        assert_sorts(&p, &log);
    }
}

#[test]
fn range_chunks_leaves_unranged_largest_last() {
    // Ranges that miss only the largest value still sort.
    let v = vec![5, 9, 1, 7, 3, 8, 2];
    let bounds = vec![(1, 4), (5, 8)];
    let mut a = v.clone();
    let mut log: Vec<Op> = Vec::new();
    lib::range_chunks::push_swap(&mut a, &bounds, &mut log);
    assert_eq!(a, vec![1, 2, 3, 5, 7, 8, 9]);
    assert_sorts(&v, &log);
}

#[test]
fn operation_names() {
    let all = [
        (Op::Sa, "sa"),
        (Op::Sb, "sb"),
        (Op::Ss, "ss"),
        (Op::Pa, "pa"),
        (Op::Pb, "pb"),
        (Op::Ra, "ra"),
        (Op::Rb, "rb"),
        (Op::Rr, "rr"),
        (Op::Rra, "rra"),
        (Op::Rrb, "rrb"),
        (Op::Rrr, "rrr"),
    ];
    for (op, text) in all {
        assert_eq!(op.name(), text);
    }
}

#[test]
fn operations_undo_each_other() {
    let start = vec![4, 8, 15, 16, 23];
    for (first, second) in [
        (Op::Sa, Op::Sa),
        (Op::Ra, Op::Rra),
        (Op::Rra, Op::Ra),
        (Op::Pb, Op::Pa),
    ] {
        let (a, b) = replay(&start, &[first, second]);
        assert_eq!(a, start);
        assert!(b.is_empty());
    }
}

#[test]
fn budgets_for_three_and_five() {
    for p in all_permutations(&[10, -5, 7]) {
        assert!(lib::cheapest_chunks::sort(p.clone()).len() <= 3);
        assert!(lib::logged_chunks::solve(&p).len() <= 3);
        assert!(lib::rank_radix::solve(&p).len() <= 3);
        assert!(lib::indexed_radix::solve(p.clone()).len() <= 3);
        assert!(lib::sorted_chunks::solve(p.clone()).len() <= 3);
    }
    for p in all_permutations(&[5, 1, 3, 2, 4]) {
        assert!(lib::cheapest_chunks::sort(p.clone()).len() <= 12);
        assert!(lib::logged_chunks::solve(&p).len() <= 12);
        assert!(lib::rank_radix::solve(&p).len() <= 12);
        assert!(lib::indexed_radix::solve(p.clone()).len() <= 12);
        assert!(lib::sorted_chunks::solve(p.clone()).len() <= 12);
        let mut a = p.clone();
        let mut log: Vec<Op> = Vec::new();
        lib::range_chunks::push_swap(&mut a, &range_bounds(&p), &mut log);
        assert!(log.len() <= 12);
    }
}

#[test]
fn budgets_for_one_hundred_and_five_hundred() {
    for seed in [21u64, 22, 23] {
        let v = shuffled(100, seed);
        let w = shuffled(500, seed);
        assert!(lib::rank_radix::solve(&v).len() <= 1500);
        assert!(lib::indexed_radix::solve(v.clone()).len() <= 1500);
        assert!(lib::rank_radix::solve(&w).len() <= 11500);
        assert!(lib::indexed_radix::solve(w.clone()).len() <= 11500);
        assert!(lib::logged_chunks::solve(&v).len() <= 1500);
        assert!(lib::logged_chunks::solve(&w).len() <= 11500);
        assert!(lib::cheapest_chunks::sort(v.clone()).len() <= 1500);
        assert!(lib::cheapest_chunks::sort(w.clone()).len() <= 11500);
        assert!(lib::sorted_chunks::solve(v.clone()).len() <= 1500);
        assert!(lib::sorted_chunks::solve(w.clone()).len() <= 11500);
        let mut a = v.clone();
        let mut log: Vec<Op> = Vec::new();
        lib::range_chunks::push_swap(&mut a, &range_bounds(&v), &mut log);
        assert!(log.len() <= 1500);
        let mut a = w.clone();
        let mut log: Vec<Op> = Vec::new();
        lib::range_chunks::push_swap(&mut a, &range_bounds(&w), &mut log);
        assert!(log.len() <= 11500);
    }
}

#[test]
fn sort_3_sequences() {
    let cases: Vec<(Vec<i32>, Vec<Op>)> = vec![
        (vec![1, 2, 3], vec![]),
        (vec![2, 1, 3], vec![Op::Sa]),
        (vec![1, 3, 2], vec![Op::Ra, Op::Sa, Op::Rra]),
        (vec![3, 2, 1], vec![Op::Sa, Op::Rra]),
        (vec![3, 1, 2], vec![Op::Ra]),
        (vec![2, 3, 1], vec![Op::Rra]),
        (vec![2, 1], vec![Op::Sa]),
    ];
    for (input, expected) in cases {
        let mut a = input.clone();
        let mut log: Vec<Op> = Vec::new();
        lib::cheapest_chunks::sort_3(&mut a, &mut log);
        assert_eq!(log, expected, "on {:?}", input);
        let mut sorted = input.clone();
        sorted.sort();
        assert_eq!(a, sorted);
    }
}
