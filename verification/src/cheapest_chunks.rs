//! Sorting by chunks of ranks, cheapest first: the values are replaced by
//! their ranks; chunk by chunk of consecutive ranks, the rank of the chunk
//! that is nearest an end of a goes to b, and the lower half of each chunk is
//! rotated to the bottom of b; then the largest rank of b comes back to a,
//! again and again. Three and five elements have their own sorts.
use vstd::prelude::*;
use crate::machine::{
    Op, ascending, lemma_replays_a_at, lemma_replays_a_push, lemma_replays_a_refl,
    lemma_replays_a_trans, lemma_replays_b_at, lemma_replays_b_push, lemma_replays_b_refl,
    lemma_replays_b_trans, lemma_replays_content, lemma_replays_push, lemma_replays_refl,
    lemma_replays_trans, lemma_rot_by_content, lemma_rot_by_ends, lemma_rot_down_by, lemma_rot_up_by,
    replays, replays_a, replays_b, rot_by, rot_down, rot_up, sorts, step, swap_top,
};
use crate::ranking::{
    count_below, is_rank_perm, lemma_fills_range, lemma_member_of, lemma_perm_split, lemma_same_contents_no_dup,
    lemma_split_no_dup, lemma_swap_content, nondecreasing, order_embedding, within,
};

use crate::text::{
    all_read, arg_word_list, arg_words, has_stray_char, lemma_has_stray_char, parse_i32_std, std_read,
    word_values,
};

verus! {

/// Read the numbers of the arguments: no argument may be empty; every word of
/// every argument, split at white space, must be an `i32`; no number may come
/// twice. `None` stands for the error.
pub fn parse_args(args: &Vec<String>) -> (r: Option<Vec<i32>>)
    ensures
        r is Some <==> ((forall|i: int| 0 <= i < args@.len() ==> (#[trigger] args@[i])@.len() > 0)
            && all_read(arg_words(args@), std_read()) && word_values(arg_words(args@), std_read()).no_duplicates()),
        r is Some ==> r->0@ == word_values(arg_words(args@), std_read()),
        has_stray_char(args@) ==> r is None,
{
    proof {
        if has_stray_char(args@) {
            lemma_has_stray_char(args@);
        }
    }
    let mut i: usize = 0;
    while i < args.len()
        invariant
            i <= args@.len(),
            forall|k: int| 0 <= k < i ==> (#[trigger] args@[k])@.len() > 0,
        decreases args@.len() - i,
    {
        if args[i].as_str().is_empty() {
            return None;
        }
        i += 1;
    }
    let tokens = arg_word_list(args.as_slice());
    let ghost aw = arg_words(args@);
    let ghost rd = std_read();
    let mut result: Vec<i32> = Vec::new();
    let mut j: usize = 0;
    proof {
        assert(aw.take(0) =~= Seq::<Seq<char>>::empty());
        assert(word_values(aw.take(0), rd) =~= Seq::<i32>::empty());
    }
    while j < tokens.len()
        invariant
            tokens@.len() == aw.len(),
            forall|k: int| 0 <= k < tokens@.len() ==> (#[trigger] tokens@[k])@ == aw[k],
            rd == std_read(),
            aw == arg_words(args@),
            j <= tokens@.len(),
            all_read(aw.take(j as int), rd),
            result@ == word_values(aw.take(j as int), rd),
        decreases tokens@.len() - j,
    {
        match parse_i32_std(tokens[j]) {
            Some(n) => {
                result.push(n);
                proof {
                    assert(aw.take(j + 1) =~= aw.take(j as int).push(aw[j as int]));
                    assert(result@ =~= word_values(aw.take(j + 1), rd));
                    assert forall|q: int| 0 <= q < aw.take(j + 1).len() implies #[trigger] rd(aw.take(j + 1)[q]) is Some by {
                        if q < j {
                            assert(aw.take(j + 1)[q] == aw.take(j as int)[q]);
                        }
                    }
                }
            },
            None => {
                proof {
                    assert(rd(aw[j as int]) is None);
                }
                return None;
            },
        }
        j += 1;
    }
    proof {
        assert(aw.take(aw.len() as int) =~= aw);
    }
    let mut p: usize = 0;
    while p < result.len()
        invariant
            result@ == word_values(aw, rd),
            aw == arg_words(args@),
            rd == std_read(),
            all_read(aw, rd),
            forall|k: int| 0 <= k < args@.len() ==> (#[trigger] args@[k])@.len() > 0,
            p <= result@.len(),
            forall|x: int, y: int| 0 <= x < p && x < y < result@.len() ==> result@[x] != result@[y],
        decreases result@.len() - p,
    {
        let mut q = p + 1;
        while q < result.len()
            invariant
                result@ == word_values(aw, rd),
                aw == arg_words(args@),
                rd == std_read(),
                p < result@.len(),
                p + 1 <= q <= result@.len(),
                forall|y: int| p < y < q ==> result@[p as int] != #[trigger] result@[y],
            decreases result@.len() - q,
        {
            if result[p] == result[q] {
                proof {
                    assert(!result@.no_duplicates());
                }
                return None;
            }
            q += 1;
        }
        p += 1;
    }
    proof {
        assert forall|x: int, y: int| 0 <= x < result@.len() && 0 <= y < result@.len() && x != y implies result@[x] != result@[y] by {
            if y < x {
                assert(result@[y] != result@[x]);
            }
        }
    }
    Some(result)
}

/// Whether each element is at most the next one.
pub fn is_sorted(v: &[i32]) -> (r: bool)
    ensures
        r == nondecreasing(v@),
{
    let mut i: usize = 1;
    while i < v.len()
        invariant
            1 <= i,
            i <= v@.len() || v@.len() == 0,
            forall|p: int, q: int| 0 <= p < q < i && q < v@.len() ==> v@[p] <= v@[q],
        decreases v@.len() - i,
    {
        if v[i] < v[i - 1] {
            return false;
        }
        i += 1;
    }
    true
}

/// `sa`, recorded.
pub fn do_sa(a: &mut Vec<i32>, log: &mut Vec<Op>)
    ensures
        final(a)@ == swap_top(old(a)@),
        final(log)@ == old(log)@.push(Op::Sa),
        replays_a(old(a)@, old(log)@, final(log)@, final(a)@),
{
    let ghost a0 = a@;
    proof {
        lemma_replays_a_refl(a0, log@);
        lemma_replays_a_push(a0, log@, log@, a0, Op::Sa);
    }
    if a.len() >= 2 {
        let x = a[0];
        let y = a[1];
        a.set(0, y);
        a.set(1, x);
    }
    proof {
        assert(a@ =~= swap_top(a0));
    }
    log.push(Op::Sa);
}

/// `pa`, recorded.
pub fn do_pa(a: &mut Vec<i32>, b: &mut Vec<i32>, log: &mut Vec<Op>)
    ensures
        (final(a)@, final(b)@) == step((old(a)@, old(b)@), Op::Pa),
        final(log)@ == old(log)@.push(Op::Pa),
        replays((old(a)@, old(b)@), old(log)@, final(log)@, (final(a)@, final(b)@)),
{
    let ghost st = (a@, b@);
    proof {
        lemma_replays_refl(st, log@);
        lemma_replays_push(st, log@, log@, st, Op::Pa);
    }
    if !b.is_empty() {
        let val = b.remove(0);
        a.insert(0, val);
        proof {
            assert(a@ =~= seq![st.1[0]] + st.0);
            assert(b@ =~= st.1.drop_first());
        }
    }
    log.push(Op::Pa);
}

/// `pb`, recorded.
pub fn do_pb(a: &mut Vec<i32>, b: &mut Vec<i32>, log: &mut Vec<Op>)
    ensures
        (final(a)@, final(b)@) == step((old(a)@, old(b)@), Op::Pb),
        final(log)@ == old(log)@.push(Op::Pb),
        replays((old(a)@, old(b)@), old(log)@, final(log)@, (final(a)@, final(b)@)),
{
    let ghost st = (a@, b@);
    proof {
        lemma_replays_refl(st, log@);
        lemma_replays_push(st, log@, log@, st, Op::Pb);
    }
    if !a.is_empty() {
        let val = a.remove(0);
        b.insert(0, val);
        proof {
            assert(b@ =~= seq![st.0[0]] + st.1);
            assert(a@ =~= st.0.drop_first());
        }
    }
    log.push(Op::Pb);
}

/// `ra`, recorded.
pub fn do_ra(a: &mut Vec<i32>, log: &mut Vec<Op>)
    ensures
        final(a)@ == rot_up(old(a)@),
        final(log)@ == old(log)@.push(Op::Ra),
        replays_a(old(a)@, old(log)@, final(log)@, final(a)@),
{
    let ghost a0 = a@;
    proof {
        lemma_replays_a_refl(a0, log@);
        lemma_replays_a_push(a0, log@, log@, a0, Op::Ra);
    }
    if a.len() >= 2 {
        let val = a.remove(0);
        a.push(val);
        proof {
            assert(a@ =~= rot_up(a0));
        }
    }
    log.push(Op::Ra);
}

/// `rb`, recorded.
pub fn do_rb(b: &mut Vec<i32>, log: &mut Vec<Op>)
    ensures
        final(b)@ == rot_up(old(b)@),
        final(log)@ == old(log)@.push(Op::Rb),
        replays_b(old(b)@, old(log)@, final(log)@, final(b)@),
{
    let ghost b0 = b@;
    proof {
        lemma_replays_b_refl(b0, log@);
        lemma_replays_b_push(b0, log@, log@, b0, Op::Rb);
    }
    if b.len() >= 2 {
        let val = b.remove(0);
        b.push(val);
        proof {
            assert(b@ =~= rot_up(b0));
        }
    }
    log.push(Op::Rb);
}

/// `rra`, recorded.
pub fn do_rra(a: &mut Vec<i32>, log: &mut Vec<Op>)
    ensures
        final(a)@ == rot_down(old(a)@),
        final(log)@ == old(log)@.push(Op::Rra),
        replays_a(old(a)@, old(log)@, final(log)@, final(a)@),
{
    let ghost a0 = a@;
    proof {
        lemma_replays_a_refl(a0, log@);
        lemma_replays_a_push(a0, log@, log@, a0, Op::Rra);
    }
    if a.len() >= 2 {
        let val = a.pop().unwrap();
        a.insert(0, val);
        proof {
            assert(a@ =~= rot_down(a0));
        }
    }
    log.push(Op::Rra);
}

/// `rrb`, recorded.
pub fn do_rrb(b: &mut Vec<i32>, log: &mut Vec<Op>)
    ensures
        final(b)@ == rot_down(old(b)@),
        final(log)@ == old(log)@.push(Op::Rrb),
        replays_b(old(b)@, old(log)@, final(log)@, final(b)@),
{
    let ghost b0 = b@;
    proof {
        lemma_replays_b_refl(b0, log@);
        lemma_replays_b_push(b0, log@, log@, b0, Op::Rrb);
    }
    if b.len() >= 2 {
        let val = b.pop().unwrap();
        b.insert(0, val);
        proof {
            assert(b@ =~= rot_down(b0));
        }
    }
    log.push(Op::Rrb);
}

/// How many more operations the case analysis of [`sort_3`] takes on `s`.
pub open spec fn steps_left(s: Seq<i32>) -> int {
    if s.len() < 2 || nondecreasing(s) {
        0
    } else if s.len() == 2 {
        1
    } else if s[0] < s[1] && s[1] > s[2] && s[0] < s[2] {
        3
    } else if s[0] > s[1] && s[1] > s[2] {
        2
    } else {
        1
    }
}

/// The operations [`sort_3`] records for `s`: none when it is in order;
/// for two out of order `sa`; for three, by their order from the top:
/// middle-smallest-largest `sa`, smallest-largest-middle `ra sa rra`,
/// largest-middle-smallest `sa rra`, largest-smallest-middle `ra`,
/// middle-largest-smallest `rra`.
pub open spec fn sort_3_ops(s: Seq<i32>) -> Seq<Op> {
    if s.len() < 2 || nondecreasing(s) {
        Seq::empty()
    } else if s.len() == 2 {
        seq![Op::Sa]
    } else if s[0] > s[1] && s[1] < s[2] && s[0] < s[2] {
        seq![Op::Sa]
    } else if s[0] < s[1] && s[1] > s[2] && s[0] < s[2] {
        seq![Op::Ra, Op::Sa, Op::Rra]
    } else if s[0] > s[1] && s[1] > s[2] {
        seq![Op::Sa, Op::Rra]
    } else if s[0] > s[1] && s[1] < s[2] && s[0] > s[2] {
        seq![Op::Ra]
    } else {
        seq![Op::Rra]
    }
}

/// Sort up to three distinct elements of a, with at most three operations:
/// one case analysis, repeated until the stack is in order.
pub fn sort_3(a: &mut Vec<i32>, log: &mut Vec<Op>)
    requires
        old(a)@.len() <= 3,
        old(a)@.no_duplicates(),
    ensures
        final(a)@.len() == old(a)@.len(),
        ascending(final(a)@),
        final(a)@.to_multiset() == old(a)@.to_multiset(),
        replays_a(old(a)@, old(log)@, final(log)@, final(a)@),
        final(log)@.len() <= old(log)@.len() + 3,
        final(log)@ == old(log)@ + sort_3_ops(old(a)@),
{
    let ghost a0 = a@;
    let ghost l0 = log@;
    proof {
        lemma_replays_a_refl(a0, l0);
    }
    loop
        invariant
            a@.len() == a0.len(),
            a0.len() <= 3,
            a0.no_duplicates(),
            a@.to_multiset() == a0.to_multiset(),
            replays_a(a0, l0, log@, a@),
            log@.len() + steps_left(a@) <= l0.len() + 3,
            log@ + sort_3_ops(a@) == l0 + sort_3_ops(a0),
        ensures
            log@ == l0 + sort_3_ops(a0),
            ascending(final(a)@),
            a@.len() == a0.len(),
            a@.to_multiset() == a0.to_multiset(),
            replays_a(a0, l0, log@, a@),
            log@.len() <= l0.len() + 3,
        decreases steps_left(a@),
    {
        proof {
            lemma_same_contents_no_dup(a@, a0);
        }
        if a.len() < 2 || is_sorted(a.as_slice()) {
            proof {
                assert(log@ + sort_3_ops(a@) =~= log@);
            }
            break;
        }
        let ghost a1 = a@;
        let ghost l1 = log@;
        if a.len() == 2 {
            if a[0] > a[1] {
                do_sa(a, log);
                proof {
                    lemma_replays_a_trans(a0, l0, l1, a1, log@, a@);
                }
            }
            proof {
                crate::machine::lemma_replays_a_content(a0, l0, log@, a@);
                assert(a1[0] != a1[1]);
                assert(l1 + sort_3_ops(a1) =~= log@);
            }
            break;
        }
        let (top, mid, bot) = (a[0], a[1], a[2]);
        if top < mid && mid < bot {
            proof {
                assert(nondecreasing(a@));
                assert(log@ + sort_3_ops(a@) =~= log@);
            }
            break;
        } else if top > mid && mid < bot && top < bot {
            do_sa(a, log);
            proof {
                lemma_replays_a_trans(a0, l0, l1, a1, log@, a@);
            }
        } else if top < mid && mid > bot && top < bot {
            do_ra(a, log);
            let ghost a2 = a@;
            let ghost l2 = log@;
            do_sa(a, log);
            proof {
                lemma_replays_a_trans(a1, l1, l2, a2, log@, a@);
                lemma_replays_a_trans(a0, l0, l1, a1, log@, a@);
            }
        } else if top > mid && mid > bot {
            do_sa(a, log);
            let ghost a2 = a@;
            let ghost l2 = log@;
            do_rra(a, log);
            proof {
                lemma_replays_a_trans(a1, l1, l2, a2, log@, a@);
                lemma_replays_a_trans(a0, l0, l1, a1, log@, a@);
            }
        } else if top > mid && mid < bot && top > bot {
            do_ra(a, log);
            proof {
                lemma_replays_a_trans(a0, l0, l1, a1, log@, a@);
            }
        } else if top < mid && mid > bot && top > bot {
            do_rra(a, log);
            proof {
                lemma_replays_a_trans(a0, l0, l1, a1, log@, a@);
            }
        } else {
            break;
        }
        proof {
            assert(a1[0] != a1[1] && a1[1] != a1[2] && a1[0] != a1[2]);
            crate::machine::lemma_replays_a_content(a0, l0, log@, a@);
            if a@[0] < a@[1] && a@[1] < a@[2] {
                assert(nondecreasing(a@));
            }
            assert(log@ + sort_3_ops(a@) =~= l1 + sort_3_ops(a1));
        }
    }
}

/// The rank of each value: its index in a sorted copy of the values, found
/// by binary search.
pub fn compress_to_ranks(vals: &[i32]) -> (ranks: Vec<i32>)
    requires
        vals@.len() <= i32::MAX,
    ensures
        ranks@.len() == vals@.len(),
        forall|i: int| 0 <= i < vals@.len() ==> #[trigger] ranks@[i] == count_below(vals@, vals@[i]),
        vals@.no_duplicates() ==> order_embedding(vals@, ranks@),
        within(ranks@, 0, vals@.len() as int),
{
    let n = vals.len();
    let mut sorted: Vec<i32> = Vec::new();
    let mut c: usize = 0;
    while c < n
        invariant
            n == vals@.len(),
            c <= n,
            sorted@ == vals@.take(c as int),
        decreases n - c,
    {
        sorted.push(vals[c]);
        c += 1;
        proof {
            assert(sorted@ =~= vals@.take(c as int));
        }
    }
    proof {
        assert(vals@.take(n as int) =~= vals@);
    }
    let mut i: usize = 1;
    while i < n
        invariant
            n == vals@.len(),
            sorted@.len() == n,
            1 <= i,
            n == 0 || i <= n,
            sorted@.to_multiset() == vals@.to_multiset(),
            forall|p: int, q: int| 0 <= p < q < i && q < n ==> sorted@[p] <= sorted@[q],
        decreases n - i,
    {
        let mut j = i;
        while j > 0 && sorted[j] < sorted[j - 1]
            invariant
                n == vals@.len(),
                sorted@.len() == n,
                0 <= j <= i < n,
                sorted@.to_multiset() == vals@.to_multiset(),
                forall|p: int, q: int| 0 <= p < q <= i && p != j && q != j ==> sorted@[p] <= sorted@[q],
                forall|q: int| j < q <= i ==> sorted@[j as int] < sorted@[q],
            decreases j,
        {
            let ghost o = sorted@;
            let x = sorted[j];
            let y = sorted[j - 1];
            sorted.set(j, y);
            sorted.set(j - 1, x);
            proof {
                lemma_swap_content(o, j as int, j - 1);
                assert(sorted@ == o.update(j as int, o[j - 1]).update(j - 1, o[j as int]));
            }
            j -= 1;
        }
        proof {
            assert forall|p: int, q: int| 0 <= p < q <= i implies sorted@[p] <= sorted@[q] by {
                if q == j && p < j - 1 {
                    assert(sorted@[p] <= sorted@[j - 1]);
                }
            }
        }
        i += 1;
    }
    let mut ranks: Vec<i32> = Vec::new();
    let mut vi: usize = 0;
    while vi < n
        invariant
            n == vals@.len(),
            n <= i32::MAX,
            sorted@.len() == n,
            sorted@.to_multiset() == vals@.to_multiset(),
            nondecreasing(sorted@),
            vi <= n,
            ranks@.len() == vi,
            forall|k: int| 0 <= k < vi ==> 0 <= #[trigger] ranks@[k] < n && sorted@[ranks@[k] as int] == vals@[k],
            forall|k: int| 0 <= k < vi ==> #[trigger] ranks@[k] == count_below(vals@, vals@[k]),
        decreases n - vi,
    {
        let v = vals[vi];
        proof {
            lemma_member_of(vals@, sorted@, vi as int);
        }
        let mut lo: usize = 0;
        let mut hi: usize = n;
        while lo < hi
            invariant
                sorted@.len() == n,
                n <= i32::MAX,
                lo <= hi <= n,
                nondecreasing(sorted@),
                forall|k: int| 0 <= k < lo ==> sorted@[k] < v,
                forall|k: int| hi <= k < n ==> sorted@[k] >= v,
            decreases hi - lo,
        {
            let mid = (lo + hi) / 2;
            if sorted[mid] < v {
                lo = mid + 1;
            } else {
                hi = mid;
            }
        }
        proof {
            let j = choose|j: int| 0 <= j < n && sorted@[j] == v;
            assert(lo <= j);
            assert(sorted@[lo as int] <= sorted@[j]);
            crate::ranking::lemma_count_below_sorted(sorted@, v, lo as int);
            crate::ranking::lemma_count_below_perm(sorted@, vals@, v);
        }
        ranks.push(lo as i32);
        vi += 1;
    }
    proof {
        assert forall|i: int, j: int|
            0 <= i < n && 0 <= j < n && vals@[i] < vals@[j] implies ranks@[i] < ranks@[j] by {
            assert(sorted@[ranks@[i] as int] == vals@[i]);
            assert(sorted@[ranks@[j] as int] == vals@[j]);
            if ranks@[i] >= ranks@[j] {
                assert(sorted@[ranks@[j] as int] <= sorted@[ranks@[i] as int]);
            }
        }
    }
    ranks
}

/// The index of the first `v` in a, or 0 when there is none.
fn position(a: &Vec<i32>, v: i32) -> (r: usize)
    ensures
        a@.contains(v) ==> r < a@.len() && a@[r as int] == v,
        !a@.contains(v) ==> r == 0,
{
    let mut i: usize = 0;
    while i < a.len()
        invariant
            i <= a@.len(),
            forall|k: int| 0 <= k < i ==> a@[k] != v,
        decreases a@.len() - i,
    {
        if a[i] == v {
            return i;
        }
        i += 1;
    }
    0
}

/// Rotate the element at `pos` to the top of a: `ra` while it is in the top
/// half, `rra` otherwise.
fn rotate_a(a: &mut Vec<i32>, pos: usize, log: &mut Vec<Op>)
    requires
        pos < old(a)@.len(),
    ensures
        final(a)@ == rot_by(old(a)@, pos as int),
        replays_a(old(a)@, old(log)@, final(log)@, final(a)@),
        final(log)@.len() <= old(log)@.len() + old(a)@.len() / 2,
{
    let ghost a0 = a@;
    let ghost l0 = log@;
    proof {
        lemma_replays_a_refl(a0, l0);
        lemma_rot_by_ends(a0);
    }
    let alen = a.len();
    if pos <= alen / 2 {
        let mut k: usize = 0;
        while k < pos
            invariant
                k <= pos < alen,
                alen == a0.len(),
                a@ == rot_by(a0, k as int),
                replays_a(a0, l0, log@, a@),
                pos <= alen / 2,
                log@.len() == l0.len() + k,
            decreases pos - k,
        {
            let ghost a1 = a@;
            let ghost l1 = log@;
            proof {
                lemma_rot_up_by(a0, k as int);
            }
            do_ra(a, log);
            proof {
                lemma_replays_a_trans(a0, l0, l1, a1, log@, a@);
            }
            k += 1;
        }
    } else {
        let mut k: usize = 0;
        while k < alen - pos
            invariant
                pos < alen,
                alen == a0.len(),
                k <= alen - pos,
                a@ == rot_by(a0, alen - k),
                replays_a(a0, l0, log@, a@),
                alen / 2 < pos,
                log@.len() == l0.len() + k,
            decreases alen - pos - k,
        {
            let ghost a1 = a@;
            let ghost l1 = log@;
            proof {
                lemma_rot_down_by(a0, alen - k);
            }
            do_rra(a, log);
            proof {
                lemma_replays_a_trans(a0, l0, l1, a1, log@, a@);
            }
            k += 1;
        }
    }
}

/// Rotate the element at `pos` to the top of b: `rb` while it is in the top
/// half, `rrb` otherwise.
fn rotate_b(b: &mut Vec<i32>, pos: usize, log: &mut Vec<Op>)
    requires
        pos < old(b)@.len(),
    ensures
        final(b)@ == rot_by(old(b)@, pos as int),
        replays_b(old(b)@, old(log)@, final(log)@, final(b)@),
{
    let ghost b0 = b@;
    let ghost l0 = log@;
    proof {
        lemma_replays_b_refl(b0, l0);
        lemma_rot_by_ends(b0);
    }
    let blen = b.len();
    if pos <= blen / 2 {
        let mut k: usize = 0;
        while k < pos
            invariant
                k <= pos < blen,
                blen == b0.len(),
                b@ == rot_by(b0, k as int),
                replays_b(b0, l0, log@, b@),
            decreases pos - k,
        {
            let ghost b1 = b@;
            let ghost l1 = log@;
            proof {
                lemma_rot_up_by(b0, k as int);
            }
            do_rb(b, log);
            proof {
                lemma_replays_b_trans(b0, l0, l1, b1, log@, b@);
            }
            k += 1;
        }
    } else {
        let mut k: usize = 0;
        while k < blen - pos
            invariant
                pos < blen,
                blen == b0.len(),
                k <= blen - pos,
                b@ == rot_by(b0, blen - k),
                replays_b(b0, l0, log@, b@),
            decreases blen - pos - k,
        {
            let ghost b1 = b@;
            let ghost l1 = log@;
            proof {
                lemma_rot_down_by(b0, blen - k);
            }
            do_rrb(b, log);
            proof {
                lemma_replays_b_trans(b0, l0, l1, b1, log@, b@);
            }
            k += 1;
        }
    }
}

/// Five ranks `0 .. 5`: ranks 0 and 1 go to b, the other three are sorted,
/// 1 and then 0 come back.
pub fn sort_5(a: &mut Vec<i32>, b: &mut Vec<i32>, log: &mut Vec<Op>)
    requires
        old(a)@.len() == 5,
        is_rank_perm(old(a)@),
        old(b)@.len() == 0,
    ensures
        final(b)@.len() == 0,
        ascending(final(a)@),
        replays((old(a)@, old(b)@), old(log)@, final(log)@, (final(a)@, final(b)@)),
        final(log)@.len() <= old(log)@.len() + 12,
{
    let ghost s = a@;
    let ghost st0 = (a@, b@);
    let ghost l0 = log@;
    proof {
        lemma_replays_refl(st0, l0);
        assert(s + Seq::<i32>::empty() =~= s);
        lemma_perm_split(a@, b@, s);
        assert(a@.contains(0i32));
    }
    let pos0 = position(a, 0);
    let ghost a1 = a@;
    let ghost l1 = log@;
    rotate_a(a, pos0, log);
    proof {
        lemma_replays_a_at(a1, l1, log@, a@, b@);
        lemma_replays_trans(st0, l0, l1, (a1, b@), log@, (a@, b@));
        assert(a@[0] == 0);
    }
    let ghost st2 = (a@, b@);
    let ghost l2 = log@;
    do_pb(a, b, log);
    proof {
        lemma_replays_trans(st0, l0, l2, st2, log@, (a@, b@));
        lemma_replays_content(st0, l0, log@, (a@, b@));
        lemma_perm_split(a@, b@, s);
        assert(b@ == seq![0i32]);
        assert(a@.contains(1i32));
    }
    let pos1 = position(a, 1);
    let ghost a3 = a@;
    let ghost l3 = log@;
    rotate_a(a, pos1, log);
    proof {
        lemma_replays_a_at(a3, l3, log@, a@, b@);
        lemma_replays_trans(st0, l0, l3, (a3, b@), log@, (a@, b@));
        assert(a@[0] == 1);
    }
    let ghost st4 = (a@, b@);
    let ghost l4 = log@;
    do_pb(a, b, log);
    proof {
        lemma_replays_trans(st0, l0, l4, st4, log@, (a@, b@));
        lemma_replays_content(st0, l0, log@, (a@, b@));
        lemma_perm_split(a@, b@, s);
        assert(b@ =~= seq![1i32, 0i32]);
        assert forall|k: int| 0 <= k < a@.len() implies 2 <= #[trigger] a@[k] by {
            assert(a@[k] != b@[0] && a@[k] != b@[1]);
        }
    }
    let ghost a5 = a@;
    let ghost l5 = log@;
    sort_3(a, log);
    proof {
        lemma_replays_a_at(a5, l5, log@, a@, b@);
        lemma_replays_trans(st0, l0, l5, (a5, b@), log@, (a@, b@));
        assert forall|k: int| 0 <= k < a@.len() implies 2 <= #[trigger] a@[k] by {
            lemma_member_of(a@, a5, k);
        }
    }
    let ghost st6 = (a@, b@);
    let ghost l6 = log@;
    do_pa(a, b, log);
    proof {
        lemma_replays_trans(st0, l0, l6, st6, log@, (a@, b@));
    }
    let ghost st7 = (a@, b@);
    let ghost l7 = log@;
    do_pa(a, b, log);
    proof {
        lemma_replays_trans(st0, l0, l7, st7, log@, (a@, b@));
    }
}

/// Chunks of consecutive ranks, then the largest rank of b back to a, again
/// and again.
pub fn chunk_sort(a: &mut Vec<i32>, b: &mut Vec<i32>, log: &mut Vec<Op>)
    requires
        is_rank_perm(old(a)@),
        old(b)@.len() == 0,
        old(a)@.len() <= i32::MAX,
    ensures
        final(b)@.len() == 0,
        ascending(final(a)@),
        replays((old(a)@, old(b)@), old(log)@, final(log)@, (final(a)@, final(b)@)),
{
    let ghost s = a@;
    let ghost st0 = (a@, b@);
    let ghost l0 = log@;
    proof {
        lemma_replays_refl(st0, l0);
        assert(s + Seq::<i32>::empty() =~= s);
        lemma_perm_split(a@, b@, s);
    }
    let n = a.len();
    let chunk_size: usize = if n <= 15 {
        4
    } else if n <= 50 {
        9
    } else if n <= 100 {
        20
    } else if n <= 200 {
        35
    } else {
        50
    };
    let mut chunk_start: usize = 0;
    while chunk_start < n
        invariant
            s.len() == n,
            n <= i32::MAX,
            is_rank_perm(s),
            st0 == (s, Seq::<i32>::empty()),
            s + Seq::<i32>::empty() == s,
            1 <= chunk_size <= 50,
            chunk_start <= n,
            forall|p: int| 0 <= p < a@.len() ==> chunk_start <= #[trigger] a@[p],
            replays(st0, l0, log@, (a@, b@)),
        decreases n - chunk_start,
    {
        let chunk_end = if chunk_start + chunk_size > n { n } else { chunk_start + chunk_size };
        let chunk_mid = (chunk_start + chunk_end) / 2;
        let target = chunk_end - chunk_start;
        let mut pushed: usize = 0;
        let ghost mut got: Seq<i32> = Seq::empty();
        while pushed < target
            invariant
                s.len() == n,
                n <= i32::MAX,
                is_rank_perm(s),
                st0 == (s, Seq::<i32>::empty()),
                s + Seq::<i32>::empty() == s,
                chunk_start < chunk_end <= n,
                target == chunk_end - chunk_start,
                pushed <= target,
                got.len() == pushed,
                got.no_duplicates(),
                within(got, chunk_start as int, chunk_end as int),
                forall|k: int| 0 <= k < got.len() ==> b@.contains(#[trigger] got[k]),
                forall|p: int| 0 <= p < a@.len() ==> chunk_start <= #[trigger] a@[p],
                pushed == target ==> forall|p: int| 0 <= p < a@.len() ==> chunk_end <= #[trigger] a@[p],
                replays(st0, l0, log@, (a@, b@)),
            ensures
                forall|p: int| 0 <= p < a@.len() ==> chunk_end <= #[trigger] a@[p],
                replays(st0, l0, log@, (a@, b@)),
            decreases target - pushed,
        {
            proof {
                lemma_replays_content(st0, l0, log@, (a@, b@));
                lemma_perm_split(a@, b@, s);
            }
            let alen = a.len();
            let mut best_pos: Option<usize> = None;
            let mut best_cost = usize::MAX;
            let mut i: usize = 0;
            while i < alen
                invariant
                    alen == a@.len(),
                    i <= alen,
                    within(a@, 0, n as int),
                    best_pos is None ==> best_cost == usize::MAX,
                    best_pos is None ==> forall|k: int| 0 <= k < i ==> !(chunk_start <= #[trigger] a@[k] < chunk_end),
                    best_pos matches Some(p) ==> p < alen && chunk_start <= a@[p as int] < chunk_end,
                decreases alen - i,
            {
                let v = a[i];
                let rank = v as usize;
                if rank >= chunk_start && rank < chunk_end {
                    let cost = if i <= alen / 2 { i } else { alen - i };
                    if cost < best_cost {
                        best_cost = cost;
                        best_pos = Some(i);
                    }
                }
                i += 1;
            }
            if let Some(pos) = best_pos {
                let ghost a1 = a@;
                let ghost l1 = log@;
                rotate_a(a, pos, log);
                proof {
                    lemma_replays_a_at(a1, l1, log@, a@, b@);
                    lemma_replays_trans(st0, l0, l1, (a1, b@), log@, (a@, b@));
                    assert(a@[0] == a1[pos as int]);
                    assert forall|p: int| 0 <= p < a@.len() implies chunk_start <= #[trigger] a@[p] by {
                        if p < a1.len() - pos {
                            assert(a@[p] == a1[pos + p]);
                        } else {
                            assert(a@[p] == a1[p - (a1.len() - pos)]);
                        }
                    }
                    lemma_replays_content(st0, l0, log@, (a@, b@));
                    lemma_perm_split(a@, b@, s);
                    assert(!got.contains(a@[0])) by {
                        if got.contains(a@[0]) {
                            let k = choose|k: int| 0 <= k < got.len() && got[k] == a@[0];
                            assert(b@.contains(got[k]));
                        }
                    }
                }
                let rank = a[0] as usize;
                let ghost x = a@[0];
                let ghost st2 = (a@, b@);
                let ghost l2 = log@;
                do_pb(a, b, log);
                proof {
                    lemma_replays_trans(st0, l0, l2, st2, log@, (a@, b@));
                    assert forall|p: int| 0 <= p < a@.len() implies chunk_start <= #[trigger] a@[p] by {
                        assert(a@[p] == st2.0[p + 1]);
                    }
                    assert(b@[0] == x);
                    assert(b@.contains(x));
                    assert forall|k: int| 0 <= k < got.len() implies b@.contains(#[trigger] got[k]) by {
                        let j = choose|j: int| 0 <= j < st2.1.len() && st2.1[j] == got[k];
                        assert(b@[j + 1] == got[k]);
                    }
                }
                if rank < chunk_mid {
                    let ghost b3 = b@;
                    let ghost l3 = log@;
                    do_rb(b, log);
                    proof {
                        lemma_replays_b_at(b3, l3, log@, b@, a@);
                        lemma_replays_trans(st0, l0, l3, (a@, b3), log@, (a@, b@));
                        assert forall|y: i32| b3.contains(y) implies b@.contains(y) by {
                            let j = choose|j: int| 0 <= j < b3.len() && b3[j] == y;
                            if b3.len() >= 2 {
                                if j == 0 {
                                    assert(b@[b3.len() - 1] == y);
                                } else {
                                    assert(b@[j - 1] == y);
                                }
                            } else {
                                assert(b@[j] == y);
                            }
                        }
                        assert(b@.contains(x));
                    }
                }
                proof {
                    let g2 = got.push(x);
                    assert forall|k: int| 0 <= k < g2.len() implies b@.contains(#[trigger] g2[k]) by {
                        if k < got.len() {
                            assert(g2[k] == got[k]);
                        } else {
                            assert(b@.contains(x));
                        }
                    }
                    got = g2;
                    lemma_replays_content(st0, l0, log@, (a@, b@));
                    lemma_perm_split(a@, b@, s);
                    if pushed + 1 == target {
                        assert forall|p: int| 0 <= p < a@.len() implies chunk_end <= #[trigger] a@[p] by {
                            if a@[p] < chunk_end {
                                lemma_fills_range(got, chunk_start as int, chunk_end as int, a@[p] as int);
                                let k = choose|k: int| 0 <= k < got.len() && got[k] == a@[p];
                                assert(b@.contains(got[k]));
                            }
                        }
                    }
                }
                pushed += 1;
            } else {
                break;
            }
        }
        chunk_start = chunk_end;
    }
    proof {
        lemma_replays_content(st0, l0, log@, (a@, b@));
        lemma_perm_split(a@, b@, s);
        assert(a@.len() == 0) by {
            if a@.len() > 0 {
                assert(chunk_start <= a@[0]);
            }
        }
    }
    while !b.is_empty()
        invariant
            s.len() == n,
            is_rank_perm(s),
            st0 == (s, Seq::<i32>::empty()),
            s + Seq::<i32>::empty() == s,
            ascending(a@),
            forall|q: int, p: int| 0 <= q < b@.len() && 0 <= p < a@.len() ==> b@[q] < a@[p],
            replays(st0, l0, log@, (a@, b@)),
        decreases b@.len(),
    {
        proof {
            lemma_replays_content(st0, l0, log@, (a@, b@));
            lemma_perm_split(a@, b@, s);
        }
        let blen = b.len();
        let mut max_rank = b[0] as usize;
        let mut max_pos: usize = 0;
        let mut i: usize = 0;
        while i < blen
            invariant
                blen == b@.len(),
                i <= blen,
                within(b@, 0, n as int),
                max_pos < blen,
                max_rank == b@[max_pos as int],
                forall|k: int| 0 <= k < i ==> #[trigger] b@[k] <= b@[max_pos as int],
            decreases blen - i,
        {
            if b[i] as usize > max_rank {
                max_rank = b[i] as usize;
                max_pos = i;
            }
            i += 1;
        }
        let ghost b1 = b@;
        let ghost l1 = log@;
        rotate_b(b, max_pos, log);
        proof {
            lemma_replays_b_at(b1, l1, log@, b@, a@);
            lemma_replays_trans(st0, l0, l1, (a@, b1), log@, (a@, b@));
            assert forall|q: int| 0 <= q < b@.len() implies #[trigger] b@[q] == b1[if q < b1.len() - max_pos { max_pos + q } else { q - (b1.len() - max_pos) }] by {
            }
            assert forall|q: int| 1 <= q < b@.len() implies #[trigger] b@[q] < b@[0] by {
                let q1 = if q < b1.len() - max_pos { max_pos + q } else { q - (b1.len() - max_pos) };
                assert(b@[q] == b1[q1]);
                assert(q1 != max_pos);
            }
        }
        let ghost st2 = (a@, b@);
        let ghost l2 = log@;
        do_pa(a, b, log);
        proof {
            lemma_replays_trans(st0, l0, l2, st2, log@, (a@, b@));
            assert forall|q: int, p: int| 0 <= q < b@.len() && 0 <= p < a@.len() implies b@[q] < a@[p] by {
                assert(b@[q] == st2.1[q + 1]);
                if p > 0 {
                    assert(a@[p] == st2.0[p - 1]);
                }
            }
        }
    }
}

/// The operations that sort distinct values: none when they are already in
/// order; otherwise their ranks are sorted, by the three- or five-element
/// sorts or by chunks.
pub fn sort(input: Vec<i32>) -> (ops: Vec<Op>)
    requires
        input@.no_duplicates(),
        input@.len() <= i32::MAX,
    ensures
        sorts(input@, ops@),
        ascending(input@) ==> ops@.len() == 0,
        input@.len() <= 3 ==> ops@.len() <= 3,
        input@.len() == 5 ==> ops@.len() <= 12,
{
    let n = input.len();
    let mut log: Vec<Op> = Vec::new();
    let ghost e = Seq::<i32>::empty();
    let ghost v = input@;
    if n == 0 {
        proof {
            assert(v.to_multiset() =~= e.to_multiset()) by {
                assert(v =~= e);
            }
        }
        return log;
    }
    let ranks = compress_to_ranks(input.as_slice());
    let mut a: Vec<i32> = ranks;
    let mut b: Vec<i32> = Vec::new();
    let ghost r = a@;
    proof {
        crate::ranking::lemma_embedding_perm(v, r);
    }
    if is_sorted(a.as_slice()) {
        proof {
            assert forall|i: int, j: int| 0 <= i < j < v.len() implies v[i] < v[j] by {
                assert(r[i] != r[j]);
                assert(v[i] != v[j]);
            }
        }
        return log;
    }
    proof {
        lemma_replays_refl((r, e), log@);
        if ascending(v) {
            assert forall|i: int, j: int| 0 <= i < j < r.len() implies r[i] <= r[j] by {
            }
        }
    }
    if n == 2 {
        if a[0] > a[1] {
            let ghost a1 = a@;
            do_sa(&mut a, &mut log);
            proof {
                lemma_replays_a_at(a1, Seq::<Op>::empty(), log@, a@, b@);
            }
        }
        proof {
            assert(r[0] != r[1]);
        }
    } else if n == 3 {
        let ghost a1 = a@;
        sort_3(&mut a, &mut log);
        proof {
            lemma_replays_a_at(a1, Seq::<Op>::empty(), log@, a@, b@);
        }
    } else if n == 4 {
        chunk_sort(&mut a, &mut b, &mut log);
    } else if n == 5 {
        sort_5(&mut a, &mut b, &mut log);
    } else {
        chunk_sort(&mut a, &mut b, &mut log);
    }
    proof {
        assert(log@.skip(0) =~= log@);
        crate::ranking::lemma_sorting_keys_sorts(v, r, log@);
    }
    log
}

} // verus!
