//! Sorting with an index table: up to five values are sorted by pushing the
//! smallest ones to b; more are radix sorted on the index of each value in a
//! sorted copy, looked up in a table of `(value, index)` pairs. An operation
//! is recorded only when it changes a stack.
use vstd::prelude::*;
use vstd::arithmetic::power2::pow2;
use crate::machine::{
    Op, a_moves_appended, ascending, lemma_a_moves_push, lemma_a_moves_refl, lemma_a_moves_trans,
    lemma_pushes_to_b_concat, lemma_pushes_to_b_push, on_a_only, ops_appended, pushes_and_rotations, radix_op, pushes_to_b, repeat, lemma_replays_a_at, lemma_replays_a_push, lemma_replays_a_refl,
    lemma_replays_a_trans, lemma_replays_b_push, lemma_replays_b_refl, lemma_replays_content,
    lemma_replays_push, lemma_replays_refl, lemma_replays_trans, lemma_rot_by_ends, lemma_rot_down_by,
    lemma_rot_up_by, replays, replays_a, replays_b, rot_by, rot_down, rot_up, sorts, step, swap_top,
};
use crate::radix::{
    bit, keep_bit, keys_within, lemma_keep_bit_take, lemma_partition_sorted, lemma_sorted_low_full,
    lemma_sorted_low_zero, partition, sorted_low,
};
use crate::ranking::{lemma_member_of, lemma_same_contents_no_dup, lemma_swap_content, nondecreasing};

use crate::text::{
    all_read, arg_word_list, arg_words, has_stray_char, lemma_has_stray_char, parse_i32_std,
    split_whitespace, std_read, text_words, word_values,
};

verus! {

/// Read the numbers of the arguments: every argument must hold at least one word, split at
/// white space; every word must be read by the standard library as an `i32`;
/// no number may come twice. `None` stands for
/// the error.
pub fn parse_args(args: &Vec<String>) -> (r: Option<Vec<i32>>)
    ensures
        r is Some <==> ((forall|i: int| 0 <= i < args@.len() ==> text_words((#[trigger] args@[i])@).len() > 0)
            && all_read(arg_words(args@), std_read()) && word_values(arg_words(args@), std_read()).no_duplicates()),
        r is Some ==> r->0@ == word_values(arg_words(args@), std_read()),
        has_stray_char(args@) ==> r is None,
{
    proof {
        if has_stray_char(args@) {
            lemma_has_stray_char(args@);
        }
    }
    let mut i: usize = 0;
    while i < args.len()
        invariant
            i <= args@.len(),
            forall|k: int| 0 <= k < i ==> text_words((#[trigger] args@[k])@).len() > 0,
        decreases args@.len() - i,
    {
        let toks = split_whitespace(args[i].as_str());
        if toks.len() == 0 {
            return None;
        }
        i += 1;
    }
    let tokens = arg_word_list(args.as_slice());
    let ghost aw = arg_words(args@);
    let ghost rd = std_read();
    let mut values: Vec<i32> = Vec::new();
    let mut j: usize = 0;
    proof {
        assert(aw.take(0) =~= Seq::<Seq<char>>::empty());
        assert(word_values(aw.take(0), rd) =~= Seq::<i32>::empty());
    }
    while j < tokens.len()
        invariant
            tokens@.len() == aw.len(),
            forall|k: int| 0 <= k < tokens@.len() ==> (#[trigger] tokens@[k])@ == aw[k],
            rd == std_read(),
            aw == arg_words(args@),
            forall|k: int| 0 <= k < args@.len() ==> text_words((#[trigger] args@[k])@).len() > 0,
            j <= tokens@.len(),
            all_read(aw.take(j as int), rd),
            values@ == word_values(aw.take(j as int), rd),
            values@.no_duplicates(),
        decreases tokens@.len() - j,
    {
        let value = match parse_i32_std(tokens[j]) {
            Some(v) => v,
            None => {
                proof {
                    assert(rd(aw[j as int]) is None);
                }
                return None;
            },
        };
        proof {
            assert(rd(aw[j as int]) == Some(value));
        }
        let mut k: usize = 0;
        while k < values.len()
            invariant
                k <= values@.len(),
                forall|q: int| 0 <= q < k ==> #[trigger] values@[q] != value,
                j < aw.len(),
                rd == std_read(),
                aw == arg_words(args@),
                rd(aw[j as int]) == Some(value),
                values@ == word_values(aw.take(j as int), rd),
            decreases values@.len() - k,
        {
            if values[k] == value {
                proof {
                    crate::text::lemma_read_twice(aw, rd, j as int, k as int, value);
                }
                return None;
            }
            k += 1;
        }
        values.push(value);
        proof {
            assert(aw.take(j + 1) =~= aw.take(j as int).push(aw[j as int]));
            assert(values@ =~= word_values(aw.take(j + 1), rd));
            assert forall|q: int| 0 <= q < aw.take(j + 1).len() implies #[trigger] rd(aw.take(j + 1)[q]) is Some by {
                if q < j {
                    assert(aw.take(j + 1)[q] == aw.take(j as int)[q]);
                }
            }
        }
        j += 1;
    }
    proof {
        assert(aw.take(aw.len() as int) =~= aw);
    }
    Some(values)
}

/// `sa`, recorded when a holds two elements or more.
pub fn sa(a: &mut Vec<i32>, log: &mut Vec<Op>)
    ensures
        final(a)@ == swap_top(old(a)@),
        final(log)@ == if old(a)@.len() >= 2 { old(log)@.push(Op::Sa) } else { old(log)@ },
        replays_a(old(a)@, old(log)@, final(log)@, final(a)@),
{
    let ghost a0 = a@;
    proof {
        lemma_replays_a_refl(a0, log@);
        lemma_replays_a_push(a0, log@, log@, a0, Op::Sa);
    }
    if a.len() >= 2 {
        let x = a[0];
        let y = a[1];
        a.set(0, y);
        a.set(1, x);
        log.push(Op::Sa);
        proof {
            assert(a@ =~= swap_top(a0));
        }
    }
}

/// `sb`, recorded when b holds two elements or more.
pub fn sb(b: &mut Vec<i32>, log: &mut Vec<Op>)
    ensures
        final(b)@ == swap_top(old(b)@),
        final(log)@ == if old(b)@.len() >= 2 { old(log)@.push(Op::Sb) } else { old(log)@ },
        replays_b(old(b)@, old(log)@, final(log)@, final(b)@),
{
    let ghost b0 = b@;
    proof {
        lemma_replays_b_refl(b0, log@);
        lemma_replays_b_push(b0, log@, log@, b0, Op::Sb);
    }
    if b.len() >= 2 {
        let x = b[0];
        let y = b[1];
        b.set(0, y);
        b.set(1, x);
        log.push(Op::Sb);
        proof {
            assert(b@ =~= swap_top(b0));
        }
    }
}

/// `ss`, recorded when either stack holds two elements or more.
pub fn ss(a: &mut Vec<i32>, b: &mut Vec<i32>, log: &mut Vec<Op>)
    ensures
        (final(a)@, final(b)@) == step((old(a)@, old(b)@), Op::Ss),
        final(log)@ == if old(a)@.len() >= 2 || old(b)@.len() >= 2 {
            old(log)@.push(Op::Ss)
        } else {
            old(log)@
        },
        replays((old(a)@, old(b)@), old(log)@, final(log)@, (final(a)@, final(b)@)),
{
    let ghost st = (a@, b@);
    proof {
        lemma_replays_refl(st, log@);
        lemma_replays_push(st, log@, log@, st, Op::Ss);
    }
    let act_a = a.len() >= 2;
    let act_b = b.len() >= 2;
    if act_a {
        let x = a[0];
        let y = a[1];
        a.set(0, y);
        a.set(1, x);
    }
    if act_b {
        let x = b[0];
        let y = b[1];
        b.set(0, y);
        b.set(1, x);
    }
    if act_a || act_b {
        log.push(Op::Ss);
    }
    proof {
        assert(a@ =~= swap_top(st.0));
        assert(b@ =~= swap_top(st.1));
    }
}

/// `pa`, recorded when b is not empty.
pub fn pa(a: &mut Vec<i32>, b: &mut Vec<i32>, log: &mut Vec<Op>)
    ensures
        (final(a)@, final(b)@) == step((old(a)@, old(b)@), Op::Pa),
        final(log)@ == if old(b)@.len() > 0 { old(log)@.push(Op::Pa) } else { old(log)@ },
        replays((old(a)@, old(b)@), old(log)@, final(log)@, (final(a)@, final(b)@)),
{
    let ghost st = (a@, b@);
    proof {
        lemma_replays_refl(st, log@);
        lemma_replays_push(st, log@, log@, st, Op::Pa);
    }
    if b.len() > 0 {
        let val = b.remove(0);
        a.insert(0, val);
        log.push(Op::Pa);
        proof {
            assert(a@ =~= seq![st.1[0]] + st.0);
            assert(b@ =~= st.1.drop_first());
        }
    }
}

/// `pb`, recorded when a is not empty.
pub fn pb(a: &mut Vec<i32>, b: &mut Vec<i32>, log: &mut Vec<Op>)
    ensures
        (final(a)@, final(b)@) == step((old(a)@, old(b)@), Op::Pb),
        final(log)@ == if old(a)@.len() > 0 { old(log)@.push(Op::Pb) } else { old(log)@ },
        replays((old(a)@, old(b)@), old(log)@, final(log)@, (final(a)@, final(b)@)),
{
    let ghost st = (a@, b@);
    proof {
        lemma_replays_refl(st, log@);
        lemma_replays_push(st, log@, log@, st, Op::Pb);
    }
    if a.len() > 0 {
        let val = a.remove(0);
        b.insert(0, val);
        log.push(Op::Pb);
        proof {
            assert(b@ =~= seq![st.0[0]] + st.1);
            assert(a@ =~= st.0.drop_first());
        }
    }
}

/// `ra`, recorded when a holds two elements or more.
pub fn ra(a: &mut Vec<i32>, log: &mut Vec<Op>)
    ensures
        final(a)@ == rot_up(old(a)@),
        final(log)@ == if old(a)@.len() >= 2 { old(log)@.push(Op::Ra) } else { old(log)@ },
        replays_a(old(a)@, old(log)@, final(log)@, final(a)@),
{
    let ghost a0 = a@;
    proof {
        lemma_replays_a_refl(a0, log@);
        lemma_replays_a_push(a0, log@, log@, a0, Op::Ra);
    }
    if a.len() >= 2 {
        let val = a.remove(0);
        a.push(val);
        log.push(Op::Ra);
        proof {
            assert(a@ =~= rot_up(a0));
        }
    }
}

/// `rb`, recorded when b holds two elements or more.
pub fn rb(b: &mut Vec<i32>, log: &mut Vec<Op>)
    ensures
        final(b)@ == rot_up(old(b)@),
        final(log)@ == if old(b)@.len() >= 2 { old(log)@.push(Op::Rb) } else { old(log)@ },
        replays_b(old(b)@, old(log)@, final(log)@, final(b)@),
{
    let ghost b0 = b@;
    proof {
        lemma_replays_b_refl(b0, log@);
        lemma_replays_b_push(b0, log@, log@, b0, Op::Rb);
    }
    if b.len() >= 2 {
        let val = b.remove(0);
        b.push(val);
        log.push(Op::Rb);
        proof {
            assert(b@ =~= rot_up(b0));
        }
    }
}

/// `rr`, recorded when either stack holds two elements or more.
pub fn rr(a: &mut Vec<i32>, b: &mut Vec<i32>, log: &mut Vec<Op>)
    ensures
        (final(a)@, final(b)@) == step((old(a)@, old(b)@), Op::Rr),
        final(log)@ == if old(a)@.len() >= 2 || old(b)@.len() >= 2 {
            old(log)@.push(Op::Rr)
        } else {
            old(log)@
        },
        replays((old(a)@, old(b)@), old(log)@, final(log)@, (final(a)@, final(b)@)),
{
    let ghost st = (a@, b@);
    proof {
        lemma_replays_refl(st, log@);
        lemma_replays_push(st, log@, log@, st, Op::Rr);
    }
    let act_a = a.len() >= 2;
    let act_b = b.len() >= 2;
    if act_a {
        let val = a.remove(0);
        a.push(val);
    }
    if act_b {
        let val = b.remove(0);
        b.push(val);
    }
    if act_a || act_b {
        log.push(Op::Rr);
    }
    proof {
        assert(a@ =~= rot_up(st.0));
        assert(b@ =~= rot_up(st.1));
    }
}

/// `rra`, recorded when a holds two elements or more.
pub fn rra(a: &mut Vec<i32>, log: &mut Vec<Op>)
    ensures
        final(a)@ == rot_down(old(a)@),
        final(log)@ == if old(a)@.len() >= 2 { old(log)@.push(Op::Rra) } else { old(log)@ },
        replays_a(old(a)@, old(log)@, final(log)@, final(a)@),
{
    let ghost a0 = a@;
    proof {
        lemma_replays_a_refl(a0, log@);
        lemma_replays_a_push(a0, log@, log@, a0, Op::Rra);
    }
    if a.len() >= 2 {
        let val = a.pop().unwrap();
        a.insert(0, val);
        log.push(Op::Rra);
        proof {
            assert(a@ =~= rot_down(a0));
        }
    }
}

/// `rrb`, recorded when b holds two elements or more.
pub fn rrb(b: &mut Vec<i32>, log: &mut Vec<Op>)
    ensures
        final(b)@ == rot_down(old(b)@),
        final(log)@ == if old(b)@.len() >= 2 { old(log)@.push(Op::Rrb) } else { old(log)@ },
        replays_b(old(b)@, old(log)@, final(log)@, final(b)@),
{
    let ghost b0 = b@;
    proof {
        lemma_replays_b_refl(b0, log@);
        lemma_replays_b_push(b0, log@, log@, b0, Op::Rrb);
    }
    if b.len() >= 2 {
        let val = b.pop().unwrap();
        b.insert(0, val);
        log.push(Op::Rrb);
        proof {
            assert(b@ =~= rot_down(b0));
        }
    }
}

/// `rrr`, recorded when either stack holds two elements or more.
pub fn rrr(a: &mut Vec<i32>, b: &mut Vec<i32>, log: &mut Vec<Op>)
    ensures
        (final(a)@, final(b)@) == step((old(a)@, old(b)@), Op::Rrr),
        final(log)@ == if old(a)@.len() >= 2 || old(b)@.len() >= 2 {
            old(log)@.push(Op::Rrr)
        } else {
            old(log)@
        },
        replays((old(a)@, old(b)@), old(log)@, final(log)@, (final(a)@, final(b)@)),
{
    let ghost st = (a@, b@);
    proof {
        lemma_replays_refl(st, log@);
        lemma_replays_push(st, log@, log@, st, Op::Rrr);
    }
    let act_a = a.len() >= 2;
    let act_b = b.len() >= 2;
    if act_a {
        let val = a.pop().unwrap();
        a.insert(0, val);
    }
    if act_b {
        let val = b.pop().unwrap();
        b.insert(0, val);
    }
    if act_a || act_b {
        log.push(Op::Rrr);
    }
    proof {
        assert(a@ =~= rot_down(st.0));
        assert(b@ =~= rot_down(st.1));
    }
}

/// The index of the first smallest element (0 for an empty slice).
pub fn find_min_index(v: &[i32]) -> (r: usize)
    ensures
        v@.len() == 0 ==> r == 0,
        v@.len() > 0 ==> r < v@.len(),
        forall|k: int| 0 <= k < v@.len() ==> v@[r as int] <= v@[k],
        forall|k: int| 0 <= k < r ==> v@[k] > v@[r as int],
{
    let mut min_i: usize = 0;
    let mut i: usize = 1;
    while i < v.len()
        invariant
            v@.len() > 0 ==> min_i < i <= v@.len(),
            v@.len() == 0 ==> min_i == 0,
            forall|k: int| 0 <= k < i && k < v@.len() ==> v@[min_i as int] <= v@[k],
            forall|k: int| 0 <= k < min_i ==> v@[k] > v@[min_i as int],
        decreases v@.len() - i,
    {
        if v[i] < v[min_i] {
            min_i = i;
        }
        i += 1;
    }
    min_i
}

/// Rotate the element at `idx` to the top of a, the short way round.
pub fn rotate_to_top_a(a: &mut Vec<i32>, idx: usize, log: &mut Vec<Op>)
    requires
        idx <= old(a)@.len(),
    ensures
        final(a)@ == rot_by(old(a)@, idx as int),
        replays_a(old(a)@, old(log)@, final(log)@, final(a)@),
        final(log)@ == old(log)@ + if idx <= old(a)@.len() / 2 {
            repeat(Op::Ra, idx as nat)
        } else {
            repeat(Op::Rra, (old(a)@.len() - idx) as nat)
        },
{
    let ghost a0 = a@;
    let ghost l0 = log@;
    proof {
        lemma_replays_a_refl(a0, l0);
        lemma_rot_by_ends(a0);
    }
    let len = a.len();
    proof {
        assert(l0 + repeat(Op::Ra, 0) =~= l0);
        assert(l0 + repeat(Op::Rra, 0) =~= l0);
    }
    if idx <= len / 2 {
        let mut k: usize = 0;
        while k < idx
            invariant
                k <= idx,
                idx <= len / 2,
                len == a0.len(),
                a@ == rot_by(a0, k as int),
                replays_a(a0, l0, log@, a@),
                log@ == l0 + repeat(Op::Ra, k as nat),
            decreases idx - k,
        {
            let ghost a1 = a@;
            let ghost l1 = log@;
            proof {
                lemma_rot_up_by(a0, k as int);
            }
            ra(a, log);
            proof {
                assert((l0 + repeat(Op::Ra, k as nat)).push(Op::Ra) =~= l0 + repeat(Op::Ra, (k + 1) as nat));
            }
            proof {
                lemma_replays_a_trans(a0, l0, l1, a1, log@, a@);
            }
            k += 1;
        }
    } else {
        let mut k: usize = 0;
        let steps = len - idx;
        while k < steps
            invariant
                k <= steps,
                steps == len - idx,
                len / 2 < idx <= len,
                len == a0.len(),
                a@.len() == len,
                a@ == rot_by(a0, len - k),
                replays_a(a0, l0, log@, a@),
                log@ == l0 + repeat(Op::Rra, k as nat),
            decreases steps - k,
        {
            let ghost a1 = a@;
            let ghost l1 = log@;
            proof {
                lemma_rot_down_by(a0, len - k);
            }
            rra(a, log);
            proof {
                assert((l0 + repeat(Op::Rra, k as nat)).push(Op::Rra) =~= l0 + repeat(Op::Rra, (k + 1) as nat));
            }
            proof {
                lemma_replays_a_trans(a0, l0, l1, a1, log@, a@);
            }
            k += 1;
        }
    }
}

/// Push the `count` smallest elements of a to b, smallest first, so that b
/// gains them with the largest of them on top.
pub fn push_smallest_to_b(a: &mut Vec<i32>, b: &mut Vec<i32>, count: usize, log: &mut Vec<Op>)
    requires
        count <= old(a)@.len(),
        old(a)@.no_duplicates(),
    ensures
        final(a)@.len() == old(a)@.len() - count,
        final(b)@.len() == old(b)@.len() + count,
        final(b)@.skip(count as int) == old(b)@,
        forall|i: int, j: int| 0 <= i < j < count ==> final(b)@[i] > final(b)@[j],
        forall|i: int, k: int| 0 <= i < count && 0 <= k < final(a)@.len() ==> final(b)@[i] < final(a)@[k],
        replays((old(a)@, old(b)@), old(log)@, final(log)@, (final(a)@, final(b)@)),
        pushes_to_b(final(log)@.skip(old(log)@.len() as int)) == count,
        pushes_and_rotations(final(log)@.skip(old(log)@.len() as int)),
        final(log)@.len() <= old(log)@.len() + count * (old(a)@.len() / 2 + 1),
{
    let ghost st0 = (a@, b@);
    let ghost l0 = log@;
    let ghost b0 = b@;
    proof {
        lemma_replays_refl(st0, l0);
        assert(b@.skip(0) =~= b0);
    }
    let mut c: usize = 0;
    while c < count
        invariant
            c <= count,
            count <= st0.0.len(),
            a@.no_duplicates(),
            a@.len() == st0.0.len() - c,
            b@.len() == b0.len() + c,
            b@.skip(c as int) == b0,
            forall|i: int, j: int| 0 <= i < j < c ==> b@[i] > b@[j],
            forall|i: int, k: int| 0 <= i < c && 0 <= k < a@.len() ==> b@[i] < a@[k],
            replays(st0, l0, log@, (a@, b@)),
            l0.len() <= log@.len(),
            pushes_to_b(log@.skip(l0.len() as int)) == c,
            pushes_and_rotations(log@.skip(l0.len() as int)),
            log@.len() <= l0.len() + c * (st0.0.len() / 2 + 1),
        decreases count - c,
    {
        let min_idx = find_min_index(a);
        let ghost a1 = a@;
        let ghost l1 = log@;
        rotate_to_top_a(a, min_idx, log);
        proof {
            let rep = log@.skip(l1.len() as int);
            assert(log@ =~= l1 + rep);
            assert(log@.skip(l0.len() as int) =~= l1.skip(l0.len() as int) + rep);
            assert forall|i: int| 0 <= i < rep.len() implies #[trigger] rep[i] != Op::Pb && (rep[i] == Op::Ra
                || rep[i] == Op::Rra) by {
                assert(rep[i] == Op::Ra || rep[i] == Op::Rra);
            }
            lemma_pushes_to_b_concat(l1.skip(l0.len() as int), rep);
            assert forall|i: int| 0 <= i < log@.skip(l0.len() as int).len() implies #[trigger] log@.skip(l0.len() as int)[i] == Op::Pb || log@.skip(l0.len() as int)[i] == Op::Ra || log@.skip(l0.len() as int)[i] == Op::Rra by {
                let n1 = l1.skip(l0.len() as int).len();
                if i >= n1 {
                    assert(log@.skip(l0.len() as int)[i] == rep[i - n1]);
                } else {
                    assert(log@.skip(l0.len() as int)[i] == l1.skip(l0.len() as int)[i]);
                }
            }
            lemma_replays_a_at(a1, l1, log@, a@, b@);
            lemma_replays_trans(st0, l0, l1, (a1, b@), log@, (a@, b@));
            assert forall|k: int| 0 <= k < a@.len() implies a@[0] <= #[trigger] a@[k] by {
                if k < a1.len() - min_idx {
                    assert(a@[k] == a1[min_idx + k]);
                } else {
                    assert(a@[k] == a1[k - (a1.len() - min_idx)]);
                }
            }
            assert forall|i: int, k: int| 0 <= i < c && 0 <= k < a@.len() implies b@[i] < a@[k] by {
                if k < a1.len() - min_idx {
                    assert(a@[k] == a1[min_idx + k]);
                } else {
                    assert(a@[k] == a1[k - (a1.len() - min_idx)]);
                }
            }
            crate::machine::lemma_rot_by_content(a1, min_idx as int);
            lemma_same_contents_no_dup(a@, a1);
            assert forall|k: int| 1 <= k < a@.len() implies a@[0] < #[trigger] a@[k] by {
                assert(a@[0] != a@[k]);
            }
        }
        let ghost a2 = a@;
        let ghost b2 = b@;
        let ghost l2 = log@;
        pb(a, b, log);
        proof {
            assert(log@ == l2.push(Op::Pb));
            assert(log@.skip(l0.len() as int) =~= l2.skip(l0.len() as int).push(Op::Pb));
            lemma_pushes_to_b_push(l2.skip(l0.len() as int), Op::Pb);
            assert(l2.len() <= l1.len() + st0.0.len() / 2);
            assert(c * (st0.0.len() / 2 + 1) + (st0.0.len() / 2 + 1) == (c + 1) * (st0.0.len() / 2 + 1)) by (nonlinear_arith);
            lemma_replays_trans(st0, l0, l2, (a2, b2), log@, (a@, b@));
            assert(b@ == seq![a2[0]] + b2);
            assert(b@.skip(c + 1) =~= b2.skip(c as int));
            assert forall|i: int, j: int| 0 <= i < a@.len() && 0 <= j < a@.len() && i != j implies a@[i] != a@[j] by {
                assert(a@[i] == a2[i + 1]);
                assert(a@[j] == a2[j + 1]);
            }
            assert forall|i: int, k: int| 0 <= i < c + 1 && 0 <= k < a@.len() implies b@[i] < a@[k] by {
                assert(a@[k] == a2[k + 1]);
                if i > 0 {
                    assert(b@[i] == b2[i - 1]);
                }
            }
            assert forall|i: int, j: int| 0 <= i < j < c + 1 implies b@[i] > b@[j] by {
                if i > 0 {
                    assert(b@[i] == b2[i - 1]);
                }
                assert(b@[j] == b2[j - 1]);
            }
        }
        c += 1;
    }
}

/// Sort three distinct elements of a with at most two operations.
pub fn sort_three(a: &mut Vec<i32>, log: &mut Vec<Op>)
    requires
        old(a)@.len() == 3,
        old(a)@.no_duplicates(),
    ensures
        final(a)@.len() == 3,
        ascending(final(a)@),
        final(a)@.to_multiset() == old(a)@.to_multiset(),
        replays_a(old(a)@, old(log)@, final(log)@, final(a)@),
        final(log)@.len() <= old(log)@.len() + 2,
        a_moves_appended(old(log)@, final(log)@),
        ascending(old(a)@) ==> final(log)@ == old(log)@ && final(a)@ == old(a)@,
{
    let ghost a0 = a@;
    let ghost l0 = log@;
    proof {
        crate::machine::lemma_a_moves_refl(l0);
    }
    proof {
        lemma_replays_a_refl(a0, l0);
    }
    let x = a[0];
    let y = a[1];
    let z = a[2];
    if x < y && y < z {
        return;
    }
    if x > y && y < z {
        if x < z {
            let ghost lb = log@;
            sa(a, log);
            proof {
                crate::machine::lemma_a_moves_push(l0, lb, Op::Sa);
            }
        } else {
            let ghost lb = log@;
            ra(a, log);
            proof {
                crate::machine::lemma_a_moves_push(l0, lb, Op::Ra);
            }
        }
    } else if x < y && y > z {
        if x < z {
            let ghost lb = log@;
            rra(a, log);
            proof {
                crate::machine::lemma_a_moves_push(l0, lb, Op::Rra);
            }
            let ghost a1 = a@;
            let ghost l1 = log@;
            let ghost lb = log@;
            sa(a, log);
            proof {
                crate::machine::lemma_a_moves_push(l0, lb, Op::Sa);
            }
            proof {
                lemma_replays_a_trans(a0, l0, l1, a1, log@, a@);
            }
        } else {
            let ghost lb = log@;
            rra(a, log);
            proof {
                crate::machine::lemma_a_moves_push(l0, lb, Op::Rra);
            }
        }
    } else {
        let ghost lb = log@;
        sa(a, log);
        proof {
            crate::machine::lemma_a_moves_push(l0, lb, Op::Sa);
        }
        let ghost a1 = a@;
        let ghost l1 = log@;
        let ghost lb = log@;
        rra(a, log);
        proof {
            crate::machine::lemma_a_moves_push(l0, lb, Op::Rra);
        }
        proof {
            lemma_replays_a_trans(a0, l0, l1, a1, log@, a@);
        }
    }
    proof {
        assert(a0[0] != a0[1] && a0[1] != a0[2] && a0[0] != a0[2]);
        crate::machine::lemma_replays_a_content(a0, l0, log@, a@);
    }
}

/// Four distinct elements: the smallest goes to b, the rest are sorted, it comes back.
pub fn sort_four(a: &mut Vec<i32>, b: &mut Vec<i32>, log: &mut Vec<Op>)
    requires
        old(a)@.len() == 4,
        old(b)@.len() == 0,
        old(a)@.no_duplicates(),
    ensures
        final(b)@.len() == 0,
        ascending(final(a)@),
        replays((old(a)@, old(b)@), old(log)@, final(log)@, (final(a)@, final(b)@)),
        final(log)@.len() <= old(log)@.len() + 12,
{
    let ghost st0 = (a@, b@);
    let ghost l0 = log@;
    proof {
        assert(a@ + b@ =~= a@);
    }
    push_smallest_to_b(a, b, 1, log);
    proof {
        lemma_replays_content(st0, l0, log@, (a@, b@));
        lemma_same_contents_no_dup(a@ + b@, st0.0 + st0.1);
        assert forall|i: int, j: int| 0 <= i < 3 && 0 <= j < 3 && i != j implies a@[i] != a@[j] by {
            assert((a@ + b@)[i] == a@[i]);
            assert((a@ + b@)[j] == a@[j]);
        }
    }
    let ghost a1 = a@;
    let ghost l1 = log@;
    let ghost mid = (a@, b@);
    sort_three(a, log);
    proof {
        lemma_replays_a_at(a1, l1, log@, a@, b@);
        lemma_replays_trans(st0, l0, l1, mid, log@, (a@, b@));
        assert forall|k: int| 0 <= k < 3 implies b@[0] < #[trigger] a@[k] by {
            lemma_member_of(a@, a1, k);
        }
    }
    let ghost st2 = (a@, b@);
    let ghost l2 = log@;
    pa(a, b, log);
    proof {
        lemma_replays_trans(st0, l0, l2, st2, log@, (a@, b@));
    }
}

/// Five distinct elements: the two smallest go to b, the rest are sorted,
/// they come back.
pub fn sort_five(a: &mut Vec<i32>, b: &mut Vec<i32>, log: &mut Vec<Op>)
    requires
        old(a)@.len() == 5,
        old(b)@.len() == 0,
        old(a)@.no_duplicates(),
    ensures
        final(b)@.len() == 0,
        ascending(final(a)@),
        replays((old(a)@, old(b)@), old(log)@, final(log)@, (final(a)@, final(b)@)),
        final(log)@.len() <= old(log)@.len() + 12,
{
    let ghost st0 = (a@, b@);
    let ghost l0 = log@;
    proof {
        assert(a@ + b@ =~= a@);
    }
    push_smallest_to_b(a, b, 2, log);
    proof {
        lemma_replays_content(st0, l0, log@, (a@, b@));
        lemma_same_contents_no_dup(a@ + b@, st0.0 + st0.1);
        assert forall|i: int, j: int| 0 <= i < 3 && 0 <= j < 3 && i != j implies a@[i] != a@[j] by {
            assert((a@ + b@)[i] == a@[i]);
            assert((a@ + b@)[j] == a@[j]);
        }
    }
    let ghost a1 = a@;
    let ghost l1 = log@;
    let ghost mid = (a@, b@);
    sort_three(a, log);
    proof {
        lemma_replays_a_at(a1, l1, log@, a@, b@);
        lemma_replays_trans(st0, l0, l1, mid, log@, (a@, b@));
        assert forall|k: int| 0 <= k < 3 implies b@[0] < #[trigger] a@[k] && b@[1] < a@[k] by {
            lemma_member_of(a@, a1, k);
        }
    }
    let ghost st2 = (a@, b@);
    let ghost l2 = log@;
    pa(a, b, log);
    proof {
        lemma_replays_trans(st0, l0, l2, st2, log@, (a@, b@));
    }
    let ghost st3 = (a@, b@);
    let ghost l3 = log@;
    pa(a, b, log);
    proof {
        lemma_replays_trans(st0, l0, l3, st3, log@, (a@, b@));
    }
}

/// The index stored for `v` in a table of `(value, index)` pairs: that of its
/// first entry, or 0 when it has none.
pub open spec fn lookup(ix: Seq<(i32, u32)>, v: i32) -> u32
    decreases ix.len(),
{
    if ix.len() == 0 {
        0
    } else if ix[0].0 == v {
        ix[0].1
    } else {
        lookup(ix.drop_first(), v)
    }
}

/// The radix key of a value: its index in the table.
pub open spec fn index_key(ix: Seq<(i32, u32)>) -> spec_fn(i32) -> int {
    |x: i32| lookup(ix, x) as int
}

/// A table that pairs each of the `vals`, in order, with an index: the
/// indexes lie below `vals.len()` and order the values as the values order
/// themselves.
pub open spec fn index_table(vals: Seq<i32>, ix: Seq<(i32, u32)>) -> bool {
    &&& ix.len() == vals.len()
    &&& forall|i: int| 0 <= i < ix.len() ==> (#[trigger] ix[i]).0 == vals[i] && ix[i].1 < vals.len()
    &&& forall|i: int, j: int|
        0 <= i < vals.len() && 0 <= j < vals.len() && vals[i] < vals[j] ==> ix[i].1 < ix[j].1
}

pub proof fn lemma_lookup_at(ix: Seq<(i32, u32)>, vals: Seq<i32>, i: int)
    requires
        ix.len() == vals.len(),
        forall|k: int| 0 <= k < ix.len() ==> (#[trigger] ix[k]).0 == vals[k],
        vals.no_duplicates(),
        0 <= i < vals.len(),
    ensures
        lookup(ix, vals[i]) == ix[i].1,
    decreases i,
{
    if i > 0 {
        assert(ix[0].0 == vals[0]);
        assert(vals[0] != vals[i]);
        let ix1 = ix.drop_first();
        let v1 = vals.drop_first();
        assert forall|k: int| 0 <= k < ix1.len() implies (#[trigger] ix1[k]).0 == v1[k] by {
            assert(ix[k + 1].0 == vals[k + 1]);
        }
        lemma_lookup_at(ix1, v1, i - 1);
    } else {
        assert(ix[0].0 == vals[0]);
    }
}

/// Pair each value with its index in a sorted copy of the values.
pub fn make_indexed(vals: &[i32]) -> (result: Vec<(i32, u32)>)
    requires
        vals@.len() <= i32::MAX,
    ensures
        index_table(vals@, result@),
        forall|i: int| 0 <= i < vals@.len() ==> #[trigger] result@[i].1 == crate::ranking::count_below(vals@, vals@[i]),
{
    let len = vals.len();
    let mut ordered: Vec<i32> = Vec::with_capacity(len);
    let mut i: usize = 0;
    while i < len
        invariant
            len == vals@.len(),
            i <= len,
            ordered@ == vals@.take(i as int),
        decreases len - i,
    {
        ordered.push(vals[i]);
        i += 1;
        proof {
            assert(ordered@ =~= vals@.take(i as int));
        }
    }
    proof {
        assert(vals@.take(len as int) =~= vals@);
    }
    let mut i: usize = 1;
    while i < ordered.len()
        invariant
            len == vals@.len(),
            ordered@.len() == len,
            1 <= i,
            len == 0 || i <= len,
            ordered@.to_multiset() == vals@.to_multiset(),
            forall|p: int, q: int| 0 <= p < q < i && q < len ==> ordered@[p] <= ordered@[q],
        decreases len - i,
    {
        let mut j = i;
        while j > 0 && ordered[j - 1] > ordered[j]
            invariant
                len == vals@.len(),
                ordered@.len() == len,
                0 <= j <= i < len,
                ordered@.to_multiset() == vals@.to_multiset(),
                forall|p: int, q: int|
                    0 <= p < q <= i && p != j && q != j ==> ordered@[p] <= ordered@[q],
                forall|q: int| j < q <= i ==> ordered@[j as int] < ordered@[q],
            decreases j,
        {
            let ghost o = ordered@;
            let x = ordered[j - 1];
            let y = ordered[j];
            ordered.set(j - 1, y);
            ordered.set(j, x);
            proof {
                lemma_swap_content(o, j - 1, j as int);
                assert(ordered@ == o.update(j - 1, o[j as int]).update(j as int, o[j - 1]));
            }
            j -= 1;
        }
        proof {
            assert forall|p: int, q: int| 0 <= p < q <= i implies ordered@[p] <= ordered@[q] by {
                if q == j && p < j - 1 {
                    assert(ordered@[p] <= ordered@[j - 1]);
                }
            }
        }
        i += 1;
    }
    let mut result: Vec<(i32, u32)> = Vec::with_capacity(len);
    let mut vi: usize = 0;
    while vi < len
        invariant
            len == vals@.len(),
            len <= i32::MAX,
            ordered@.len() == len,
            ordered@.to_multiset() == vals@.to_multiset(),
            nondecreasing(ordered@),
            vi <= len,
            result@.len() == vi,
            forall|k: int| 0 <= k < vi ==> (#[trigger] result@[k]).0 == vals@[k] && result@[k].1 < len
                && ordered@[result@[k].1 as int] == vals@[k],
            forall|k: int| 0 <= k < vi ==> #[trigger] result@[k].1 == crate::ranking::count_below(vals@, vals@[k]),
        decreases len - vi,
    {
        let v = vals[vi];
        let mut pos: u32 = 0;
        proof {
            lemma_member_of(vals@, ordered@, vi as int);
        }
        let mut si: usize = 0;
        while si < ordered.len()
            invariant
                ordered@.len() == len,
                len <= i32::MAX,
                si <= len,
                ordered@.contains(v),
                forall|k: int| 0 <= k < si ==> ordered@[k] != v,
            ensures
                pos < len,
                ordered@[pos as int] == v,
                forall|k: int| 0 <= k < pos ==> ordered@[k] != v,
            decreases len - si,
        {
            if ordered[si] == v {
                pos = si as u32;
                break;
            }
            si += 1;
        }
        proof {
            assert forall|k: int| 0 <= k < pos implies ordered@[k] < v by {
                assert(ordered@[k] <= ordered@[pos as int]);
            }
            assert forall|k: int| pos <= k < len implies ordered@[k] >= v by {
                assert(ordered@[pos as int] <= ordered@[k]);
            }
            crate::ranking::lemma_count_below_sorted(ordered@, v, pos as int);
            crate::ranking::lemma_count_below_perm(ordered@, vals@, v);
        }
        result.push((v, pos));
        vi += 1;
    }
    proof {
        assert forall|i: int, j: int|
            0 <= i < vals@.len() && 0 <= j < vals@.len() && vals@[i] < vals@[j] implies result@[i].1
            < result@[j].1 by {
            assert(result@[i].0 == vals@[i]);
            assert(result@[j].0 == vals@[j]);
            if result@[i].1 >= result@[j].1 {
                assert(ordered@[result@[j].1 as int] <= ordered@[result@[i].1 as int]);
            }
        }
    }
    result
}

/// The index stored for `val`, or 0 when the table has no entry for it.
pub fn lookup_idx(indexed: &[(i32, u32)], val: i32) -> (r: u32)
    ensures
        r == lookup(indexed@, val),
{
    let mut i: usize = 0;
    proof {
        assert(indexed@.skip(0) =~= indexed@);
    }
    while i < indexed.len()
        invariant
            i <= indexed@.len(),
            lookup(indexed@, val) == lookup(indexed@.skip(i as int), val),
        decreases indexed@.len() - i,
    {
        proof {
            assert(indexed@.skip(i as int).drop_first() =~= indexed@.skip(i + 1));
        }
        if indexed[i].0 == val {
            return indexed[i].1;
        }
        i += 1;
    }
    0
}

/// Radix sort on the indexes of the values in a sorted copy: for each bit
/// from the lowest, the values whose index has the bit clear go to b and the
/// others rotate under; then b comes back.
pub fn radix_sort(a: &mut Vec<i32>, b: &mut Vec<i32>, log: &mut Vec<Op>)
    requires
        old(a)@.no_duplicates(),
        old(b)@.len() == 0,
        1 <= old(a)@.len() <= i32::MAX,
    ensures
        final(b)@.len() == 0,
        ascending(final(a)@),
        replays((old(a)@, old(b)@), old(log)@, final(log)@, (final(a)@, final(b)@)),
        ops_appended(old(log)@, final(log)@, radix_op()),
        forall|k: nat| old(a)@.len() <= pow2(k) ==> final(log)@.len() <= old(log)@.len() + 2 * k * old(a)@.len(),
{
    let ghost s = a@;
    let ghost st0 = (a@, b@);
    let ghost l0 = log@;
    proof {
        lemma_replays_refl(st0, l0);
        crate::machine::lemma_ops_appended_refl(l0, radix_op());
        assert(s + Seq::<i32>::empty() =~= s);
    }
    let n = a.len();
    let indexed = make_indexed(a.as_slice());
    let ghost ix = indexed@;
    let ghost key = index_key(ix);
    proof {
        assert forall|x: i32| s.contains(x) implies 0 <= #[trigger] key(x) < n by {
            let i = choose|i: int| 0 <= i < s.len() && s[i] == x;
            lemma_lookup_at(ix, s, i);
        }
    }
    let mut max_bits: u32 = 0;
    let mut t: u32 = (n - 1) as u32;
    proof {
        vstd::arithmetic::power2::lemma2_to64();
    }
    while t > 0
        invariant
            1 <= n <= i32::MAX,
            max_bits <= 31,
            t as int == (n - 1) as int / (pow2(max_bits as nat) as int),
            max_bits > 0 ==> pow2((max_bits - 1) as nat) <= n - 1,
        decreases t,
    {
        proof {
            crate::radix::lemma_bits_step((n - 1) as int, max_bits as nat);
            assert(t >> 1 == t / 2) by (bit_vector);
        }
        max_bits += 1;
        t >>= 1;
    }
    proof {
        crate::radix::lemma_bits_done((n - 1) as int, max_bits as nat);
        lemma_sorted_low_zero(a@, key);
    }
    let mut bit: u32 = 0;
    while bit < max_bits
        invariant
            s.len() == n,
            1 <= n <= i32::MAX,
            max_bits <= 31,
            n - 1 < pow2(max_bits as nat),
            s.no_duplicates(),
            st0 == (s, Seq::<i32>::empty()),
            s + Seq::<i32>::empty() == s,
            ix == indexed@,
            key == index_key(ix),
            index_table(s, ix),
            forall|x: i32| s.contains(x) ==> 0 <= #[trigger] key(x) < n,
            bit <= max_bits,
            a@.len() == n,
            b@.len() == 0,
            sorted_low(a@, key, bit as nat),
            replays(st0, l0, log@, (a@, b@)),
            max_bits > 0 ==> pow2((max_bits - 1) as nat) <= n - 1,
            log@.len() <= l0.len() + 2 * n * bit,
            ops_appended(l0, log@, radix_op()),
        decreases max_bits - bit,
    {
        let ghost sp = a@;
        proof {
            lemma_replays_content(st0, l0, log@, (a@, b@));
            assert(a@ + b@ =~= a@);
            assert forall|p: int| 0 <= p < sp.len() implies 0 <= #[trigger] key(sp[p]) < n by {
                lemma_member_of(sp, s, p);
            }
        }
        let mut iter: usize = 0;
        let ghost lp = log@;
        while iter < n
            invariant
                iter <= n,
                sp.len() == n,
                bit < max_bits <= 31,
                key == index_key(ix),
                ix == indexed@,
                keys_within(sp, key, n as int),
                st0 == (s, Seq::<i32>::empty()),
                a@ == sp.skip(iter as int) + keep_bit(sp.take(iter as int), key, bit as nat, 1),
                b@ == keep_bit(sp.take(iter as int), key, bit as nat, 0).reverse(),
                replays(st0, l0, log@, (a@, b@)),
                lp.len() <= l0.len() + 2 * n * bit,
                log@.len() <= lp.len() + iter,
                b@.len() <= iter,
                ops_appended(l0, log@, radix_op()),
            decreases n - iter,
        {
            proof {
                assert(a@[0] == sp[iter as int]);
                lemma_keep_bit_take(sp, key, bit as nat, 0, iter as int);
                lemma_keep_bit_take(sp, key, bit as nat, 1, iter as int);
                assert(0 <= key(sp[iter as int]));
                crate::radix::lemma_low_step(key(sp[iter as int]), bit as nat);
            }
            let val = a[0];
            let idx = lookup_idx(indexed.as_slice(), val);
            proof {
                crate::radix::lemma_shift_mask_u32(idx, bit);
            }
            let ghost a1 = a@;
            let ghost b1 = b@;
            let ghost l1 = log@;
            if (idx >> bit) & 1 == 0 {
                pb(a, b, log);
                proof {
                    crate::machine::lemma_ops_appended_step(l0, l1, log@, Op::Pb, radix_op());
                    lemma_replays_trans(st0, l0, l1, (a1, b1), log@, (a@, b@));
                    assert(a@ =~= sp.skip(iter + 1) + keep_bit(sp.take(iter + 1), key, bit as nat, 1));
                    assert(b@ =~= keep_bit(sp.take(iter + 1), key, bit as nat, 0).reverse());
                }
            } else {
                ra(a, log);
                proof {
                    crate::machine::lemma_ops_appended_step(l0, l1, log@, Op::Ra, radix_op());
                    lemma_replays_a_at(a1, l1, log@, a@, b@);
                    lemma_replays_trans(st0, l0, l1, (a1, b1), log@, (a@, b@));
                    assert(a@ =~= sp.skip(iter + 1) + keep_bit(sp.take(iter + 1), key, bit as nat, 1));
                    assert(b@ =~= keep_bit(sp.take(iter + 1), key, bit as nat, 0).reverse());
                }
            }
            iter += 1;
        }
        let ghost z = keep_bit(sp, key, bit as nat, 0);
        let ghost o = keep_bit(sp, key, bit as nat, 1);
        proof {
            assert(sp.take(n as int) =~= sp);
            assert(sp.skip(n as int) =~= Seq::<i32>::empty());
            assert(a@ =~= z.skip(b@.len() as int) + o);
            assert(b@ =~= z.take(b@.len() as int).reverse());
        }
        while b.len() > 0
            invariant
                b@.len() <= z.len(),
                a@ == z.skip(b@.len() as int) + o,
                b@ == z.take(b@.len() as int).reverse(),
                replays(st0, l0, log@, (a@, b@)),
                lp.len() <= l0.len() + 2 * n * bit,
                log@.len() + b@.len() <= lp.len() + 2 * n,
                ops_appended(l0, log@, radix_op()),
            decreases b@.len(),
        {
            let ghost a1 = a@;
            let ghost b1 = b@;
            let ghost l1 = log@;
            pa(a, b, log);
            proof {
                crate::machine::lemma_ops_appended_step(l0, l1, log@, Op::Pa, radix_op());
                lemma_replays_trans(st0, l0, l1, (a1, b1), log@, (a@, b@));
                assert(a@ =~= z.skip(b@.len() as int) + o);
                assert(b@ =~= z.take(b@.len() as int).reverse());
            }
        }
        proof {
            assert(a@ =~= partition(sp, key, bit as nat));
            lemma_partition_sorted(sp, key, bit as nat, n as int);
            lemma_replays_content(st0, l0, log@, (a@, b@));
            assert(a@ + b@ =~= a@);
            vstd::seq_lib::to_multiset_len(a@);
            vstd::seq_lib::to_multiset_len(s);
        }
        proof {
            assert(2 * n * bit + 2 * n == 2 * n * (bit + 1)) by (nonlinear_arith);
        }
        bit += 1;
    }
    proof {
        lemma_replays_content(st0, l0, log@, (a@, b@));
        assert(a@ + b@ =~= a@);
        lemma_same_contents_no_dup(a@, s);
        assert forall|p: int| 0 <= p < a@.len() implies 0 <= #[trigger] key(a@[p]) < pow2(max_bits as nat) by {
            lemma_member_of(a@, s, p);
        }
        lemma_sorted_low_full(a@, key, max_bits as nat);
        assert forall|p: int, q: int| 0 <= p < q < a@.len() implies a@[p] < a@[q] by {
            lemma_member_of(a@, s, p);
            lemma_member_of(a@, s, q);
            let i = choose|i: int| 0 <= i < s.len() && s[i] == a@[p];
            let j = choose|j: int| 0 <= j < s.len() && s[j] == a@[q];
            lemma_lookup_at(ix, s, i);
            lemma_lookup_at(ix, s, j);
            assert(key(a@[p]) <= key(a@[q]));
        }
    }    proof {
        assert forall|k: nat| n <= pow2(k) implies log@.len() <= l0.len() + 2 * k * n by {
            crate::radix::lemma_bits_least((n - 1) as int, max_bits as nat, k);
            assert(2 * n * max_bits <= 2 * k * n) by (nonlinear_arith)
                requires
                    max_bits <= k,
                    n >= 0,
            ;
        }
    }
}

/// The operations that sort distinct values: none when they are already in
/// order; for two, three, four or five values the small sorts; the radix
/// sort otherwise.
pub fn solve(values: Vec<i32>) -> (ops: Vec<Op>)
    requires
        values@.no_duplicates(),
        values@.len() <= i32::MAX,
    ensures
        sorts(values@, ops@),
        ascending(values@) ==> ops@.len() == 0,
        values@.len() <= 5 ==> ops@.len() <= 12,
        values@.len() > 5 ==> forall|k: nat| values@.len() <= pow2(k) ==> ops@.len() <= 2 * k * values@.len(),
{
    let mut log: Vec<Op> = Vec::new();
    let ghost e = Seq::<i32>::empty();
    let ghost v = values@;
    let mut a = values;
    if a.len() == 0 {
        proof {
            assert(v.to_multiset() =~= e.to_multiset()) by {
                assert(v =~= e);
            }
        }
        return log;
    }
    let mut sorted = true;
    let mut i: usize = 1;
    while i < a.len()
        invariant_except_break
            sorted,
        invariant
            a@ == v,
            1 <= i <= a@.len(),
            forall|p: int, q: int| 0 <= p < q < i ==> a@[p] <= a@[q],
        ensures
            sorted ==> nondecreasing(a@),
            !sorted ==> !nondecreasing(a@),
        decreases a@.len() - i,
    {
        if a[i - 1] > a[i] {
            sorted = false;
            break;
        }
        i += 1;
    }
    if sorted {
        proof {
            crate::ranking::lemma_nondecreasing_distinct(v);
        }
        return log;
    }
    let size = a.len();
    let mut b: Vec<i32> = Vec::new();
    proof {
        lemma_replays_refl((v, e), log@);
    }
    if size == 2 {
        if a[0] > a[1] {
            let ghost a1 = a@;
            sa(&mut a, &mut log);
            proof {
                lemma_replays_a_at(a1, Seq::<Op>::empty(), log@, a@, b@);
            }
        }
    } else if size == 3 {
        let ghost a1 = a@;
        sort_three(&mut a, &mut log);
        proof {
            lemma_replays_a_at(a1, Seq::<Op>::empty(), log@, a@, b@);
        }
    } else if size == 4 {
        sort_four(&mut a, &mut b, &mut log);
    } else if size == 5 {
        sort_five(&mut a, &mut b, &mut log);
    } else {
        radix_sort(&mut a, &mut b, &mut log);
    }
    proof {
        crate::machine::lemma_sorts_from_replays(v, log@, a@, b@);
    }
    log
}

} // verus!
