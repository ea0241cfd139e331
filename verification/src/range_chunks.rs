//! Sorting by value ranges: the front of a vector is the top of its stack.
//! Up to three values are sorted directly, four or five by pushing the
//! smallest to b; more are pushed to b range by range (the nearest value of
//! the range is rotated to the top the short way), then the largest value of
//! b comes back to a, again and again. Every operation is recorded as it is
//! done, effective or not.
use vstd::prelude::*;
use vstd::string::StringSliceAdditionalSpecFns;
use vstd::utf8::encode_utf8;
use crate::machine::{
    Op, a_moves_appended, ascending, ops_appended, range_op, lemma_replays_a_at, lemma_replays_a_push, lemma_replays_a_refl, lemma_replays_a_trans,
    lemma_replays_b_at, lemma_replays_b_push, lemma_replays_b_refl, lemma_replays_b_trans,
    lemma_replays_content, lemma_replays_push, lemma_replays_refl, lemma_replays_trans, lemma_rot_by_ends,
    lemma_rot_down_by, lemma_rot_up_by, on_a_only, replays, replays_a, replays_b, rot_by, rot_down, rot_up,
    step, swap_top,
};
use crate::ranking::{lemma_member_of, lemma_same_contents_no_dup, nondecreasing};
use crate::text::{all_read, arg_word_list, arg_words, word_values};
use crate::tokens::{
    all_digits, byte_code, digits_value, has_sign, is_digit_code, lemma_all_digits_take,
    lemma_digits_value_nonneg, lemma_digits_value_take, parse_i32_of, unsigned_part,
};

verus! {

/// How a word is read, on its bytes: an optional `+` or `-`, then one or
/// more decimal digits, with a value that fits in an `i32`.
pub open spec fn digits_read() -> spec_fn(Seq<char>) -> Option<i32> {
    |t: Seq<char>| parse_i32_of(encode_utf8(t), byte_code())
}

/// The number a word stands for, by [`digits_read`].
fn read_number(tok: &str) -> (r: Option<i32>)
    ensures
        r == digits_read()(tok@),
{
    let bytes = tok.as_bytes();
    let ghost t = bytes@;
    let ghost code = byte_code();
    proof {
        assert(t == encode_utf8(tok@));
    }
    if bytes.len() == 0 {
        return None;
    }
    let negative = bytes[0] == 45u8;
    let positive = bytes[0] == 43u8;
    let start: usize = if negative || positive {
        1
    } else {
        0
    };
    let ghost u = unsigned_part(t, code);
    proof {
        assert(u =~= t.skip(start as int));
    }
    if start >= bytes.len() {
        proof {
            assert(u.len() == 0);
            assert(!crate::tokens::is_int_token(t, code));
            assert(parse_i32_of(encode_utf8(tok@), byte_code()) is None);
        }
        return None;
    }
    let mut i = start;
    while i < bytes.len()
        invariant
            t == bytes@,
            t == encode_utf8(tok@),
            code == byte_code(),
            u == unsigned_part(t, code),
            negative <==> (has_sign(t, code) && code(t[0]) == 45),
            u == t.skip(start as int),
            u.len() == t.len() - start,
            start <= i <= t.len(),
            forall|k: int| 0 <= k < i - start ==> is_digit_code(code(#[trigger] u[k])),
        decreases t.len() - i,
    {
        if bytes[i] < 48u8 || bytes[i] > 57u8 {
            proof {
                assert(u[i - start] == t[i as int]);
                assert(!all_digits(u, code));
            }
            return None;
        }
        proof {
            assert(u[i - start] == t[i as int]);
        }
        i += 1;
    }
    let mut v: i64 = 0;
    let mut j = start;
    proof {
        assert(u.take(0) =~= Seq::<u8>::empty());
    }
    while j < bytes.len()
        invariant
            t == bytes@,
            t == encode_utf8(tok@),
            code == byte_code(),
            u == unsigned_part(t, code),
            negative <==> (has_sign(t, code) && code(t[0]) == 45),
            u == t.skip(start as int),
            u.len() == t.len() - start,
            all_digits(u, code),
            start <= j <= t.len(),
            v == digits_value(u.take(j - start), code),
            0 <= v <= 2147483648,
        decreases t.len() - j,
    {
        proof {
            assert(u[j - start] == t[j as int]);
            lemma_digits_value_take(u, code, j - start);
            crate::tokens::lemma_digits_value_prefix(u, code, j - start + 1);
        }
        v = v * 10 + (bytes[j] - 48u8) as i64;
        if v > 2147483648i64 {
            proof {
                assert(digits_value(u, code) > 2147483648);
            }
            return None;
        }
        j += 1;
    }
    proof {
        assert(u.take(u.len() as int) =~= u);
    }
    let val: i64 = if negative {
        -v
    } else {
        v
    };
    if val < -2147483648i64 || val > 2147483647i64 {
        return None;
    }
    Some(val as i32)
}

/// The arguments after the program's name.
pub open spec fn after_first(args: Seq<String>) -> Seq<String> {
    if args.len() == 0 {
        args
    } else {
        args.drop_first()
    }
}

/// Read the numbers of the arguments after the program's name: no argument
/// may be empty; every word, split at white space, must be read by
/// [`digits_read`]; no number may come twice.
#[verifier::rlimit(40)]
pub fn parse_args(args: Vec<String>) -> (r: Result<Vec<i32>, ()>)
    ensures
        r is Ok <==> ((forall|i: int| 0 <= i < after_first(args@).len() ==> (#[trigger] after_first(args@)[i])@.len() > 0)
            && all_read(arg_words(after_first(args@)), digits_read()) && word_values(
            arg_words(after_first(args@)),
            digits_read(),
        ).no_duplicates()),
        r is Ok ==> r->Ok_0@ == word_values(arg_words(after_first(args@)), digits_read()),
        crate::text::has_stray_char(after_first(args@)) ==> r is Err,
{
    proof {
        if crate::text::has_stray_char(after_first(args@)) {
            crate::text::lemma_has_stray_char(after_first(args@));
            let aw = arg_words(after_first(args@));
            let k = choose|k: int|
                0 <= k < aw.len() && !crate::tokens::is_int_token(#[trigger] aw[k], crate::tokens::char_code())
                    && !crate::tokens::is_int_token(encode_utf8(aw[k]), byte_code());
            assert(digits_read()(aw[k]) is None);
        }
    }
    let rest: &[String] = if args.len() > 0 {
        vstd::slice::slice_subrange(args.as_slice(), 1, args.len())
    } else {
        args.as_slice()
    };
    proof {
        assert(rest@ =~= after_first(args@));
    }
    let mut i: usize = 0;
    while i < rest.len()
        invariant
            i <= rest@.len(),
            rest@ == after_first(args@),
            forall|k: int| 0 <= k < i ==> (#[trigger] rest@[k])@.len() > 0,
        decreases rest@.len() - i,
    {
        if rest[i].as_str().is_empty() {
            return Err(());
        }
        i += 1;
    }
    let tokens = arg_word_list(rest);
    let ghost aw = arg_words(rest@);
    let ghost rd = digits_read();
    let mut nums: Vec<i32> = Vec::new();
    let mut j: usize = 0;
    proof {
        assert(aw.take(0) =~= Seq::<Seq<char>>::empty());
        assert(word_values(aw.take(0), rd) =~= Seq::<i32>::empty());
    }
    while j < tokens.len()
        invariant
            tokens@.len() == aw.len(),
            forall|k: int| 0 <= k < tokens@.len() ==> (#[trigger] tokens@[k])@ == aw[k],
            rd == digits_read(),
            aw == arg_words(rest@),
            rest@ == after_first(args@),
            forall|k: int| 0 <= k < rest@.len() ==> (#[trigger] rest@[k])@.len() > 0,
            j <= tokens@.len(),
            all_read(aw.take(j as int), rd),
            nums@ == word_values(aw.take(j as int), rd),
            nums@.no_duplicates(),
        decreases tokens@.len() - j,
    {
        let n = match read_number(tokens[j]) {
            Some(v) => v,
            None => {
                proof {
                    assert(rd(aw[j as int]) is None);
                }
                return Err(());
            },
        };
        proof {
            assert(rd(aw[j as int]) == Some(n));
        }
        let mut k: usize = 0;
        let mut dup = false;
        while k < nums.len()
            invariant_except_break
                !dup,
            invariant
                k <= nums@.len(),
                forall|q: int| 0 <= q < k ==> #[trigger] nums@[q] != n,
            ensures
                dup ==> k < nums@.len() && nums@[k as int] == n,
                !dup ==> forall|q: int| 0 <= q < nums@.len() ==> #[trigger] nums@[q] != n,
            decreases nums@.len() - k,
        {
            if nums[k] == n {
                dup = true;
                break;
            }
            k += 1;
        }
        if dup {
            proof {
                crate::text::lemma_read_twice(aw, rd, j as int, k as int, n);
            }
            return Err(());
        }
        nums.push(n);
        proof {
            assert(aw.take(j + 1) =~= aw.take(j as int).push(aw[j as int]));
            assert(nums@ =~= word_values(aw.take(j + 1), rd));
            assert forall|q: int| 0 <= q < aw.take(j + 1).len() implies #[trigger] rd(aw.take(j + 1)[q]) is Some by {
                if q < j {
                    assert(aw.take(j + 1)[q] == aw.take(j as int)[q]);
                }
            }
        }
        j += 1;
    }
    proof {
        assert(aw.take(aw.len() as int) =~= aw);
    }
    Ok(nums)
}

/// Whether each element is at most the next one.
pub fn is_sorted(a: &[i32]) -> (r: bool)
    ensures
        r == nondecreasing(a@),
{
    let mut i: usize = 0;
    while i + 1 < a.len()
        invariant
            i == 0 || i < a@.len(),
            i < usize::MAX,
            forall|p: int, q: int| 0 <= p < q <= i && q < a@.len() ==> a@[p] <= a@[q],
        decreases a@.len() - i,
    {
        if a[i] > a[i + 1] {
            return false;
        }
        i += 1;
    }
    true
}

/// The index of the first smallest element (0 when there is none).
pub fn find_min_idx(a: &[i32]) -> (r: usize)
    ensures
        a@.len() == 0 ==> r == 0,
        a@.len() > 0 ==> r < a@.len(),
        forall|k: int| 0 <= k < a@.len() ==> a@[r as int] <= a@[k],
        forall|k: int| 0 <= k < r ==> a@[k] > a@[r as int],
{
    let mut mi: usize = 0;
    let mut i: usize = 1;
    while i < a.len()
        invariant
            a@.len() > 0 ==> mi < i <= a@.len(),
            a@.len() == 0 ==> mi == 0,
            forall|k: int| 0 <= k < i && k < a@.len() ==> a@[mi as int] <= a@[k],
            forall|k: int| 0 <= k < mi ==> a@[k] > a@[mi as int],
        decreases a@.len() - i,
    {
        if a[i] < a[mi] {
            mi = i;
        }
        i += 1;
    }
    mi
}

/// The index of the first largest element (0 when there is none).
pub fn find_max_idx(a: &[i32]) -> (r: usize)
    ensures
        a@.len() == 0 ==> r == 0,
        a@.len() > 0 ==> r < a@.len(),
        forall|k: int| 0 <= k < a@.len() ==> a@[r as int] >= a@[k],
        forall|k: int| 0 <= k < r ==> a@[k] < a@[r as int],
{
    let mut mi: usize = 0;
    let mut i: usize = 1;
    while i < a.len()
        invariant
            a@.len() > 0 ==> mi < i <= a@.len(),
            a@.len() == 0 ==> mi == 0,
            forall|k: int| 0 <= k < i && k < a@.len() ==> a@[mi as int] >= a@[k],
            forall|k: int| 0 <= k < mi ==> a@[k] < a@[mi as int],
        decreases a@.len() - i,
    {
        if a[i] > a[mi] {
            mi = i;
        }
        i += 1;
    }
    mi
}

/// Rotate up: the front element goes to the back (below two, nothing moves).
pub fn rotate_up(v: &mut Vec<i32>)
    ensures
        final(v)@ == rot_up(old(v)@),
{
    if v.len() < 2 {
        return;
    }
    let first = v.remove(0);
    v.push(first);
    proof {
        assert(v@ =~= rot_up(old(v)@));
    }
}

/// Rotate down: the back element comes to the front (below two, nothing
/// moves).
pub fn rotate_down(v: &mut Vec<i32>)
    ensures
        final(v)@ == rot_down(old(v)@),
{
    if v.len() < 2 {
        return;
    }
    let last = v.pop();
    if let Some(x) = last {
        v.insert(0, x);
    }
    proof {
        assert(v@ =~= rot_down(old(v)@));
    }
}

/// `x` lies in `[lo, hi]`.
pub open spec fn in_range(x: i32, lo: i32, hi: i32) -> bool {
    lo <= x <= hi
}

/// Whether no element lies in `[lo, hi]`.
pub fn all_outside(a: &[i32], lo: i32, hi: i32) -> (r: bool)
    ensures
        r == (forall|k: int| 0 <= k < a@.len() ==> !in_range(#[trigger] a@[k], lo, hi)),
{
    let mut i: usize = 0;
    while i < a.len()
        invariant
            i <= a@.len(),
            forall|k: int| 0 <= k < i ==> !in_range(#[trigger] a@[k], lo, hi),
        decreases a@.len() - i,
    {
        if a[i] >= lo && a[i] <= hi {
            assert(in_range(a@[i as int], lo, hi));
            return false;
        }
        i += 1;
    }
    true
}

/// The cost of bringing index `i` of `n` to the top: `i` rotations up, or
/// `n - i` down when that is fewer.
pub open spec fn near_cost(n: int, i: int) -> int {
    if i <= n - i {
        i
    } else {
        n - i
    }
}

/// The nearest element in `[lo, hi]`: the cost of bringing it to the top and
/// whether that is done by rotating up. Of two at the same cost the first
/// wins. `None` when no element lies in the range.
pub fn find_nearest_chunk(a: &[i32], lo: i32, hi: i32) -> (r: Option<(usize, bool)>)
    ensures
        r is None <==> (forall|k: int| 0 <= k < a@.len() ==> !in_range(#[trigger] a@[k], lo, hi)),
        r matches Some((cost, is_top)) ==> exists|i: int|
            0 <= i < a@.len() && in_range(#[trigger] a@[i], lo, hi) && cost == near_cost(a@.len() as int, i)
                && is_top == (i <= a@.len() - i) && (forall|k: int|
                0 <= k < a@.len() && in_range(#[trigger] a@[k], lo, hi) ==> near_cost(a@.len() as int, k)
                >= cost) && (forall|k: int|
                0 <= k < i && in_range(#[trigger] a@[k], lo, hi) ==> near_cost(a@.len() as int, k) > cost),
{
    let mut best_cost: usize = 0;
    let mut best_is_top = true;
    let mut found = false;
    let ghost mut best_i: int = 0;
    let mut i: usize = 0;
    while i < a.len()
        invariant
            i <= a@.len(),
            found ==> 0 <= best_i < i,
            found ==> in_range(a@[best_i], lo, hi),
            found ==> best_cost == near_cost(a@.len() as int, best_i),
            found ==> best_is_top == (best_i <= a@.len() - best_i),
            found ==> forall|k: int|
                0 <= k < i && in_range(#[trigger] a@[k], lo, hi) ==> near_cost(a@.len() as int, k) >= best_cost,
            found ==> forall|k: int|
                0 <= k < best_i && in_range(#[trigger] a@[k], lo, hi) ==> near_cost(a@.len() as int, k) > best_cost,
            !found ==> forall|k: int| 0 <= k < i ==> !in_range(#[trigger] a@[k], lo, hi),
        decreases a@.len() - i,
    {
        if a[i] >= lo && a[i] <= hi {
            let cost_top = i;
            let cost_bot = a.len() - i;
            let (cost, is_top) = if cost_top <= cost_bot {
                (cost_top, true)
            } else {
                (cost_bot, false)
            };
            if !found || cost < best_cost {
                best_cost = cost;
                best_is_top = is_top;
                found = true;
                proof {
                    best_i = i as int;
                }
            }
        }
        i += 1;
    }
    if found {
        proof {
            assert(in_range(a@[best_i], lo, hi));
        }
        Some((best_cost, best_is_top))
    } else {
        None
    }
}

/// `sa`, `ra` or `rra`: recorded, then done on a.
fn act_a(a: &mut Vec<i32>, log: &mut Vec<Op>, op: Op)
    requires
        on_a_only(op),
        op == Op::Sa ==> old(a)@.len() >= 2,
    ensures
        final(a)@ == step((old(a)@, Seq::empty()), op).0,
        final(log)@ == old(log)@.push(op),
        replays_a(old(a)@, old(log)@, final(log)@, final(a)@),
{
    let ghost a0 = a@;
    proof {
        lemma_replays_a_refl(a0, log@);
        lemma_replays_a_push(a0, log@, log@, a0, op);
    }
    log.push(op);
    match op {
        Op::Sa => {
            let x = a[0];
            let y = a[1];
            a.set(0, y);
            a.set(1, x);
            proof {
                assert(a@ =~= swap_top(a0));
            }
        },
        Op::Ra => {
            rotate_up(a);
        },
        _ => {
            rotate_down(a);
        },
    }
}

/// `rb` or `rrb`: recorded, then done on b.
fn act_b(b: &mut Vec<i32>, log: &mut Vec<Op>, op: Op)
    requires
        op == Op::Rb || op == Op::Rrb,
    ensures
        final(b)@ == step((Seq::empty(), old(b)@), op).1,
        final(log)@ == old(log)@.push(op),
        replays_b(old(b)@, old(log)@, final(log)@, final(b)@),
{
    let ghost b0 = b@;
    proof {
        lemma_replays_b_refl(b0, log@);
        lemma_replays_b_push(b0, log@, log@, b0, op);
    }
    log.push(op);
    if op == Op::Rb {
        rotate_up(b);
    } else {
        rotate_down(b);
    }
}

/// `pb`, recorded: the top of a goes on top of b.
fn move_to_b(a: &mut Vec<i32>, b: &mut Vec<i32>, log: &mut Vec<Op>)
    requires
        old(a)@.len() > 0,
    ensures
        final(a)@ == old(a)@.drop_first(),
        final(b)@ == seq![old(a)@[0]] + old(b)@,
        replays((old(a)@, old(b)@), old(log)@, final(log)@, (final(a)@, final(b)@)),
        final(log)@ == old(log)@.push(Op::Pb),
{
    let ghost st = (a@, b@);
    proof {
        lemma_replays_refl(st, log@);
        lemma_replays_push(st, log@, log@, st, Op::Pb);
    }
    log.push(Op::Pb);
    let v = a.remove(0);
    b.insert(0, v);
    proof {
        assert(a@ =~= st.0.drop_first());
        assert(b@ =~= seq![st.0[0]] + st.1);
    }
}

/// `pa`, recorded: the top of b goes on top of a.
fn move_to_a(a: &mut Vec<i32>, b: &mut Vec<i32>, log: &mut Vec<Op>)
    requires
        old(b)@.len() > 0,
    ensures
        final(b)@ == old(b)@.drop_first(),
        final(a)@ == seq![old(b)@[0]] + old(a)@,
        replays((old(a)@, old(b)@), old(log)@, final(log)@, (final(a)@, final(b)@)),
        final(log)@ == old(log)@.push(Op::Pa),
{
    let ghost st = (a@, b@);
    proof {
        lemma_replays_refl(st, log@);
        lemma_replays_push(st, log@, log@, st, Op::Pa);
    }
    log.push(Op::Pa);
    let v = b.remove(0);
    a.insert(0, v);
    proof {
        assert(b@ =~= st.1.drop_first());
        assert(a@ =~= seq![st.1[0]] + st.0);
    }
}

/// Sort up to three distinct elements: nothing is done when they are in
/// order; two are swapped; of three, the largest goes to the bottom and the
/// top two are swapped if they are out of order.
pub fn sort_three(a: &mut Vec<i32>, log: &mut Vec<Op>)
    ensures
        replays_a(old(a)@, old(log)@, final(log)@, final(a)@),
        old(a)@.len() <= 1 || nondecreasing(old(a)@) ==> final(a)@ == old(a)@ && final(log)@ == old(log)@,
        old(a)@.len() <= 3 && old(a)@.no_duplicates() ==> ascending(final(a)@),
        final(log)@.len() <= old(log)@.len() + 2,
        a_moves_appended(old(log)@, final(log)@),
{
    let ghost a0 = a@;
    let ghost l0 = log@;
    proof {
        lemma_replays_a_refl(a0, l0);
        crate::machine::lemma_a_moves_refl(l0);
    }
    if a.len() <= 1 || is_sorted(a.as_slice()) {
        return;
    }
    if a.len() == 2 {
        let ghost lb = log@;
        act_a(a, log, Op::Sa);
        proof {
            crate::machine::lemma_a_moves_push(l0, lb, Op::Sa);
        }
        proof {
            assert(a0[0] > a0[1]);
        }
        return;
    }
    let mx: usize = if a[0] > a[1] && a[0] > a[2] {
        0
    } else if a[1] > a[0] && a[1] > a[2] {
        1
    } else {
        2
    };
    let ghost l1 = log@;
    if mx == 0 {
        let ghost lb = log@;
        act_a(a, log, Op::Ra);
        proof {
            crate::machine::lemma_a_moves_push(l0, lb, Op::Ra);
        }
    } else if mx == 1 {
        let ghost lb = log@;
        act_a(a, log, Op::Rra);
        proof {
            crate::machine::lemma_a_moves_push(l0, lb, Op::Rra);
        }
    }
    let ghost a1 = a@;
    proof {
        if mx == 2 {
            lemma_replays_a_refl(a0, l0);
        }
        if a0.len() == 3 {
            if mx == 0 {
                assert(a1 =~= seq![a0[1], a0[2], a0[0]]);
            } else if mx == 1 {
                assert(a1 =~= seq![a0[2], a0[0], a0[1]]);
            }
        }
    }
    let ghost l2 = log@;
    if a[0] > a[1] {
        let ghost lb = log@;
        act_a(a, log, Op::Sa);
        proof {
            crate::machine::lemma_a_moves_push(l0, lb, Op::Sa);
        }
        proof {
            lemma_replays_a_trans(a0, l0, l2, a1, log@, a@);
        }
    }
    proof {
        if a0.len() == 3 && a0.no_duplicates() {
            assert(a0[0] != a0[1] && a0[1] != a0[2] && a0[0] != a0[2]);
            if a1[0] > a1[1] {
                assert(a@ =~= seq![a1[1], a1[0], a1[2]]);
            } else {
                assert(a@ =~= a1);
            }
        }
    }
}

/// Values of b above values of a: every element of `b` is below every
/// element of `a`.
pub open spec fn below_all(b: Seq<i32>, a: Seq<i32>) -> bool {
    forall|i: int, j: int| 0 <= i < b.len() && 0 <= j < a.len() ==> b[i] < a[j]
}

/// Strictly descending from the top down.
pub open spec fn descending(s: Seq<i32>) -> bool {
    forall|i: int, j: int| 0 <= i < j < s.len() ==> s[i] > s[j]
}

/// An element of `s` rotated by `k`: the one `k` places further on, round
/// the end.
proof fn lemma_rot_by_at(s: Seq<i32>, k: int, p: int)
    requires
        0 <= k <= s.len(),
        0 <= p < s.len(),
    ensures
        rot_by(s, k).len() == s.len(),
        rot_by(s, k)[p] == if p < s.len() - k {
            s[p + k]
        } else {
            s[p - (s.len() - k)]
        },
{
}

/// Bring index `mi` of a to the top the short way round: `mi` rotations up
/// when `mi` is at most half the length, else rotations down.
fn bring_to_top(a: &mut Vec<i32>, mi: usize, log: &mut Vec<Op>)
    requires
        mi < old(a)@.len(),
    ensures
        final(a)@ == rot_by(old(a)@, mi as int),
        replays_a(old(a)@, old(log)@, final(log)@, final(a)@),
        final(log)@.len() <= old(log)@.len() + old(a)@.len() / 2,
        ops_appended(old(log)@, final(log)@, range_op()),
{
    let ghost a1 = a@;
    let ghost l1 = log@;
    proof {
        crate::machine::lemma_ops_appended_refl(l1, range_op());
    }
    proof {
        lemma_replays_a_refl(a1, l1);
        lemma_rot_by_ends(a1);
    }
    if mi == 0 {
        return;
    } else if mi <= a.len() / 2 {
        let mut cnt: usize = 0;
        while cnt < mi
            invariant
                ops_appended(l1, log@, range_op()),
                cnt <= mi,
                mi < a1.len(),
                a@ == rot_by(a1, cnt as int),
                replays_a(a1, l1, log@, a@),
                mi <= a1.len() / 2,
                log@.len() == l1.len() + cnt,
            decreases mi - cnt,
        {
            proof {
                lemma_rot_up_by(a1, cnt as int);
            }
            let ghost a2 = a@;
            let ghost l2 = log@;
            act_a(a, log, Op::Ra);
            proof {
                crate::machine::lemma_ops_appended_step(l1, l2, log@, Op::Ra, range_op());
            }
            proof {
                lemma_replays_a_trans(a1, l1, l2, a2, log@, a@);
            }
            cnt += 1;
        }
    } else {
        let target = a.len() - mi;
        let mut cnt: usize = 0;
        while cnt < target
            invariant
                ops_appended(l1, log@, range_op()),
                cnt <= target,
                target == a1.len() - mi,
                mi < a1.len(),
                a@ == rot_by(a1, a1.len() - cnt),
                replays_a(a1, l1, log@, a@),
                a1.len() / 2 < mi,
                log@.len() == l1.len() + cnt,
            decreases target - cnt,
        {
            proof {
                lemma_rot_down_by(a1, a1.len() - cnt);
            }
            let ghost a2 = a@;
            let ghost l2 = log@;
            act_a(a, log, Op::Rra);
            proof {
                crate::machine::lemma_ops_appended_step(l1, l2, log@, Op::Rra, range_op());
            }
            proof {
                lemma_replays_a_trans(a1, l1, l2, a2, log@, a@);
            }
            cnt += 1;
        }
    }
}

/// Sort four or five elements: the smallest of a is brought to the top the
/// short way round and pushed to b until three are left, those are sorted,
/// and b is pushed back.
pub fn sort_five(a: &mut Vec<i32>, b: &mut Vec<i32>, log: &mut Vec<Op>)
    ensures
        final(b)@.len() == 0,
        replays((old(a)@, old(b)@), old(log)@, final(log)@, (final(a)@, final(b)@)),
        old(b)@.len() == 0 && old(a)@.no_duplicates() ==> ascending(final(a)@),
        old(b)@.len() == 0 && old(a)@.len() <= 5 ==> final(log)@.len() <= old(log)@.len() + 12,
        ops_appended(old(log)@, final(log)@, range_op()),
{
    let ghost st0 = (a@, b@);
    let ghost l0 = log@;
    proof {
        crate::machine::lemma_ops_appended_refl(l0, range_op());
    }
    let ghost good = b@.len() == 0 && a@.no_duplicates();
    proof {
        lemma_replays_refl(st0, l0);
    }
    while a.len() > 3
        invariant
            ops_appended(l0, log@, range_op()),
            replays(st0, l0, log@, (a@, b@)),
            good == (st0.1.len() == 0 && st0.0.no_duplicates()),
            good ==> descending(b@) && below_all(b@, a@),
            a@.len() + b@.len() == st0.0.len() + st0.1.len(),
            a@.len() >= 3 || a@.len() == st0.0.len(),
            st0.1.len() == 0 && st0.0.len() <= 5 ==> log@.len() + 3 * a@.len() <= l0.len() + 3 * st0.0.len(),
        decreases a@.len(),
    {
        let mi = find_min_idx(a.as_slice());
        let ghost a1 = a@;
        let ghost l1 = log@;
        bring_to_top(a, mi, log);
        proof {
            crate::machine::lemma_ops_appended_trans(l0, l1, log@, range_op());
        }
        proof {
            lemma_replays_a_at(a1, l1, log@, a@, b@);
            lemma_replays_trans(st0, l0, l1, (a1, b@), log@, (a@, b@));
            lemma_rot_by_at(a1, mi as int, 0);
        }
        let ghost a2 = a@;
        let ghost b2 = b@;
        let ghost l2 = log@;
        move_to_b(a, b, log);
        proof {
            crate::machine::lemma_ops_appended_step(l0, l2, log@, Op::Pb, range_op());
        }
        proof {
            lemma_replays_trans(st0, l0, l2, (a2, b2), log@, (a@, b@));
            if good {
                lemma_replays_content(st0, l0, l2, (a2, b2));
                assert(st0.0 + st0.1 =~= st0.0);
                lemma_same_contents_no_dup(a2 + b2, st0.0);
                assert forall|p: int| 0 <= p < a@.len() implies exists|q: int| 0 <= q < a1.len() && q != mi && a1[q] == #[trigger] a@[p] by {
                    lemma_rot_by_at(a1, mi as int, p + 1);
                    assert(a@[p] == a2[p + 1]);
                    if p + 1 < a1.len() - mi {
                        assert(a1[p + 1 + mi] == a@[p]);
                    } else {
                        assert(a1[p + 1 - (a1.len() - mi)] == a@[p]);
                    }
                }
                assert forall|i: int, j: int| 0 <= i < b@.len() && 0 <= j < a@.len() implies b@[i] < a@[j] by {
                    let q = choose|q: int| 0 <= q < a1.len() && q != mi && a1[q] == a@[j];
                    assert((a2 + b2)[0] == a1[mi as int]);
                    assert(a1[mi as int] <= a1[q]);
                    if i == 0 {
                        assert(b@[0] == a2[0]);
                        assert(a@[j] == a2[j + 1]);
                        assert((a2 + b2)[0] == a2[0]);
                        assert((a2 + b2)[j + 1] == a2[j + 1]);
                    } else {
                        assert(b@[i] == b2[i - 1]);
                        assert(b2[i - 1] < a1[q]);
                    }
                }
                assert forall|i: int, j: int| 0 <= i < j < b@.len() implies b@[i] > b@[j] by {
                    if i == 0 {
                        assert(b@[j] == b2[j - 1]);
                        assert(b2[j - 1] < a2[0]);
                    } else {
                        assert(b@[i] == b2[i - 1]);
                        assert(b@[j] == b2[j - 1]);
                    }
                }
            }
        }
    }
    let ghost a3 = a@;
    let ghost l3 = log@;
    proof {
        if good {
            lemma_replays_content(st0, l0, l3, (a3, b@));
            assert(st0.0 + st0.1 =~= st0.0);
            lemma_same_contents_no_dup(a3 + b@, st0.0);
            assert forall|i: int, j: int| 0 <= i < j < a3.len() implies a3[i] != a3[j] by {
                assert((a3 + b@)[i] == a3[i]);
                assert((a3 + b@)[j] == a3[j]);
            }
        }
    }
    sort_three(a, log);
    proof {
        crate::machine::lemma_a_moves_range(l3, log@);
        crate::machine::lemma_ops_appended_trans(l0, l3, log@, range_op());
    }
    proof {
        lemma_replays_a_at(a3, l3, log@, a@, b@);
        lemma_replays_trans(st0, l0, l3, (a3, b@), log@, (a@, b@));
        if good {
            crate::machine::lemma_replays_a_content(a3, l3, log@, a@);
            assert forall|i: int, j: int| 0 <= i < b@.len() && 0 <= j < a@.len() implies b@[i] < a@[j] by {
                lemma_member_of(a@, a3, j);
            }
        }
    }
    while !b.is_empty()
        invariant
            ops_appended(l0, log@, range_op()),
            replays(st0, l0, log@, (a@, b@)),
            good == (st0.1.len() == 0 && st0.0.no_duplicates()),
            good ==> descending(b@) && below_all(b@, a@) && ascending(a@),
            st0.1.len() == 0 && st0.0.len() <= 5 ==> log@.len() + b@.len() <= l0.len() + 12,
        decreases b@.len(),
    {
        let ghost a4 = a@;
        let ghost b4 = b@;
        let ghost l4 = log@;
        move_to_a(a, b, log);
        proof {
            crate::machine::lemma_ops_appended_step(l0, l4, log@, Op::Pa, range_op());
        }
        proof {
            lemma_replays_trans(st0, l0, l4, (a4, b4), log@, (a@, b@));
            if good {
                assert forall|i: int, j: int| 0 <= i < j < a@.len() implies a@[i] < a@[j] by {
                    if i > 0 {
                        assert(a@[i] == a4[i - 1]);
                    }
                    assert(a@[j] == a4[j - 1]);
                }
                assert forall|i: int, j: int| 0 <= i < b@.len() && 0 <= j < a@.len() implies b@[i] < a@[j] by {
                    assert(b@[i] == b4[i + 1]);
                    if j > 0 {
                        assert(a@[j] == a4[j - 1]);
                    }
                }
                assert forall|i: int, j: int| 0 <= i < j < b@.len() implies b@[i] > b@[j] by {
                    assert(b@[i] == b4[i + 1]);
                    assert(b@[j] == b4[j + 1]);
                }
            }
        }
    }
}

/// How many value ranges `n` values are cut into: 5 up to twenty values,
/// else 30.
pub fn chunk_count(n: usize) -> (k: usize)
    ensures
        k == if n <= 20 { 5usize } else { 30usize },
{
    if n <= 20 {
        5
    } else {
        30
    }
}

/// The smallest and the largest element.
pub fn value_range(a: &[i32]) -> (r: (i32, i32))
    requires
        a@.len() > 0,
    ensures
        a@.contains(r.0),
        a@.contains(r.1),
        forall|k: int| 0 <= k < a@.len() ==> r.0 <= #[trigger] a@[k] <= r.1,
{
    let mut mn = a[0];
    let mut mx = a[0];
    let mut i: usize = 1;
    while i < a.len()
        invariant
            1 <= i <= a@.len(),
            a@.contains(mn),
            a@.contains(mx),
            forall|k: int| 0 <= k < i ==> mn <= #[trigger] a@[k] <= mx,
        decreases a@.len() - i,
    {
        if a[i] < mn {
            mn = a[i];
        }
        if a[i] > mx {
            mx = a[i];
        }
        i += 1;
    }
    (mn, mx)
}

/// `x` lies in none of the first `c` ranges.
pub open spec fn outside_first(x: i32, bounds: Seq<(i32, i32)>, c: int) -> bool {
    forall|d: int| 0 <= d < c ==> !in_range(x, #[trigger] bounds[d].0, bounds[d].1)
}

/// `x` lies in one of the ranges.
pub open spec fn covered(x: i32, bounds: Seq<(i32, i32)>) -> bool {
    exists|d: int| 0 <= d < bounds.len() && in_range(x, #[trigger] bounds[d].0, bounds[d].1)
}

/// Every value but the largest lies in one of the ranges.
pub open spec fn covers_all_but_largest(s: Seq<i32>, bounds: Seq<(i32, i32)>) -> bool {
    forall|i: int, j: int| 0 <= i < s.len() && 0 <= j < s.len() && s[i] < s[j] ==> covered(s[i], bounds)
}

/// Push every element of a that lies in `[lo, hi]` to b: while one is left,
/// the top is pushed if it lies in the range, else the nearest one is
/// rotated to the top the short way round.
fn push_range(a: &mut Vec<i32>, b: &mut Vec<i32>, lo: i32, hi: i32, log: &mut Vec<Op>)
    ensures
        replays((old(a)@, old(b)@), old(log)@, final(log)@, (final(a)@, final(b)@)),
        forall|k: int| 0 <= k < final(a)@.len() ==> !in_range(#[trigger] final(a)@[k], lo, hi),
        forall|k: int| 0 <= k < final(a)@.len() ==> #[trigger] old(a)@.contains(final(a)@[k]),
        ops_appended(old(log)@, final(log)@, range_op()),
{
    let ghost st0 = (a@, b@);
    let ghost l0 = log@;
    proof {
        crate::machine::lemma_ops_appended_refl(l0, range_op());
    }
    proof {
        lemma_replays_refl(st0, l0);
    }
    loop
        invariant
            ops_appended(l0, log@, range_op()),
            replays(st0, l0, log@, (a@, b@)),
            forall|k: int| 0 <= k < a@.len() ==> #[trigger] st0.0.contains(a@[k]),
        ensures
            ops_appended(l0, log@, range_op()),
            replays(st0, l0, log@, (a@, b@)),
            forall|k: int| 0 <= k < a@.len() ==> #[trigger] st0.0.contains(a@[k]),
            forall|k: int| 0 <= k < a@.len() ==> !in_range(#[trigger] a@[k], lo, hi),
        decreases a@.len() * 2 + if a@.len() > 0 && in_range(a@[0], lo, hi) {
            0int
        } else {
            1int
        },
    {
        if a.is_empty() {
            break;
        }
        if all_outside(a.as_slice(), lo, hi) {
            break;
        }
        let ghost a1 = a@;
        let ghost b1 = b@;
        let ghost l1 = log@;
        if a[0] >= lo && a[0] <= hi {
            move_to_b(a, b, log);
            proof {
                crate::machine::lemma_ops_appended_step(l0, l1, log@, Op::Pb, range_op());
            }
            proof {
                lemma_replays_trans(st0, l0, l1, (a1, b1), log@, (a@, b@));
                assert forall|k: int| 0 <= k < a@.len() implies #[trigger] st0.0.contains(a@[k]) by {
                    assert(a@[k] == a1[k + 1]);
                }
            }
        } else {
            match find_nearest_chunk(a.as_slice(), lo, hi) {
                None => {
                    break;
                },
                Some((cost, is_top)) => {
                    let ghost i = choose|i: int|
                        0 <= i < a1.len() && in_range(#[trigger] a1[i], lo, hi) && cost == near_cost(a1.len() as int, i)
                            && is_top == (i <= a1.len() - i) && (forall|k: int|
                            0 <= k < a1.len() && in_range(#[trigger] a1[k], lo, hi) ==> near_cost(a1.len() as int, k)
                            >= cost) && (forall|k: int|
                            0 <= k < i && in_range(#[trigger] a1[k], lo, hi) ==> near_cost(a1.len() as int, k) > cost);
                    proof {
                        lemma_replays_a_refl(a1, l1);
                        lemma_rot_by_ends(a1);
                    }
                    if is_top {
                        let mut cnt: usize = 0;
                        while cnt < cost
                            invariant
                                ops_appended(l0, log@, range_op()),
                                cnt <= cost,
                                cost == i,
                                0 <= i < a1.len(),
                                a@ == rot_by(a1, cnt as int),
                                replays_a(a1, l1, log@, a@),
                            decreases cost - cnt,
                        {
                            proof {
                                lemma_rot_up_by(a1, cnt as int);
                            }
                            let ghost a2 = a@;
                            let ghost l2 = log@;
                            act_a(a, log, Op::Ra);
                            proof {
                                crate::machine::lemma_ops_appended_step(l0, l2, log@, Op::Ra, range_op());
                            }
                            proof {
                                lemma_replays_a_trans(a1, l1, l2, a2, log@, a@);
                            }
                            cnt += 1;
                        }
                    } else {
                        let mut cnt: usize = 0;
                        while cnt < cost
                            invariant
                                ops_appended(l0, log@, range_op()),
                                cnt <= cost,
                                cost == a1.len() - i,
                                0 <= i < a1.len(),
                                a@ == rot_by(a1, a1.len() - cnt),
                                replays_a(a1, l1, log@, a@),
                            decreases cost - cnt,
                        {
                            proof {
                                lemma_rot_down_by(a1, a1.len() - cnt);
                            }
                            let ghost a2 = a@;
                            let ghost l2 = log@;
                            act_a(a, log, Op::Rra);
                            proof {
                                crate::machine::lemma_ops_appended_step(l0, l2, log@, Op::Rra, range_op());
                            }
                            proof {
                                lemma_replays_a_trans(a1, l1, l2, a2, log@, a@);
                            }
                            cnt += 1;
                        }
                    }
                    proof {
                        assert(a@ == rot_by(a1, i));
                        lemma_replays_a_at(a1, l1, log@, a@, b@);
                        lemma_replays_trans(st0, l0, l1, (a1, b1), log@, (a@, b@));
                        lemma_rot_by_at(a1, i, 0);
                        assert(in_range(a@[0], lo, hi));
                        assert forall|k: int| 0 <= k < a@.len() implies #[trigger] st0.0.contains(a@[k]) by {
                            lemma_rot_by_at(a1, i, k);
                            if k < a1.len() - i {
                                assert(st0.0.contains(a1[k + i]));
                            } else {
                                assert(st0.0.contains(a1[k - (a1.len() - i)]));
                            }
                        }
                    }
                },
            }
        }
    }
    proof {
        assert forall|k: int| 0 <= k < a@.len() implies #[trigger] old(a)@.contains(a@[k]) by {
            assert(st0.0.contains(a@[k]));
        }
    }
}

/// Bring index `r` of b to the top the short way round: `r` rotations up
/// when `r` is below `b.len() - r`, else `b.len() - r` rotations down.
fn bring_to_top_b(b: &mut Vec<i32>, r: usize, log: &mut Vec<Op>)
    requires
        0 < r < old(b)@.len(),
    ensures
        final(b)@ == rot_by(old(b)@, r as int),
        replays_b(old(b)@, old(log)@, final(log)@, final(b)@),
        ops_appended(old(log)@, final(log)@, range_op()),
{
    let ghost b1 = b@;
    let ghost l1 = log@;
    proof {
        crate::machine::lemma_ops_appended_refl(l1, range_op());
    }
    proof {
        lemma_replays_b_refl(b1, l1);
        lemma_rot_by_ends(b1);
    }
    let rev = b.len() - r;
    if r < rev {
        let mut cnt: usize = 0;
        while cnt < r
            invariant
                ops_appended(l1, log@, range_op()),
                cnt <= r,
                r < b1.len(),
                b@ == rot_by(b1, cnt as int),
                replays_b(b1, l1, log@, b@),
            decreases r - cnt,
        {
            proof {
                lemma_rot_up_by(b1, cnt as int);
            }
            let ghost b2 = b@;
            let ghost l2 = log@;
            act_b(b, log, Op::Rb);
            proof {
                crate::machine::lemma_ops_appended_step(l1, l2, log@, Op::Rb, range_op());
            }
            proof {
                lemma_replays_b_trans(b1, l1, l2, b2, log@, b@);
            }
            cnt += 1;
        }
    } else {
        let mut cnt: usize = 0;
        while cnt < rev
            invariant
                ops_appended(l1, log@, range_op()),
                cnt <= rev,
                rev == b1.len() - r,
                r < b1.len(),
                b@ == rot_by(b1, b1.len() - cnt),
                replays_b(b1, l1, log@, b@),
            decreases rev - cnt,
        {
            proof {
                lemma_rot_down_by(b1, b1.len() - cnt);
            }
            let ghost b2 = b@;
            let ghost l2 = log@;
            act_b(b, log, Op::Rrb);
            proof {
                crate::machine::lemma_ops_appended_step(l1, l2, log@, Op::Rrb, range_op());
            }
            proof {
                lemma_replays_b_trans(b1, l1, l2, b2, log@, b@);
            }
            cnt += 1;
        }
    }
}

/// Sort a (its front on top) with an empty b, recording every operation:
/// nothing is done for at most one element or elements in order; up to
/// three are sorted by [`sort_three`], four or five by [`sort_five`]; more
/// are pushed to b range by range, `bounds` giving each range as `(lo, hi)`,
/// then the largest element of b is brought to its top the short way round
/// and pushed back, again and again. The elements end sorted when they are
/// distinct and, for more than five, every one but the largest lies in a
/// range.
pub fn push_swap(a: &mut Vec<i32>, bounds: &Vec<(i32, i32)>, log: &mut Vec<Op>)
    ensures
        replays((old(a)@, Seq::empty()), old(log)@, final(log)@, (final(a)@, Seq::empty())),
        old(a)@.len() <= 1 || nondecreasing(old(a)@) ==> final(a)@ == old(a)@ && final(log)@ == old(log)@,
        old(a)@.no_duplicates() && (old(a)@.len() <= 5 || covers_all_but_largest(old(a)@, bounds@))
            ==> ascending(final(a)@),
        ops_appended(old(log)@, final(log)@, range_op()),
{
    let ghost a0 = a@;
    let ghost l0 = log@;
    proof {
        crate::machine::lemma_ops_appended_refl(l0, range_op());
    }
    let ghost e = Seq::<i32>::empty();
    let ghost st0 = (a0, e);
    proof {
        lemma_replays_refl(st0, l0);
    }
    let n = a.len();
    if n <= 1 || is_sorted(a.as_slice()) {
        return;
    }
    if n <= 3 {
        sort_three(a, log);
        proof {
            crate::machine::lemma_a_moves_range(l0, log@);
        }
        proof {
            lemma_replays_a_at(a0, l0, log@, a@, e);
        }
        return;
    }
    let mut b: Vec<i32> = Vec::new();
    if n <= 5 {
        sort_five(a, &mut b, log);
        proof {
            assert(b@ =~= e);
        }
        return;
    }
    let ghost good = a0.no_duplicates() && covers_all_but_largest(a0, bounds@);
    let mut c: usize = 0;
    while c < bounds.len()
        invariant
            ops_appended(l0, log@, range_op()),
            replays(st0, l0, log@, (a@, b@)),
            st0 == (a0, e),
            e == Seq::<i32>::empty(),
            c <= bounds@.len(),
            forall|k: int| 0 <= k < a@.len() ==> outside_first(#[trigger] a@[k], bounds@, c as int),
            forall|k: int| 0 <= k < a@.len() ==> #[trigger] a0.contains(a@[k]),
        decreases bounds@.len() - c,
    {
        let lo = bounds[c].0;
        let hi = bounds[c].1;
        let ghost a1 = a@;
        let ghost b1 = b@;
        let ghost l1 = log@;
        push_range(a, &mut b, lo, hi, log);
        proof {
            crate::machine::lemma_ops_appended_trans(l0, l1, log@, range_op());
        }
        proof {
            lemma_replays_trans(st0, l0, l1, (a1, b1), log@, (a@, b@));
            assert forall|k: int| 0 <= k < a@.len() implies outside_first(#[trigger] a@[k], bounds@, c + 1) by {
                assert(a1.contains(a@[k]));
                let q = choose|q: int| 0 <= q < a1.len() && a1[q] == a@[k];
                assert(outside_first(a1[q], bounds@, c as int));
                assert(!in_range(a@[k], lo, hi));
            }
            assert forall|k: int| 0 <= k < a@.len() implies #[trigger] a0.contains(a@[k]) by {
                assert(a1.contains(a@[k]));
                let q = choose|q: int| 0 <= q < a1.len() && a1[q] == a@[k];
                assert(a0.contains(a1[q]));
            }
        }
        c += 1;
    }
    proof {
        if good {
            lemma_replays_content(st0, l0, log@, (a@, b@));
            assert(a0 + e =~= a0);
            lemma_same_contents_no_dup(a@ + b@, a0);
            assert forall|k: int, j: int| 0 <= k < a@.len() && 0 <= j < a0.len() implies #[trigger] a0[j] <= #[trigger] a@[k] by {
                assert(a0.contains(a@[k]));
                let i = choose|i: int| 0 <= i < a0.len() && a0[i] == a@[k];
                if a0[i] < a0[j] {
                    assert(covered(a0[i], bounds@));
                    let d = choose|d: int| 0 <= d < bounds@.len() && in_range(a0[i], #[trigger] bounds@[d].0, bounds@[d].1);
                    assert(outside_first(a@[k], bounds@, bounds@.len() as int));
                }
            }
            assert forall|i: int, j: int| 0 <= i < b@.len() && 0 <= j < a@.len() implies b@[i] < a@[j] by {
                lemma_member_of(a@ + b@, a0, a@.len() + i);
                let q = choose|q: int| 0 <= q < a0.len() && a0[q] == (a@ + b@)[a@.len() + i];
                assert(a0[q] <= a@[j]);
                assert((a@ + b@)[j] == a@[j]);
            }
            assert forall|i: int, j: int| 0 <= i < j < a@.len() implies a@[i] < a@[j] by {
                assert(a0.contains(a@[i]));
                assert(a0.contains(a@[j]));
                let qi = choose|q: int| 0 <= q < a0.len() && a0[q] == a@[i];
                let qj = choose|q: int| 0 <= q < a0.len() && a0[q] == a@[j];
                assert(a0[qi] <= a@[j]);
                assert(a0[qj] <= a@[i]);
                assert((a@ + b@)[i] == a@[i]);
                assert((a@ + b@)[j] == a@[j]);
            }
        }
    }
    while !b.is_empty()
        invariant
            ops_appended(l0, log@, range_op()),
            replays(st0, l0, log@, (a@, b@)),
            st0 == (a0, e),
            e == Seq::<i32>::empty(),
            good == (a0.no_duplicates() && covers_all_but_largest(a0, bounds@)),
            good ==> ascending(a@) && below_all(b@, a@),
        decreases b@.len(),
    {
        let max_idx = find_max_idx(b.as_slice());
        let r = max_idx;
        let ghost b1 = b@;
        let ghost a1 = a@;
        let ghost l1 = log@;
        if r != 0 {
            bring_to_top_b(&mut b, r, log);
            proof {
                crate::machine::lemma_ops_appended_trans(l0, l1, log@, range_op());
            }
            proof {
                lemma_replays_b_at(b1, l1, log@, b@, a@);
                lemma_replays_trans(st0, l0, l1, (a1, b1), log@, (a@, b@));
            }
        } else {
            proof {
                lemma_rot_by_ends(b1);
            }
        }
        let ghost b2 = b@;
        let ghost l2 = log@;
        proof {
            assert(b2 == rot_by(b1, r as int));
            lemma_rot_by_at(b1, r as int, 0);
        }
        move_to_a(a, &mut b, log);
        proof {
            crate::machine::lemma_ops_appended_step(l0, l2, log@, Op::Pa, range_op());
        }
        proof {
            lemma_replays_trans(st0, l0, l2, (a1, b2), log@, (a@, b@));
            if good {
                lemma_replays_content(st0, l0, l2, (a1, b2));
                assert(a0 + e =~= a0);
                lemma_same_contents_no_dup(a1 + b2, a0);
                assert forall|i: int, j: int| 0 <= i < j < a@.len() implies a@[i] < a@[j] by {
                    if i > 0 {
                        assert(a@[i] == a1[i - 1]);
                    } else {
                        assert(b2[0] == b1[r as int]);
                        assert(a@[j] == a1[j - 1]);
                    }
                    assert(a@[j] == a1[j - 1]);
                }
                assert forall|i: int, j: int| 0 <= i < b@.len() && 0 <= j < a@.len() implies b@[i] < a@[j] by {
                    assert(b@[i] == b2[i + 1]);
                    lemma_rot_by_at(b1, r as int, i + 1);
                    assert((a1 + b2)[a1.len() + i + 1] == b2[i + 1]);
                    assert((a1 + b2)[a1.len() as int] == b2[0]);
                    if j > 0 {
                        assert(a@[j] == a1[j - 1]);
                    } else {
                        assert(a@[0] == b2[0]);
                        if i + 1 < b1.len() - r {
                            assert(b1[i + 1 + r] <= b1[r as int]);
                        } else {
                            assert(b1[i + 1 - (b1.len() - r)] <= b1[r as int]);
                        }
                    }
                }
            }
        }
    }
    proof {
        assert(b@ =~= e);
    }
}

} // verus!
