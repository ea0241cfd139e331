//! Sorting by chunks of a sorted copy: up to five values are sorted by pushing
//! the smallest to b; more are cut into chunks of consecutive values of a
//! sorted copy: one chunk per value below eight values, 8 chunks up to 100
//! values, 15 beyond. Chunk by chunk, the values of a chunk
//! go to b, cheapest first; then, chunk by chunk from the last, the largest
//! value of the chunk comes back to a. An operation is recorded only when it
//! changes a stack.
use vstd::prelude::*;
use vstd::string::StringSliceAdditionalSpecFns;
use crate::machine::{
    Op, a_moves_appended, ascending, lemma_replays_a_at, lemma_replays_a_push, lemma_replays_a_refl,
    lemma_replays_a_trans, lemma_replays_b_at, lemma_replays_b_push, lemma_replays_b_refl,
    lemma_replays_b_trans, lemma_replays_content, lemma_replays_push, lemma_replays_refl,
    lemma_replays_trans, lemma_rot_by_content, lemma_rot_by_ends, lemma_rot_down_by, lemma_rot_up_by,
    replays, replays_a, replays_b, rot_by, rot_down, rot_up, sorts, step, swap_top,
};
use crate::ranking::{lemma_member_of, lemma_same_contents_no_dup, nondecreasing};
use crate::tokens::{
    all_digits, byte_code, digits_value, has_sign, is_digit_code, lemma_all_digits_take,
    lemma_digits_value_prefix, lemma_digits_value_take, parse_i32_of, unsigned_part,
};

use crate::text::{all_read, arg_word_list, arg_words, word_values};
use vstd::utf8::encode_utf8;

verus! {

/// Parse a token as an `i32`: an optional `+` or `-`, then one or more
/// decimal digits, with a value that fits.
pub fn parse_i32(s: &str) -> (r: Option<i32>)
    ensures
        r == parse_i32_of(s.spec_bytes(), byte_code()),
{
    let bytes = s.as_bytes();
    let ghost t = bytes@;
    let ghost code = byte_code();
    if bytes.len() == 0 {
        return None;
    }
    let mut i: usize = 0;
    let mut negative = false;
    if bytes[0] == 43u8 {
        i = 1;
        if i >= bytes.len() {
            return None;
        }
    } else if bytes[0] == 45u8 {
        negative = true;
        i = 1;
        if i >= bytes.len() {
            return None;
        }
    }
    let ghost start = i as int;
    let ghost u = unsigned_part(t, code);
    proof {
        assert(u =~= t.skip(start));
    }
    let mut result: i32 = 0;
    while i < bytes.len()
        invariant
            t == bytes@,
            t == s.spec_bytes(),
            code == byte_code(),
            u == unsigned_part(t, code),
            u == t.skip(start),
            u.len() == t.len() - start,
            start <= i <= t.len(),
            start < t.len(),
            negative <==> (has_sign(t, code) && code(t[0]) == 45),
            forall|k: int| 0 <= k < i - start ==> is_digit_code(code(#[trigger] u[k])),
            negative ==> result == -digits_value(u.take(i - start), code),
            !negative ==> result == digits_value(u.take(i - start), code),
        decreases t.len() - i,
    {
        let digit = bytes[i];
        proof {
            assert(u[i - start] == digit);
            lemma_digits_value_take(u, code, i - start);
        }
        if digit < 48u8 || digit > 57u8 {
            proof {
                assert(!is_digit_code(code(u[i - start])));
                assert(!all_digits(u, code));
                assert(!crate::tokens::is_int_token(t, code));
            }
            return None;
        }
        let d = (digit - 48u8) as i32;
        proof {
            lemma_all_digits_take(u, code, i - start);
            crate::tokens::lemma_digits_value_nonneg(u.take(i - start), code);
            assert(i32::MAX / 10 == 214748364i32);
            lemma_all_digits_take(u, code, i - start + 1);
            if all_digits(u, code) {
                lemma_digits_value_prefix(u, code, i - start + 1);
            }
        }
        if negative {
            if result < i32::MIN / 10 || (result == i32::MIN / 10 && d > 8) {
                proof {
                    assert(digits_value(u.take(i - start + 1), code) > 2147483648);
                    if all_digits(u, code) {
                        assert(digits_value(u, code) > 2147483648);
                        assert(crate::tokens::token_value(t, code) == -digits_value(u, code));
                    }
                }
                return None;
            }
            result = result * 10 - d;
        } else {
            if result > i32::MAX / 10 || (result == i32::MAX / 10 && d > 7) {
                proof {
                    assert(digits_value(u.take(i - start + 1), code) > 2147483647);
                    if all_digits(u, code) {
                        assert(digits_value(u, code) > 2147483647);
                        assert(crate::tokens::token_value(t, code) == digits_value(u, code));
                    }
                }
                return None;
            }
            result = result * 10 + d;
        }
        i += 1;
    }
    proof {
        assert(u.take(u.len() as int) =~= u);
        lemma_all_digits_take(u, code, u.len() as int);
    }
    Some(result)
}

/// How a word is read: by [`parse_i32`], on its bytes.
pub open spec fn byte_read() -> spec_fn(Seq<char>) -> Option<i32> {
    |t: Seq<char>| parse_i32_of(encode_utf8(t), byte_code())
}

/// Read the numbers of the arguments: no argument may be empty; every word of every argument,
/// split at white space, must be read by [`parse_i32`]; no number may come
/// twice. `None` stands for
/// the error.
pub fn parse_args(args: &Vec<String>) -> (r: Option<Vec<i32>>)
    ensures
        r is Some <==> ((forall|i: int| 0 <= i < args@.len() ==> (#[trigger] args@[i])@.len() > 0)
            && all_read(arg_words(args@), byte_read()) && word_values(arg_words(args@), byte_read()).no_duplicates()),
        r is Some ==> r->0@ == word_values(arg_words(args@), byte_read()),
        crate::text::has_stray_char(args@) ==> r is None,
{
    proof {
        if crate::text::has_stray_char(args@) {
            crate::text::lemma_has_stray_char(args@);
            let aw = arg_words(args@);
            let k = choose|k: int|
                0 <= k < aw.len() && !crate::tokens::is_int_token(#[trigger] aw[k], crate::tokens::char_code())
                    && !crate::tokens::is_int_token(encode_utf8(aw[k]), byte_code());
            assert(byte_read()(aw[k]) is None);
        }
    }
    let mut i: usize = 0;
    while i < args.len()
        invariant
            i <= args@.len(),
            forall|k: int| 0 <= k < i ==> (#[trigger] args@[k])@.len() > 0,
        decreases args@.len() - i,
    {
        if args[i].as_str().is_empty() {
            return None;
        }
        i += 1;
    }
    let tokens = arg_word_list(args.as_slice());
    let ghost aw = arg_words(args@);
    let ghost rd = byte_read();
    let mut values: Vec<i32> = Vec::new();
    let mut j: usize = 0;
    proof {
        assert(aw.take(0) =~= Seq::<Seq<char>>::empty());
        assert(word_values(aw.take(0), rd) =~= Seq::<i32>::empty());
    }
    while j < tokens.len()
        invariant
            tokens@.len() == aw.len(),
            forall|k: int| 0 <= k < tokens@.len() ==> (#[trigger] tokens@[k])@ == aw[k],
            rd == byte_read(),
            aw == arg_words(args@),
            forall|k: int| 0 <= k < args@.len() ==> (#[trigger] args@[k])@.len() > 0,
            j <= tokens@.len(),
            all_read(aw.take(j as int), rd),
            values@ == word_values(aw.take(j as int), rd),
            values@.no_duplicates(),
        decreases tokens@.len() - j,
    {
        let value = match parse_i32(tokens[j]) {
            Some(v) => v,
            None => {
                proof {
                    assert(rd(aw[j as int]) is None);
                }
                return None;
            },
        };
        proof {
            assert(rd(aw[j as int]) == Some(value));
        }
        let mut k: usize = 0;
        while k < values.len()
            invariant
                k <= values@.len(),
                forall|q: int| 0 <= q < k ==> #[trigger] values@[q] != value,
                j < aw.len(),
                rd == byte_read(),
                aw == arg_words(args@),
                rd(aw[j as int]) == Some(value),
                values@ == word_values(aw.take(j as int), rd),
            decreases values@.len() - k,
        {
            if values[k] == value {
                proof {
                    crate::text::lemma_read_twice(aw, rd, j as int, k as int, value);
                }
                return None;
            }
            k += 1;
        }
        values.push(value);
        proof {
            assert(aw.take(j + 1) =~= aw.take(j as int).push(aw[j as int]));
            assert(values@ =~= word_values(aw.take(j + 1), rd));
            assert forall|q: int| 0 <= q < aw.take(j + 1).len() implies #[trigger] rd(aw.take(j + 1)[q]) is Some by {
                if q < j {
                    assert(aw.take(j + 1)[q] == aw.take(j as int)[q]);
                }
            }
        }
        j += 1;
    }
    proof {
        assert(aw.take(aw.len() as int) =~= aw);
    }
    Some(values)
}

/// Whether each element is at most the next one.
pub fn is_sorted(a: &[i32]) -> (r: bool)
    ensures
        r == nondecreasing(a@),
{
    let mut i: usize = 0;
    while i + 1 < a.len()
        invariant
            i == 0 || i < a@.len(),
            i < usize::MAX,
            forall|p: int, q: int| 0 <= p < q <= i && q < a@.len() ==> a@[p] <= a@[q],
        decreases a@.len() - i,
    {
        if a[i] > a[i + 1] {
            return false;
        }
        i += 1;
    }
    true
}

/// `sa` on three elements, recorded.
fn swap_first_two(a: &mut Vec<i32>, log: &mut Vec<Op>)
    requires
        old(a)@.len() >= 2,
    ensures
        final(a)@ == swap_top(old(a)@),
        final(log)@ == old(log)@.push(Op::Sa),
        replays_a(old(a)@, old(log)@, final(log)@, final(a)@),
{
    let ghost a0 = a@;
    proof {
        lemma_replays_a_refl(a0, log@);
        lemma_replays_a_push(a0, log@, log@, a0, Op::Sa);
    }
    let x = a[0];
    let y = a[1];
    a.set(0, y);
    a.set(1, x);
    log.push(Op::Sa);
    proof {
        assert(a@ =~= swap_top(a0));
    }
}

/// Sort three distinct elements of a with at most two operations.
pub fn solve3(a: &mut Vec<i32>, log: &mut Vec<Op>)
    requires
        old(a)@.len() == 3,
        old(a)@.no_duplicates(),
    ensures
        final(a)@.len() == 3,
        ascending(final(a)@),
        final(a)@.to_multiset() == old(a)@.to_multiset(),
        replays_a(old(a)@, old(log)@, final(log)@, final(a)@),
        final(log)@.len() <= old(log)@.len() + 2,
        a_moves_appended(old(log)@, final(log)@),
        ascending(old(a)@) ==> final(log)@ == old(log)@ && final(a)@ == old(a)@,
{
    let ghost a0 = a@;
    let ghost l0 = log@;
    proof {
        crate::machine::lemma_a_moves_refl(l0);
    }
    proof {
        lemma_replays_a_refl(a0, l0);
    }
    let x = a[0];
    let y = a[1];
    let z = a[2];
    if x < y && y < z {
        return;
    } else if x > y && y < z && x > z {
        let ghost lb = log@;
        ra(a, log);
        proof {
            crate::machine::lemma_a_moves_push(l0, lb, Op::Ra);
        }
    } else if x < y && y > z && x < z {
        let ghost lb = log@;
        swap_first_two(a, log);
        proof {
            crate::machine::lemma_a_moves_push(l0, lb, Op::Sa);
        }
        let ghost a1 = a@;
        let ghost l1 = log@;
        let ghost lb = log@;
        ra(a, log);
        proof {
            crate::machine::lemma_a_moves_push(l0, lb, Op::Ra);
        }
        proof {
            lemma_replays_a_trans(a0, l0, l1, a1, log@, a@);
        }
    } else if x > y && y < z && x < z {
        let ghost lb = log@;
        swap_first_two(a, log);
        proof {
            crate::machine::lemma_a_moves_push(l0, lb, Op::Sa);
        }
    } else if x > y && y > z {
        let ghost lb = log@;
        swap_first_two(a, log);
        proof {
            crate::machine::lemma_a_moves_push(l0, lb, Op::Sa);
        }
        let ghost a1 = a@;
        let ghost l1 = log@;
        let ghost lb = log@;
        rra(a, log);
        proof {
            crate::machine::lemma_a_moves_push(l0, lb, Op::Rra);
        }
        proof {
            lemma_replays_a_trans(a0, l0, l1, a1, log@, a@);
        }
    } else {
        let ghost lb = log@;
        rra(a, log);
        proof {
            crate::machine::lemma_a_moves_push(l0, lb, Op::Rra);
        }
    }
    proof {
        assert(a0[0] != a0[1] && a0[1] != a0[2] && a0[0] != a0[2]);
        crate::machine::lemma_replays_a_content(a0, l0, log@, a@);
    }
}

/// Four distinct elements: the smallest goes to b, the rest are sorted, it
/// comes back, and the smallest is rotated to the top.
#[verifier::rlimit(40)]
pub fn solve4(a: &mut Vec<i32>, b: &mut Vec<i32>, log: &mut Vec<Op>)
    requires
        old(a)@.len() == 4,
        old(b)@.len() == 0,
        old(a)@.no_duplicates(),
    ensures
        final(b)@.len() == 0,
        ascending(final(a)@),
        replays((old(a)@, old(b)@), old(log)@, final(log)@, (final(a)@, final(b)@)),
        final(log)@.len() <= old(log)@.len() + 12,
{
    let ghost st0 = (a@, b@);
    let ghost l0 = log@;
    proof {
        lemma_replays_refl(st0, l0);
    }
    push_min(a, b, log);
    proof {
        lemma_replays_content(st0, l0, log@, (a@, b@));
        assert(st0.0 + st0.1 =~= st0.0);
        lemma_same_contents_no_dup(a@ + b@, st0.0);
        assert forall|i: int, j: int| 0 <= i < 3 && 0 <= j < 3 && i != j implies a@[i] != a@[j] by {
            assert((a@ + b@)[i] == a@[i]);
            assert((a@ + b@)[j] == a@[j]);
        }
    }
    let ghost a1 = a@;
    let ghost l1 = log@;
    let ghost mid = (a@, b@);
    solve3(a, log);
    proof {
        lemma_replays_a_at(a1, l1, log@, a@, b@);
        lemma_replays_trans(st0, l0, l1, mid, log@, (a@, b@));
        assert forall|k: int| 0 <= k < 3 implies b@[0] < #[trigger] a@[k] by {
            lemma_member_of(a@, a1, k);
        }
    }
    let ghost st2 = (a@, b@);
    let ghost l2 = log@;
    pa(b, a, log);
    proof {
        lemma_replays_trans(st0, l0, l2, st2, log@, (a@, b@));
    }
    let min_pos = index_of_min(a);
    let ghost st3 = (a@, b@);
    let ghost l3 = log@;
    rotate_to_top(a, min_pos, log);
    proof {
        lemma_replays_a_at(st3.0, l3, log@, a@, b@);
        lemma_replays_trans(st0, l0, l3, st3, log@, (a@, b@));
        lemma_rot_by_ends(st3.0);
    }
}

/// Five distinct elements: the two smallest go to b, the rest are sorted,
/// they come back.
pub fn solve5(a: &mut Vec<i32>, b: &mut Vec<i32>, log: &mut Vec<Op>)
    requires
        old(a)@.len() == 5,
        old(b)@.len() == 0,
        old(a)@.no_duplicates(),
    ensures
        final(b)@.len() == 0,
        ascending(final(a)@),
        replays((old(a)@, old(b)@), old(log)@, final(log)@, (final(a)@, final(b)@)),
        final(log)@.len() <= old(log)@.len() + 12,
{
    let ghost st0 = (a@, b@);
    let ghost l0 = log@;
    proof {
        lemma_replays_refl(st0, l0);
        assert(st0.0 + st0.1 =~= st0.0);
    }
    push_min(a, b, log);
    let ghost st1 = (a@, b@);
    let ghost l1 = log@;
    proof {
        lemma_replays_content(st0, l0, log@, (a@, b@));
        lemma_same_contents_no_dup(a@ + b@, st0.0);
    }
    push_min(a, b, log);
    proof {
        lemma_replays_trans(st0, l0, l1, st1, log@, (a@, b@));
        lemma_replays_content(st0, l0, log@, (a@, b@));
        lemma_same_contents_no_dup(a@ + b@, st0.0);
        assert forall|i: int, j: int| 0 <= i < 3 && 0 <= j < 3 && i != j implies a@[i] != a@[j] by {
            assert((a@ + b@)[i] == a@[i]);
            assert((a@ + b@)[j] == a@[j]);
        }
        assert(b@[1] == st1.1[0]);
        assert(b@[1] == st1.1[0]);
        assert(st1.0.contains(b@[0]));
        assert(b@[1] < b@[0]) by {
            let k = choose|k: int| 0 <= k < st1.0.len() && st1.0[k] == b@[0];
            assert(st1.1[0] < st1.0[k]);
        }
    }
    let ghost a2 = a@;
    let ghost l2 = log@;
    let ghost mid = (a@, b@);
    solve3(a, log);
    proof {
        lemma_replays_a_at(a2, l2, log@, a@, b@);
        lemma_replays_trans(st0, l0, l2, mid, log@, (a@, b@));
        assert forall|k: int| 0 <= k < 3 implies b@[0] < #[trigger] a@[k] && b@[1] < a@[k] by {
            lemma_member_of(a@, a2, k);
        }
    }
    let ghost st3 = (a@, b@);
    let ghost l3 = log@;
    pa(b, a, log);
    proof {
        lemma_replays_trans(st0, l0, l3, st3, log@, (a@, b@));
    }
    let ghost st4 = (a@, b@);
    let ghost l4 = log@;
    pa(b, a, log);
    proof {
        lemma_replays_trans(st0, l0, l4, st4, log@, (a@, b@));
    }
}

/// Rotate the smallest element of a to the top and push it to b.
fn push_min(a: &mut Vec<i32>, b: &mut Vec<i32>, log: &mut Vec<Op>)
    requires
        old(a)@.len() > 0,
        (old(a)@ + old(b)@).no_duplicates(),
    ensures
        final(a)@.len() == old(a)@.len() - 1,
        final(b)@ == seq![final(b)@[0]] + old(b)@,
        old(a)@.contains(final(b)@[0]),
        forall|k: int| 0 <= k < final(a)@.len() ==> final(b)@[0] < #[trigger] final(a)@[k],
        replays((old(a)@, old(b)@), old(log)@, final(log)@, (final(a)@, final(b)@)),
        final(log)@.len() <= old(log)@.len() + old(a)@.len() / 2 + 1,
{
    let ghost st0 = (a@, b@);
    let ghost l0 = log@;
    let min_pos = index_of_min(a);
    rotate_to_top(a, min_pos, log);
    proof {
        lemma_replays_a_at(st0.0, l0, log@, a@, b@);
        let a0 = st0.0;
        assert forall|k: int| 0 <= k < a@.len() implies a@[0] <= #[trigger] a@[k] by {
            if k < a0.len() - min_pos {
                assert(a@[k] == a0[min_pos + k]);
            } else {
                assert(a@[k] == a0[k - (a0.len() - min_pos)]);
            }
        }
        lemma_rot_by_content(a0, min_pos as int);
        assert((a@ + b@).to_multiset() == (a0 + b@).to_multiset()) by {
            vstd::seq_lib::lemma_multiset_commutative(a@, b@);
            vstd::seq_lib::lemma_multiset_commutative(a0, b@);
        }
        lemma_same_contents_no_dup(a@ + b@, a0 + b@);
        assert forall|k: int| 1 <= k < a@.len() implies a@[0] < #[trigger] a@[k] by {
            assert((a@ + b@)[0] == a@[0]);
            assert((a@ + b@)[k] == a@[k]);
        }
        assert(a0[min_pos as int] == a@[0]);
    }
    let ghost st1 = (a@, b@);
    let ghost l1 = log@;
    pb(a, b, log);
    proof {
        lemma_replays_trans(st0, l0, l1, st1, log@, (a@, b@));
        assert forall|k: int| 0 <= k < a@.len() implies b@[0] < #[trigger] a@[k] by {
            assert(a@[k] == st1.0[k + 1]);
        }
    }
}

/// Rotate the element at `pos` to the top of a, the short way round.
pub fn rotate_to_top(a: &mut Vec<i32>, pos: usize, log: &mut Vec<Op>)
    requires
        pos <= old(a)@.len(),
    ensures
        final(a)@ == rot_by(old(a)@, pos as int),
        replays_a(old(a)@, old(log)@, final(log)@, final(a)@),
        final(log)@.len() <= old(log)@.len() + old(a)@.len() / 2,
{
    let ghost a0 = a@;
    let ghost l0 = log@;
    proof {
        lemma_replays_a_refl(a0, l0);
        lemma_rot_by_ends(a0);
    }
    if pos <= a.len() / 2 {
        let mut j: usize = 0;
        while j < pos
            invariant
                j <= pos,
                pos <= a0.len() / 2,
                a@ == rot_by(a0, j as int),
                replays_a(a0, l0, log@, a@),
                log@.len() <= l0.len() + j,
            decreases pos - j,
        {
            let ghost a1 = a@;
            let ghost l1 = log@;
            proof {
                lemma_rot_up_by(a0, j as int);
            }
            ra(a, log);
            proof {
                lemma_replays_a_trans(a0, l0, l1, a1, log@, a@);
            }
            j += 1;
        }
    } else {
        let mut j: usize = 0;
        while j < a.len() - pos
            invariant
                pos <= a0.len(),
                a@.len() == a0.len(),
                j <= a0.len() - pos,
                a@ == rot_by(a0, a0.len() - j),
                replays_a(a0, l0, log@, a@),
                a0.len() / 2 < pos,
                log@.len() <= l0.len() + j,
            decreases a0.len() - pos - j,
        {
            let ghost a1 = a@;
            let ghost l1 = log@;
            proof {
                lemma_rot_down_by(a0, a0.len() - j);
            }
            rra(a, log);
            proof {
                lemma_replays_a_trans(a0, l0, l1, a1, log@, a@);
            }
            j += 1;
        }
    }
}

/// Rotate the element at `pos` to the top of b, the short way round.
pub fn rotate_to_top_b(a: &mut Vec<i32>, pos: usize, log: &mut Vec<Op>)
    requires
        pos <= old(a)@.len(),
    ensures
        final(a)@ == rot_by(old(a)@, pos as int),
        replays_b(old(a)@, old(log)@, final(log)@, final(a)@),
{
    let ghost a0 = a@;
    let ghost l0 = log@;
    proof {
        lemma_replays_b_refl(a0, l0);
        lemma_rot_by_ends(a0);
    }
    if pos <= a.len() / 2 {
        let mut j: usize = 0;
        while j < pos
            invariant
                j <= pos,
                pos <= a0.len() / 2,
                a@ == rot_by(a0, j as int),
                replays_b(a0, l0, log@, a@),
            decreases pos - j,
        {
            let ghost a1 = a@;
            let ghost l1 = log@;
            proof {
                lemma_rot_up_by(a0, j as int);
            }
            rb(a, log);
            proof {
                lemma_replays_b_trans(a0, l0, l1, a1, log@, a@);
            }
            j += 1;
        }
    } else {
        let mut j: usize = 0;
        while j < a.len() - pos
            invariant
                pos <= a0.len(),
                a@.len() == a0.len(),
                j <= a0.len() - pos,
                a@ == rot_by(a0, a0.len() - j),
                replays_b(a0, l0, log@, a@),
            decreases a0.len() - pos - j,
        {
            let ghost a1 = a@;
            let ghost l1 = log@;
            proof {
                lemma_rot_down_by(a0, a0.len() - j);
            }
            rrb(a, log);
            proof {
                lemma_replays_b_trans(a0, l0, l1, a1, log@, a@);
            }
            j += 1;
        }
    }
}

/// The index of the first smallest element (0 for an empty slice).
pub fn index_of_min(a: &[i32]) -> (r: usize)
    ensures
        a@.len() == 0 ==> r == 0,
        a@.len() > 0 ==> r < a@.len(),
        forall|k: int| 0 <= k < a@.len() ==> a@[r as int] <= a@[k],
        forall|k: int| 0 <= k < r ==> a@[k] > a@[r as int],
{
    let mut min_pos: usize = 0;
    let mut i: usize = 1;
    while i < a.len()
        invariant
            a@.len() > 0 ==> min_pos < i <= a@.len(),
            a@.len() == 0 ==> min_pos == 0,
            forall|k: int| 0 <= k < i && k < a@.len() ==> a@[min_pos as int] <= a@[k],
            forall|k: int| 0 <= k < min_pos ==> a@[k] > a@[min_pos as int],
        decreases a@.len() - i,
    {
        if a[i] < a[min_pos] {
            min_pos = i;
        }
        i += 1;
    }
    min_pos
}

/// Sort a in place, inserting each element into the sorted part before it.
pub fn insertion_sort(a: &mut Vec<i32>)
    ensures
        nondecreasing(final(a)@),
        final(a)@.to_multiset() == old(a)@.to_multiset(),
{
    let ghost a0 = a@;
    let mut i: usize = 1;
    while i < a.len()
        invariant
            a@.len() == a0.len(),
            1 <= i,
            a0.len() == 0 || i <= a0.len(),
            a@.to_multiset() == a0.to_multiset(),
            forall|p: int, q: int| 0 <= p < q < i && q < a0.len() ==> a@[p] <= a@[q],
        decreases a0.len() - i,
    {
        let ghost o = a@;
        let key = a[i];
        let mut j = i;
        while j > 0 && a[j - 1] > key
            invariant
                a@.len() == o.len(),
                0 <= j <= i < o.len(),
                key == o[i as int],
                forall|k: int| 0 <= k < j ==> a@[k] == o[k],
                forall|k: int| j < k <= i ==> a@[k] == o[k - 1],
                forall|k: int| i < k < o.len() ==> a@[k] == o[k],
                forall|k: int| j <= k < i ==> o[k] > key,
            decreases j,
        {
            a.set(j, a[j - 1]);
            j -= 1;
        }
        a.set(j, key);
        proof {
            let ins = o.take(j as int) + seq![key] + o.subrange(j as int, i as int) + o.skip(i + 1);
            assert(a@ =~= ins);
            assert(o =~= o.take(j as int) + o.subrange(j as int, i as int) + seq![key] + o.skip(i + 1));
            vstd::seq_lib::lemma_multiset_commutative(o.take(j as int) + seq![key], o.subrange(j as int, i as int));
            vstd::seq_lib::lemma_multiset_commutative(o.take(j as int) + o.subrange(j as int, i as int), seq![key]);
            vstd::seq_lib::lemma_multiset_commutative(o.take(j as int), seq![key]);
            vstd::seq_lib::lemma_multiset_commutative(o.take(j as int), o.subrange(j as int, i as int));
            vstd::seq_lib::lemma_multiset_commutative(ins.take(0) + (o.take(j as int) + seq![key] + o.subrange(j as int, i as int)), o.skip(i + 1));
            vstd::seq_lib::lemma_multiset_commutative(o.take(j as int) + o.subrange(j as int, i as int) + seq![key], o.skip(i + 1));
            assert(ins.take(0) + (o.take(j as int) + seq![key] + o.subrange(j as int, i as int)) =~= o.take(j as int) + seq![key] + o.subrange(j as int, i as int));
            assert((o.take(j as int) + seq![key] + o.subrange(j as int, i as int)).to_multiset() =~= (o.take(j as int) + o.subrange(j as int, i as int) + seq![key]).to_multiset());
            assert forall|p: int, q: int| 0 <= p < q < i + 1 && q < a0.len() implies a@[p] <= a@[q] by {
                if q < j {
                } else if q == j {
                    if p < j - 1 {
                        assert(o[p] <= o[j - 1]);
                    }
                } else if p < j {
                    assert(o[p] <= o[q - 1]);
                } else if p == j {
                } else {
                    assert(o[p - 1] <= o[q - 1]);
                }
            }
        }
        i += 1;
    }
}

/// The cost of bringing index `i` of `n` to the top: `i` rotations up, or
/// `n - i` down when that is fewer.
pub open spec fn reach_cost(n: int, i: int) -> int {
    if i <= n - i {
        i
    } else {
        n - i
    }
}

/// The index of the element in `[low, high]` that is cheapest to bring to the
/// top (the first of equally cheap ones), or the length when none is in range.
pub fn find_in_range(a: &[i32], low: i32, high: i32) -> (r: usize)
    ensures
        r <= a@.len(),
        r < a@.len() ==> low <= a@[r as int] <= high,
        r < a@.len() ==> forall|k: int|
            0 <= k < a@.len() && low <= #[trigger] a@[k] <= high ==> reach_cost(a@.len() as int, k) >= reach_cost(
                a@.len() as int,
                r as int,
            ),
        r < a@.len() ==> forall|k: int|
            0 <= k < r && low <= #[trigger] a@[k] <= high ==> reach_cost(a@.len() as int, k) > reach_cost(
                a@.len() as int,
                r as int,
            ),
        r == a@.len() ==> forall|k: int| 0 <= k < a@.len() ==> !(low <= #[trigger] a@[k] <= high),
{
    let mut best_pos = a.len();
    let mut best_cost = a.len();
    let mut i: usize = 0;
    while i < a.len()
        invariant
            i <= a@.len(),
            best_pos <= a@.len(),
            best_pos < a@.len() ==> low <= a@[best_pos as int] <= high && best_cost == reach_cost(
                a@.len() as int,
                best_pos as int,
            ) && best_pos < i,
            best_pos < a@.len() ==> forall|k: int|
                0 <= k < i && low <= #[trigger] a@[k] <= high ==> reach_cost(a@.len() as int, k) >= best_cost,
            best_pos < a@.len() ==> forall|k: int|
                0 <= k < best_pos && low <= #[trigger] a@[k] <= high ==> reach_cost(a@.len() as int, k) > best_cost,
            best_pos == a@.len() ==> best_cost == a@.len() && forall|k: int|
                0 <= k < i ==> !(low <= #[trigger] a@[k] <= high),
        decreases a@.len() - i,
    {
        if a[i] >= low && a[i] <= high {
            let cost_ra = i;
            let cost_rra = a.len() - i;
            let cost = if cost_ra <= cost_rra {
                cost_ra
            } else {
                cost_rra
            };
            if cost < best_cost {
                best_cost = cost;
                best_pos = i;
            }
        }
        i += 1;
    }
    best_pos
}

/// The index of the largest element in `[low, high]` (of equal ones, the
/// cheapest to bring to the top, the first of equally cheap ones), or the
/// length when none is in range.
pub fn find_max_in_range(a: &[i32], low: i32, high: i32) -> (r: usize)
    ensures
        r <= a@.len(),
        r < a@.len() ==> low <= a@[r as int] <= high,
        r < a@.len() ==> forall|k: int| 0 <= k < a@.len() && low <= #[trigger] a@[k] <= high ==> a@[k] <= a@[r as int],
        r < a@.len() ==> forall|k: int|
            0 <= k < a@.len() && #[trigger] a@[k] == a@[r as int] ==> reach_cost(a@.len() as int, k) >= reach_cost(
                a@.len() as int,
                r as int,
            ),
        r < a@.len() ==> forall|k: int|
            0 <= k < r && #[trigger] a@[k] == a@[r as int] ==> reach_cost(a@.len() as int, k) > reach_cost(
                a@.len() as int,
                r as int,
            ),
        r == a@.len() ==> forall|k: int| 0 <= k < a@.len() ==> !(low <= #[trigger] a@[k] <= high),
{
    let mut best_pos = a.len();
    let mut max_val: i32 = 0;
    let mut best_cost = a.len();
    let mut found = false;
    let mut i: usize = 0;
    while i < a.len()
        invariant
            i <= a@.len(),
            found <==> best_pos < a@.len(),
            best_pos <= a@.len(),
            found ==> best_pos < i,
            found ==> low <= a@[best_pos as int] <= high && max_val == a@[best_pos as int],
            found ==> best_cost == reach_cost(a@.len() as int, best_pos as int),
            found ==> forall|k: int| 0 <= k < i && low <= #[trigger] a@[k] <= high ==> a@[k] <= max_val,
            found ==> forall|k: int|
                0 <= k < i && #[trigger] a@[k] == max_val ==> reach_cost(a@.len() as int, k) >= best_cost,
            found ==> forall|k: int|
                0 <= k < best_pos && #[trigger] a@[k] == max_val ==> reach_cost(a@.len() as int, k) > best_cost,
            !found ==> forall|k: int| 0 <= k < i ==> !(low <= #[trigger] a@[k] <= high),
        decreases a@.len() - i,
    {
        if a[i] >= low && a[i] <= high {
            let cost_rb = i;
            let cost_rrb = a.len() - i;
            let cost = if cost_rb <= cost_rrb {
                cost_rb
            } else {
                cost_rrb
            };
            if !found || a[i] > max_val || (a[i] == max_val && cost < best_cost) {
                max_val = a[i];
                best_cost = cost;
                best_pos = i;
                found = true;
            }
        }
        i += 1;
    }
    best_pos
}

/// `ra`, recorded when a holds two elements or more.
pub fn ra(a: &mut Vec<i32>, log: &mut Vec<Op>)
    ensures
        final(a)@ == rot_up(old(a)@),
        final(log)@ == if old(a)@.len() >= 2 { old(log)@.push(Op::Ra) } else { old(log)@ },
        replays_a(old(a)@, old(log)@, final(log)@, final(a)@),
{
    let ghost a0 = a@;
    proof {
        lemma_replays_a_refl(a0, log@);
        lemma_replays_a_push(a0, log@, log@, a0, Op::Ra);
    }
    if a.len() >= 2 {
        let first = a.remove(0);
        a.push(first);
        log.push(Op::Ra);
        proof {
            assert(a@ =~= rot_up(a0));
        }
    }
}

/// `rra`, recorded when a holds two elements or more.
pub fn rra(a: &mut Vec<i32>, log: &mut Vec<Op>)
    ensures
        final(a)@ == rot_down(old(a)@),
        final(log)@ == if old(a)@.len() >= 2 { old(log)@.push(Op::Rra) } else { old(log)@ },
        replays_a(old(a)@, old(log)@, final(log)@, final(a)@),
{
    let ghost a0 = a@;
    proof {
        lemma_replays_a_refl(a0, log@);
        lemma_replays_a_push(a0, log@, log@, a0, Op::Rra);
    }
    if a.len() >= 2 {
        let last = a.pop();
        if let Some(v) = last {
            a.insert(0, v);
        }
        log.push(Op::Rra);
        proof {
            assert(a@ =~= rot_down(a0));
        }
    }
}

/// `rb`, recorded when b holds two elements or more.
pub fn rb(b: &mut Vec<i32>, log: &mut Vec<Op>)
    ensures
        final(b)@ == rot_up(old(b)@),
        final(log)@ == if old(b)@.len() >= 2 { old(log)@.push(Op::Rb) } else { old(log)@ },
        replays_b(old(b)@, old(log)@, final(log)@, final(b)@),
{
    let ghost b0 = b@;
    proof {
        lemma_replays_b_refl(b0, log@);
        lemma_replays_b_push(b0, log@, log@, b0, Op::Rb);
    }
    if b.len() >= 2 {
        let first = b.remove(0);
        b.push(first);
        log.push(Op::Rb);
        proof {
            assert(b@ =~= rot_up(b0));
        }
    }
}

/// `rrb`, recorded when b holds two elements or more.
pub fn rrb(b: &mut Vec<i32>, log: &mut Vec<Op>)
    ensures
        final(b)@ == rot_down(old(b)@),
        final(log)@ == if old(b)@.len() >= 2 { old(log)@.push(Op::Rrb) } else { old(log)@ },
        replays_b(old(b)@, old(log)@, final(log)@, final(b)@),
{
    let ghost b0 = b@;
    proof {
        lemma_replays_b_refl(b0, log@);
        lemma_replays_b_push(b0, log@, log@, b0, Op::Rrb);
    }
    if b.len() >= 2 {
        let last = b.pop();
        if let Some(v) = last {
            b.insert(0, v);
        }
        log.push(Op::Rrb);
        proof {
            assert(b@ =~= rot_down(b0));
        }
    }
}

/// `pb`, recorded when a is not empty.
pub fn pb(a: &mut Vec<i32>, b: &mut Vec<i32>, log: &mut Vec<Op>)
    ensures
        (final(a)@, final(b)@) == step((old(a)@, old(b)@), Op::Pb),
        final(log)@ == if old(a)@.len() > 0 { old(log)@.push(Op::Pb) } else { old(log)@ },
        replays((old(a)@, old(b)@), old(log)@, final(log)@, (final(a)@, final(b)@)),
{
    let ghost st = (a@, b@);
    proof {
        lemma_replays_refl(st, log@);
        lemma_replays_push(st, log@, log@, st, Op::Pb);
    }
    if !a.is_empty() {
        let val = a.remove(0);
        b.insert(0, val);
        log.push(Op::Pb);
        proof {
            assert(b@ =~= seq![st.0[0]] + st.1);
            assert(a@ =~= st.0.drop_first());
        }
    }
}

/// `pa` (b is given first), recorded when b is not empty.
pub fn pa(b: &mut Vec<i32>, a: &mut Vec<i32>, log: &mut Vec<Op>)
    ensures
        (final(a)@, final(b)@) == step((old(a)@, old(b)@), Op::Pa),
        final(log)@ == if old(b)@.len() > 0 { old(log)@.push(Op::Pa) } else { old(log)@ },
        replays((old(a)@, old(b)@), old(log)@, final(log)@, (final(a)@, final(b)@)),
{
    let ghost st = (a@, b@);
    proof {
        lemma_replays_refl(st, log@);
        lemma_replays_push(st, log@, log@, st, Op::Pa);
    }
    if !b.is_empty() {
        let val = b.remove(0);
        a.insert(0, val);
        log.push(Op::Pa);
        proof {
            assert(a@ =~= seq![st.1[0]] + st.0);
            assert(b@ =~= st.1.drop_first());
        }
    }
}

/// Where chunk `c` of `k` chunks of `n` values starts in the sorted copy.
pub open spec fn chunk_start(n: int, k: int, c: int) -> int {
    c * n / k
}

proof fn lemma_chunk_start(n: int, k: int, c: int)
    requires
        1 <= k <= n,
        0 <= c < k,
    ensures
        chunk_start(n, k, 0) == 0,
        chunk_start(n, k, k) == n,
        0 <= chunk_start(n, k, c) <= chunk_start(n, k, c + 1),
        chunk_start(n, k, c) < n,
        1 <= chunk_start(n, k, c + 1) <= n,
{
    assert(0 * n == 0);
    assert(c * n <= (c + 1) * n) by (nonlinear_arith)
        requires
            0 <= c,
            0 <= n,
    ;
    assert(n <= (c + 1) * n) by (nonlinear_arith)
        requires
            0 <= c,
            0 <= n,
    ;
    assert((c + 1) * n <= k * n) by (nonlinear_arith)
        requires
            c + 1 <= k,
            0 <= n,
    ;
    assert(0 <= c * n) by (nonlinear_arith)
        requires
            0 <= c,
            0 <= n,
    ;
    vstd::arithmetic::div_mod::lemma_div_is_ordered(c * n, (c + 1) * n, k);
    vstd::arithmetic::div_mod::lemma_div_is_ordered(k, (c + 1) * n, k);
    vstd::arithmetic::div_mod::lemma_div_is_ordered((c + 1) * n, k * n, k);
    vstd::arithmetic::div_mod::lemma_div_is_ordered(0, c * n, k);
    vstd::arithmetic::div_mod::lemma_div_multiples_vanish(n, k);
    vstd::arithmetic::div_mod::lemma_div_multiples_vanish(1, k);
    assert(k * n == n * k) by (nonlinear_arith);
    vstd::arithmetic::div_mod::lemma_div_by_multiple(n, k);
    let x = c * n;
    vstd::arithmetic::div_mod::lemma_fundamental_div_mod(x, k);
    vstd::arithmetic::div_mod::lemma_mod_bound(x, k);
    let q = x / k;
    assert(x <= k * n - n) by (nonlinear_arith)
        requires
            x == c * n,
            c <= k - 1,
            0 <= n,
    ;
    assert(q < n) by (nonlinear_arith)
        requires
            x == k * q + x % k,
            0 <= x % k,
            x <= k * n - n,
            1 <= n,
            1 <= k,
    ;
}

/// Chunks of consecutive values of a sorted copy: chunk by chunk, every
/// value of the chunk goes to b, the one nearest an end of a first; then,
/// chunk by chunk from the last, the largest value of the chunk left in b is
/// rotated to the top of b and pushed to a.
pub fn solve_large(a: &mut Vec<i32>, b: &mut Vec<i32>, n: usize, log: &mut Vec<Op>)
    requires
        n == old(a)@.len(),
        6 <= n,
        n * 16 <= usize::MAX,
        old(b)@.len() == 0,
        old(a)@.no_duplicates(),
    ensures
        final(b)@.len() == 0,
        ascending(final(a)@),
        replays((old(a)@, old(b)@), old(log)@, final(log)@, (final(a)@, final(b)@)),
{
    let ghost s = a@;
    let ghost st0 = (a@, b@);
    let ghost l0 = log@;
    proof {
        lemma_replays_refl(st0, l0);
        assert(s + Seq::<i32>::empty() =~= s);
    }
    let mut sorted: Vec<i32> = Vec::with_capacity(n);
    let mut i: usize = 0;
    while i < n
        invariant
            n == s.len(),
            a@ == s,
            i <= n,
            sorted@ == s.take(i as int),
        decreases n - i,
    {
        sorted.push(a[i]);
        i += 1;
        proof {
            assert(sorted@ =~= s.take(i as int));
        }
    }
    proof {
        assert(s.take(n as int) =~= s);
    }
    insertion_sort(&mut sorted);
    let ghost so = sorted@;
    proof {
        vstd::seq_lib::to_multiset_len(so);
        vstd::seq_lib::to_multiset_len(s);
        lemma_same_contents_no_dup(so, s);
    }
    let n_chunks: usize = if n < 8 {
        n
    } else if n <= 100 {
        8
    } else {
        15
    };
    let ghost k = n_chunks as int;
    let mut chunk: usize = 0;
    proof {
        lemma_chunk_start(n as int, k, 0);
        assert forall|p: int| 0 <= p < a@.len() implies so[chunk_start(n as int, k, 0)] <= #[trigger] a@[p] by {
            assert(a@ + b@ =~= a@);
            assert(a@.contains(a@[p]));
            let j = crate::ranking::lemma_index_in(a@, b@, so, a@[p]);
            assert(so[0] <= so[j]);
        }
    }
    while chunk < n_chunks
        invariant
            n == s.len(),
            6 <= n,
            n * 16 <= usize::MAX,
            1 <= n_chunks <= 15,
            n_chunks <= n,
            k == n_chunks,
            s.no_duplicates(),
            st0 == (s, Seq::<i32>::empty()),
            s + Seq::<i32>::empty() == s,
            sorted@ == so,
            so.len() == n,
            ascending(so),
            so.to_multiset() == s.to_multiset(),
            chunk <= n_chunks,
            chunk < k || a@.len() == 0,
            chunk < k ==> forall|p: int| 0 <= p < a@.len() ==> so[chunk_start(n as int, k, chunk as int)] <= #[trigger] a@[p],
            replays(st0, l0, log@, (a@, b@)),
        decreases n_chunks - chunk,
    {
        proof {
            lemma_chunk_start(n as int, k, chunk as int);
            assert(chunk * n <= (chunk + 1) * n <= n * 16) by (nonlinear_arith)
                requires
                    chunk + 1 <= 16,
                    0 <= chunk,
                    0 <= n,
            ;
        }
        let start = chunk * n / n_chunks;
        let end = (chunk + 1) * n / n_chunks;
        let low = sorted[start];
        let high = sorted[end - 1];
        loop
            invariant
                n == s.len(),
                st0 == (s, Seq::<i32>::empty()),
                s + Seq::<i32>::empty() == s,
                s.no_duplicates(),
                so.len() == n,
                ascending(so),
                so.to_multiset() == s.to_multiset(),
                low == so[start as int],
                forall|p: int| 0 <= p < a@.len() ==> low <= #[trigger] a@[p],
                replays(st0, l0, log@, (a@, b@)),
            ensures
                forall|p: int| 0 <= p < a@.len() ==> low <= #[trigger] a@[p] && !(a@[p] <= high),
            decreases a@.len(),
        {
            let pos = find_in_range(a, low, high);
            if pos >= a.len() {
                break;
            }
            let ghost a1 = a@;
            let ghost l1 = log@;
            rotate_to_top(a, pos, log);
            proof {
                lemma_replays_a_at(a1, l1, log@, a@, b@);
                lemma_replays_trans(st0, l0, l1, (a1, b@), log@, (a@, b@));
                assert forall|p: int| 0 <= p < a@.len() implies low <= #[trigger] a@[p] by {
                    if p < a1.len() - pos {
                        assert(a@[p] == a1[pos + p]);
                    } else {
                        assert(a@[p] == a1[p - (a1.len() - pos)]);
                    }
                }
            }
            let ghost a2 = a@;
            let ghost b2 = b@;
            let ghost l2 = log@;
            pb(a, b, log);
            proof {
                lemma_replays_trans(st0, l0, l2, (a2, b2), log@, (a@, b@));
                assert forall|p: int| 0 <= p < a@.len() implies low <= #[trigger] a@[p] by {
                    assert(a@[p] == a2[p + 1]);
                }
            }
        }
        proof {
            lemma_replays_content(st0, l0, log@, (a@, b@));
            assert forall|p: int| 0 <= p < a@.len() implies chunk + 1 < k && so[chunk_start(n as int, k, chunk + 1)] <= #[trigger] a@[p] by {
                assert(a@.contains(a@[p]));
                let j = crate::ranking::lemma_index_in(a@, b@, so, a@[p]);
                let e = chunk_start(n as int, k, chunk + 1);
                assert(high == so[e - 1]);
                if j <= e - 1 {
                    assert(so[j] <= so[e - 1]);
                }
                if chunk + 1 == k {
                    assert(e == n);
                }
            }
            if a@.len() > 0 {
                assert(chunk + 1 < k && so[chunk_start(n as int, k, chunk + 1)] <= a@[0]) by {
                    assert(a@.contains(a@[0]));
                    let j = crate::ranking::lemma_index_in(a@, b@, so, a@[0]);
                    let e = chunk_start(n as int, k, chunk + 1);
                    assert(high == so[e - 1]);
                    if j <= e - 1 {
                        assert(so[j] <= so[e - 1]);
                    }
                    if chunk + 1 == k {
                        assert(e == n);
                    }
                }
            }
        }
        chunk += 1;
    }
    proof {
        lemma_replays_content(st0, l0, log@, (a@, b@));
        assert(a@.len() == 0);
        assert forall|q: int| 0 <= q < b@.len() implies #[trigger] b@[q] <= so[n - 1] by {
            assert(b@.contains(b@[q]));
            let j = crate::ranking::lemma_index_in(a@, b@, so, b@[q]);
        }
        lemma_chunk_start(n as int, k, k - 1);
    }
    let mut chunk = n_chunks;
    while chunk > 0
        invariant
            n == s.len(),
            6 <= n,
            n * 16 <= usize::MAX,
            1 <= n_chunks <= 15,
            n_chunks <= n,
            k == n_chunks,
            s.no_duplicates(),
            st0 == (s, Seq::<i32>::empty()),
            s + Seq::<i32>::empty() == s,
            sorted@ == so,
            so.len() == n,
            ascending(so),
            so.to_multiset() == s.to_multiset(),
            chunk <= n_chunks,
            chunk == 0 ==> b@.len() == 0,
            chunk > 0 ==> forall|q: int| 0 <= q < b@.len() ==> #[trigger] b@[q] <= so[chunk_start(n as int, k, chunk as int) - 1],
            ascending(a@),
            forall|q: int, p: int| 0 <= q < b@.len() && 0 <= p < a@.len() ==> b@[q] < a@[p],
            replays(st0, l0, log@, (a@, b@)),
        decreases chunk,
    {
        chunk -= 1;
        proof {
            lemma_chunk_start(n as int, k, chunk as int);
            assert(chunk * n <= (chunk + 1) * n <= n * 16) by (nonlinear_arith)
                requires
                    chunk + 1 <= 16,
                    0 <= chunk,
                    0 <= n,
            ;
        }
        let start = chunk * n / n_chunks;
        let end = (chunk + 1) * n / n_chunks;
        let low = sorted[start];
        let high = sorted[end - 1];
        loop
            invariant
                n == s.len(),
                st0 == (s, Seq::<i32>::empty()),
                s + Seq::<i32>::empty() == s,
                s.no_duplicates(),
                so.len() == n,
                ascending(so),
                so.to_multiset() == s.to_multiset(),
                low == so[start as int],
                forall|q: int| 0 <= q < b@.len() ==> #[trigger] b@[q] <= high,
                ascending(a@),
                forall|q: int, p: int| 0 <= q < b@.len() && 0 <= p < a@.len() ==> b@[q] < a@[p],
                replays(st0, l0, log@, (a@, b@)),
            ensures
                forall|q: int| 0 <= q < b@.len() ==> #[trigger] b@[q] < low,
                ascending(a@),
                forall|q: int, p: int| 0 <= q < b@.len() && 0 <= p < a@.len() ==> b@[q] < a@[p],
            decreases b@.len(),
        {
            proof {
                lemma_replays_content(st0, l0, log@, (a@, b@));
                lemma_same_contents_no_dup(a@ + b@, s);
                crate::ranking::lemma_split_no_dup(a@, b@);
            }
            let pos = find_max_in_range(b, low, high);
            if pos >= b.len() {
                break;
            }
            let ghost b1 = b@;
            let ghost l1 = log@;
            rotate_to_top_b(b, pos, log);
            proof {
                lemma_replays_b_at(b1, l1, log@, b@, a@);
                lemma_replays_trans(st0, l0, l1, (a@, b1), log@, (a@, b@));
                assert forall|q: int| 0 <= q < b@.len() implies #[trigger] b@[q] == b1[if q < b1.len() - pos { pos + q } else { q - (b1.len() - pos) }] by {
                }
                assert forall|q: int| 1 <= q < b@.len() implies #[trigger] b@[q] < b@[0] by {
                    let q1 = if q < b1.len() - pos { pos + q } else { q - (b1.len() - pos) };
                    assert(b@[q] == b1[q1]);
                    assert(q1 != pos);
                }
            }
            let ghost a2 = a@;
            let ghost b2 = b@;
            let ghost l2 = log@;
            pa(b, a, log);
            proof {
                lemma_replays_trans(st0, l0, l2, (a2, b2), log@, (a@, b@));
                assert forall|q: int| 0 <= q < b@.len() implies #[trigger] b@[q] <= high by {
                    assert(b@[q] == b2[q + 1]);
                }
                assert forall|q: int, p: int| 0 <= q < b@.len() && 0 <= p < a@.len() implies b@[q] < a@[p] by {
                    assert(b@[q] == b2[q + 1]);
                    if p > 0 {
                        assert(a@[p] == a2[p - 1]);
                    }
                }
            }
        }
        proof {
            lemma_replays_content(st0, l0, log@, (a@, b@));
            if chunk == 0 {
                assert(b@.len() == 0) by {
                    if b@.len() > 0 {
                        assert(b@.contains(b@[0]));
                        let j = crate::ranking::lemma_index_in(a@, b@, so, b@[0]);
                        assert(so[0] <= so[j]);
                    }
                }
            } else {
                assert forall|q: int| 0 <= q < b@.len() implies #[trigger] b@[q] <= so[chunk_start(n as int, k, chunk as int) - 1] by {
                    assert(b@.contains(b@[q]));
                    let j = crate::ranking::lemma_index_in(a@, b@, so, b@[q]);
                    let e = chunk_start(n as int, k, chunk as int);
                    if j >= e {
                        assert(so[e] <= so[j]);
                    }
                    assert(so[j] <= so[e - 1]);
                }
            }
        }
    }
    let min_pos = index_of_min(a);
    let ghost st3 = (a@, b@);
    let ghost l3 = log@;
    proof {
        if min_pos > 0 {
            assert(a@[0] > a@[min_pos as int]);
        }
        lemma_rot_by_ends(a@);
    }
    rotate_to_top(a, min_pos, log);
    proof {
        lemma_replays_a_at(st3.0, l3, log@, a@, b@);
        lemma_replays_trans(st0, l0, l3, st3, log@, (a@, b@));
    }
}

/// The operations that sort distinct values: none when they are already in
/// order; the small sorts for two to five values; the chunks otherwise.
pub fn solve(values: Vec<i32>) -> (ops: Vec<Op>)
    requires
        values@.no_duplicates(),
        values@.len() * 16 <= usize::MAX,
    ensures
        sorts(values@, ops@),
        ascending(values@) ==> ops@.len() == 0,
        values@.len() <= 5 ==> ops@.len() <= 12,
{
    let mut log: Vec<Op> = Vec::new();
    let ghost e = Seq::<i32>::empty();
    let ghost v = values@;
    let numbers = values;
    if numbers.is_empty() {
        proof {
            assert(v.to_multiset() =~= e.to_multiset()) by {
                assert(v =~= e);
            }
        }
        return log;
    }
    if is_sorted(numbers.as_slice()) {
        proof {
            crate::ranking::lemma_nondecreasing_distinct(v);
        }
        return log;
    }
    let mut stack_a = numbers;
    let mut stack_b: Vec<i32> = Vec::new();
    let len = stack_a.len();
    proof {
        lemma_replays_refl((v, e), log@);
    }
    if len == 2 {
        if stack_a[0] > stack_a[1] {
            let ghost a1 = stack_a@;
            swap_first_two(&mut stack_a, &mut log);
            proof {
                lemma_replays_a_at(a1, Seq::<Op>::empty(), log@, stack_a@, stack_b@);
            }
        }
    } else if len == 3 {
        let ghost a1 = stack_a@;
        solve3(&mut stack_a, &mut log);
        proof {
            lemma_replays_a_at(a1, Seq::<Op>::empty(), log@, stack_a@, stack_b@);
        }
    } else if len == 4 {
        solve4(&mut stack_a, &mut stack_b, &mut log);
    } else if len == 5 {
        solve5(&mut stack_a, &mut stack_b, &mut log);
    } else {
        solve_large(&mut stack_a, &mut stack_b, len, &mut log);
    }
    proof {
        crate::machine::lemma_sorts_from_replays(v, log@, stack_a@, stack_b@);
    }
    log
}

} // verus!
