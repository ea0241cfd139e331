//! Sorting by ranks: the values are replaced by their ranks `0 .. n`; up to
//! five elements are sorted by pushing the smallest ranks to b, more by a
//! radix sort over the bits of the ranks.
use vstd::prelude::*;
use vstd::arithmetic::power2::{pow2, lemma_pow2_pos, lemma_pow2_unfold, lemma_pow2_strictly_increases};
use crate::machine::{
    Op, a_moves_appended, ascending, ops_appended, radix_op, content, lemma_replays_a_content, lemma_replays_a_refl, lemma_replays_a_trans,
    lemma_replays_content, lemma_replays_push, lemma_replays_refl, lemma_replays_trans, lemma_rot_by_ends,
    lemma_rot_down_by, lemma_rot_up_by, replays, replays_a, rot_by, rot_down, rot_up, run, sorts, swap_top,
};
use crate::radix::{
    bit, keep_bit, keys_within, lemma_keep_bit_take, lemma_partition_sorted, lemma_sorted_low_full,
    lemma_sorted_low_zero, partition, sorted_low,
};
use crate::ranking::{
    count_below, find, is_rank_perm, lemma_count_below_bound, lemma_count_below_take, lemma_find,
    lemma_perm_split, lemma_ranks_ordered, lemma_ranks_perm, lemma_same_contents_no_dup,
    lemma_sorting_ranks_sorts, nondecreasing, rank_in, within,
};
use crate::text::{
    all_read, arg_word_list, arg_words, parse_i32_std, read_value, text_words,
};
use crate::tokens::{all_digits, byte_code, char_code, is_digit_code, is_int_token, parse_i32_of, unsigned_part};
use vstd::string::StringSliceAdditionalSpecFns;
use vstd::utf8::encode_utf8;

verus! {

/// Whether the bytes of `s` are an optional `+` or `-` followed by one or
/// more decimal digits.
pub fn valid_token(s: &str) -> (r: bool)
    ensures
        r == is_int_token(s.spec_bytes(), byte_code()),
{
    let bytes = s.as_bytes();
    let ghost t = bytes@;
    let ghost code = byte_code();
    let mut i: usize = 0;
    if bytes.len() == 0 {
        return false;
    }
    if bytes[0] == 43u8 || bytes[0] == 45u8 {
        if bytes.len() == 1 {
            return false;
        }
        i = 1;
    }
    let ghost start = i as int;
    let ghost u = unsigned_part(t, code);
    proof {
        assert(u =~= t.skip(start));
    }
    while i < bytes.len()
        invariant
            t == bytes@,
            code == byte_code(),
            u == unsigned_part(t, code),
            u == t.skip(start),
            u.len() == t.len() - start,
            t == s.spec_bytes(),
            start <= i <= t.len(),
            start < t.len(),
            forall|k: int| 0 <= k < i - start ==> is_digit_code(code(#[trigger] u[k])),
        decreases t.len() - i,
    {
        if bytes[i] < 48u8 || bytes[i] > 57u8 {
            proof {
                assert(u[i - start] == bytes@[i as int]);
                assert(!is_digit_code(code(u[i - start])));
                assert(!all_digits(u, code));
                assert(!is_int_token(t, code));
            }
            return false;
        }
        proof {
            assert(u[i - start] == bytes@[i as int]);
        }
        i += 1;
    }
    true
}

/// How a word is read: it must pass [`valid_token`] and then be read by the
/// standard library as an `i32`.
pub open spec fn word_read() -> spec_fn(Seq<char>) -> Option<i32> {
    |t: Seq<char>|
        if is_int_token(encode_utf8(t), byte_code()) {
            parse_i32_of(t, char_code())
        } else {
            None
        }
}

/// Read the numbers of the arguments: every argument must hold at least one
/// word, split at white space; every word must be an `i32`; no number may
/// come twice. `None` stands for the error.
pub fn read_values(args: &Vec<String>) -> (r: Option<Vec<i32>>)
    ensures
        r is Some <==> ((forall|i: int| 0 <= i < args@.len() ==> (#[trigger] args@[i])@.len() > 0 && text_words(args@[i]@).len() > 0)
            && all_read(arg_words(args@), word_read()) && crate::text::word_values(arg_words(args@), word_read()).no_duplicates()),
        r is Some ==> r->0@ == crate::text::word_values(arg_words(args@), word_read()),
        crate::text::has_stray_char(args@) ==> r is None,
{
    proof {
        if crate::text::has_stray_char(args@) {
            crate::text::lemma_has_stray_char(args@);
            let aw = arg_words(args@);
            let k = choose|k: int| 0 <= k < aw.len() && !is_int_token(#[trigger] aw[k], char_code());
            assert(word_read()(aw[k]) is None);
        }
    }
    let mut i: usize = 0;
    while i < args.len()
        invariant
            i <= args@.len(),
            forall|k: int| 0 <= k < i ==> (#[trigger] args@[k])@.len() > 0 && text_words(args@[k]@).len() > 0,
        decreases args@.len() - i,
    {
        if args[i].as_str().is_empty() {
            return None;
        }
        let toks = crate::text::split_whitespace(args[i].as_str());
        if toks.len() == 0 {
            return None;
        }
        i += 1;
    }
    let tokens = arg_word_list(args.as_slice());
    let ghost aw = arg_words(args@);
    let ghost rd = word_read();
    let mut values: Vec<i32> = Vec::new();
    let mut j: usize = 0;
    proof {
        assert(aw.take(0) =~= Seq::<Seq<char>>::empty());
        assert(crate::text::word_values(aw.take(0), rd) =~= Seq::<i32>::empty());
    }
    while j < tokens.len()
        invariant
            tokens@.len() == aw.len(),
            forall|k: int| 0 <= k < tokens@.len() ==> (#[trigger] tokens@[k])@ == aw[k],
            rd == word_read(),
            aw == arg_words(args@),
            forall|k: int| 0 <= k < args@.len() ==> (#[trigger] args@[k])@.len() > 0 && text_words(args@[k]@).len() > 0,
            j <= tokens@.len(),
            all_read(aw.take(j as int), rd),
            values@ == crate::text::word_values(aw.take(j as int), rd),
            values@.no_duplicates(),
        decreases tokens@.len() - j,
    {
        let token = tokens[j];
        if !valid_token(token) {
            proof {
                assert(rd(aw[j as int]) is None);
            }
            return None;
        }
        let value = match parse_i32_std(token) {
            Some(v) => v,
            None => {
                proof {
                    assert(rd(aw[j as int]) is None);
                }
                return None;
            },
        };
        proof {
            assert(rd(aw[j as int]) == Some(value));
        }
        let mut k: usize = 0;
        while k < values.len()
            invariant
                k <= values@.len(),
                forall|q: int| 0 <= q < k ==> #[trigger] values@[q] != value,
                j < aw.len(),
                tokens@.len() == aw.len(),
                rd == word_read(),
                aw == arg_words(args@),
                rd(aw[j as int]) == Some(value),
                values@ == crate::text::word_values(aw.take(j as int), rd),
            decreases values@.len() - k,
        {
            if values[k] == value {
                proof {
                    crate::text::lemma_read_twice(aw, rd, j as int, k as int, value);
                }
                return None;
            }
            k += 1;
        }
        values.push(value);
        proof {
            assert(aw.take(j + 1) =~= aw.take(j as int).push(aw[j as int]));
            assert(values@ =~= crate::text::word_values(aw.take(j + 1), rd));
            assert forall|q: int| 0 <= q < aw.take(j + 1).len() implies #[trigger] rd(aw.take(j + 1)[q]) is Some by {
                if q < j {
                    assert(aw.take(j + 1)[q] == aw.take(j as int)[q]);
                }
            }
        }
        j += 1;
    }
    proof {
        assert(aw.take(aw.len() as int) =~= aw);
    }
    Some(values)
}

/// The rank of each value: how many of the values are below it.
pub fn ranks(values: &Vec<i32>) -> (out: Vec<i32>)
    requires
        values@.len() <= i32::MAX,
    ensures
        out@ == values@.map_values(rank_in(values@)),
{
    let mut out: Vec<i32> = Vec::new();
    let mut i: usize = 0;
    while i < values.len()
        invariant
            i <= values@.len(),
            values@.len() <= i32::MAX,
            out@.len() == i,
            forall|k: int| 0 <= k < i ==> out@[k] == count_below(values@, values@[k]) as i32,
        decreases values@.len() - i,
    {
        let mut rank: i32 = 0;
        let mut j: usize = 0;
        while j < values.len()
            invariant
                j <= values@.len(),
                i < values@.len(),
                values@.len() <= i32::MAX,
                rank == count_below(values@.take(j as int), values@[i as int]),
            decreases values@.len() - j,
        {
            proof {
                lemma_count_below_take(values@, values@[i as int], j as int);
                lemma_count_below_bound(values@.take(j as int), values@[i as int]);
            }
            if values[j] < values[i] {
                rank += 1;
            }
            j += 1;
        }
        proof {
            assert(values@.take(values@.len() as int) =~= values@);
        }
        out.push(rank);
        i += 1;
    }
    proof {
        assert(out@ =~= values@.map_values(rank_in(values@)));
    }
    out
}

/// Whether each element is at most the next one.
pub fn ordered(a: &Vec<i32>) -> (r: bool)
    ensures
        r == nondecreasing(a@),
{
    let mut i: usize = 1;
    while i < a.len()
        invariant
            1 <= i,
            i <= a@.len() || a@.len() == 0,
            forall|p: int, q: int| 0 <= p < q < i && q < a@.len() ==> a@[p] <= a@[q],
        decreases a@.len() - i,
    {
        if a[i - 1] > a[i] {
            return false;
        }
        i += 1;
    }
    true
}

/// `sa`, recorded in the log.
pub fn op_sa(a: &mut Vec<i32>, log: &mut Vec<Op>)
    ensures
        final(a)@ == swap_top(old(a)@),
        final(log)@ == old(log)@.push(Op::Sa),
        replays_a(old(a)@, old(log)@, final(log)@, final(a)@),
{
    let ghost a0 = a@;
    proof {
        lemma_replays_a_refl(a0, log@);
        crate::machine::lemma_replays_a_push(a0, log@, log@, a0, Op::Sa);
    }
    if a.len() > 1 {
        let x = a[0];
        let y = a[1];
        a.set(0, y);
        a.set(1, x);
    }
    proof {
        assert(a@ =~= swap_top(a0));
    }
    log.push(Op::Sa);
}

/// `pa`, recorded in the log.
pub fn op_pa(a: &mut Vec<i32>, b: &mut Vec<i32>, log: &mut Vec<Op>)
    ensures
        replays((old(a)@, old(b)@), old(log)@, final(log)@, (final(a)@, final(b)@)),
        (final(a)@, final(b)@) == crate::machine::step((old(a)@, old(b)@), Op::Pa),
        final(log)@ == old(log)@.push(Op::Pa),
{
    let ghost st = (a@, b@);
    proof {
        lemma_replays_refl(st, log@);
        lemma_replays_push(st, log@, log@, st, Op::Pa);
    }
    if b.len() > 0 {
        let v = b.remove(0);
        a.insert(0, v);
        proof {
            assert(a@ =~= seq![st.1[0]] + st.0);
            assert(b@ =~= st.1.drop_first());
        }
    }
    log.push(Op::Pa);
}

/// `pb`, recorded in the log.
pub fn op_pb(a: &mut Vec<i32>, b: &mut Vec<i32>, log: &mut Vec<Op>)
    ensures
        replays((old(a)@, old(b)@), old(log)@, final(log)@, (final(a)@, final(b)@)),
        (final(a)@, final(b)@) == crate::machine::step((old(a)@, old(b)@), Op::Pb),
        final(log)@ == old(log)@.push(Op::Pb),
{
    let ghost st = (a@, b@);
    proof {
        lemma_replays_refl(st, log@);
        lemma_replays_push(st, log@, log@, st, Op::Pb);
    }
    if a.len() > 0 {
        let v = a.remove(0);
        b.insert(0, v);
        proof {
            assert(b@ =~= seq![st.0[0]] + st.1);
            assert(a@ =~= st.0.drop_first());
        }
    }
    log.push(Op::Pb);
}

/// `ra`, recorded in the log.
pub fn op_ra(a: &mut Vec<i32>, log: &mut Vec<Op>)
    ensures
        final(a)@ == rot_up(old(a)@),
        final(log)@ == old(log)@.push(Op::Ra),
        replays_a(old(a)@, old(log)@, final(log)@, final(a)@),
{
    let ghost a0 = a@;
    proof {
        lemma_replays_a_refl(a0, log@);
        crate::machine::lemma_replays_a_push(a0, log@, log@, a0, Op::Ra);
    }
    if a.len() > 1 {
        let v = a.remove(0);
        a.push(v);
        proof {
            assert(a@ =~= rot_up(a0));
        }
    }
    log.push(Op::Ra);
}

/// `rra`, recorded in the log.
pub fn op_rra(a: &mut Vec<i32>, log: &mut Vec<Op>)
    ensures
        final(a)@ == rot_down(old(a)@),
        final(log)@ == old(log)@.push(Op::Rra),
        replays_a(old(a)@, old(log)@, final(log)@, final(a)@),
{
    let ghost a0 = a@;
    proof {
        lemma_replays_a_refl(a0, log@);
        crate::machine::lemma_replays_a_push(a0, log@, log@, a0, Op::Rra);
    }
    if a.len() > 1 {
        let last = a.len() - 1;
        let v = a.remove(last);
        a.insert(0, v);
        proof {
            assert(a@ =~= rot_down(a0));
        }
    }
    log.push(Op::Rra);
}

/// Sort three distinct elements of a with at most two operations.
pub fn three(a: &mut Vec<i32>, log: &mut Vec<Op>)
    requires
        old(a)@.len() == 3,
        old(a)@.no_duplicates(),
    ensures
        final(a)@.len() == 3,
        ascending(final(a)@),
        final(a)@.to_multiset() == old(a)@.to_multiset(),
        replays_a(old(a)@, old(log)@, final(log)@, final(a)@),
        final(log)@.len() <= old(log)@.len() + 2,
        a_moves_appended(old(log)@, final(log)@),
        ascending(old(a)@) ==> final(log)@ == old(log)@ && final(a)@ == old(a)@,
{
    let ghost a0 = a@;
    let ghost l0 = log@;
    proof {
        crate::machine::lemma_a_moves_refl(l0);
    }
    proof {
        lemma_replays_a_refl(a0, l0);
    }
    let x = a[0];
    let y = a[1];
    let z = a[2];
    if x < y && y < z {
        return;
    }
    if x > y && y < z && x < z {
        let ghost lb = log@;
        op_sa(a, log);
        proof {
            crate::machine::lemma_a_moves_push(l0, lb, Op::Sa);
        }
    } else if x > y && y > z {
        let ghost lb = log@;
        op_sa(a, log);
        proof {
            crate::machine::lemma_a_moves_push(l0, lb, Op::Sa);
        }
        let ghost a1 = a@;
        let ghost l1 = log@;
        let ghost lb = log@;
        op_rra(a, log);
        proof {
            crate::machine::lemma_a_moves_push(l0, lb, Op::Rra);
        }
        proof {
            lemma_replays_a_trans(a0, l0, l1, a1, log@, a@);
        }
    } else if x > y && y < z && x > z {
        let ghost lb = log@;
        op_ra(a, log);
        proof {
            crate::machine::lemma_a_moves_push(l0, lb, Op::Ra);
        }
    } else if x < y && y > z && x < z {
        let ghost lb = log@;
        op_sa(a, log);
        proof {
            crate::machine::lemma_a_moves_push(l0, lb, Op::Sa);
        }
        let ghost a1 = a@;
        let ghost l1 = log@;
        let ghost lb = log@;
        op_ra(a, log);
        proof {
            crate::machine::lemma_a_moves_push(l0, lb, Op::Ra);
        }
        proof {
            lemma_replays_a_trans(a0, l0, l1, a1, log@, a@);
        }
    } else {
        let ghost lb = log@;
        op_rra(a, log);
        proof {
            crate::machine::lemma_a_moves_push(l0, lb, Op::Rra);
        }
    }
    proof {
        assert(a0[0] != a0[1] && a0[1] != a0[2] && a0[0] != a0[2]);
        assert(a@ =~= seq![a@[0], a@[1], a@[2]]);
        lemma_replays_a_content(a0, l0, log@, a@);
    }
}

/// The index of the first `target` in a, or the length of a when it is absent.
pub fn pos_of(a: &Vec<i32>, target: i32) -> (r: usize)
    ensures
        r == find(a@, target),
{
    proof {
        lemma_find(a@, target);
    }
    let mut i: usize = 0;
    while i < a.len()
        invariant
            i <= a@.len(),
            forall|k: int| 0 <= k < i ==> a@[k] != target,
            find(a@, target) <= a@.len(),
            find(a@, target) < a@.len() ==> a@[find(a@, target) as int] == target,
            forall|k: int| 0 <= k < find(a@, target) ==> a@[k] != target,
            find(a@, target) == a@.len() <==> !a@.contains(target),
        decreases a@.len() - i,
    {
        if a[i] == target {
            return i;
        }
        i += 1;
    }
    i
}

/// Rotate `target` to the top of a, the short way round.
pub fn bring_top(a: &mut Vec<i32>, target: i32, log: &mut Vec<Op>)
    ensures
        final(a)@ == rot_by(old(a)@, find(old(a)@, target) as int),
        replays_a(old(a)@, old(log)@, final(log)@, final(a)@),
        final(log)@.len() <= old(log)@.len() + old(a)@.len() / 2,
        a_moves_appended(old(log)@, final(log)@),
{
    let ghost a0 = a@;
    let ghost l0 = log@;
    proof {
        lemma_replays_a_refl(a0, l0);
        lemma_find(a0, target);
        lemma_rot_by_ends(a0);
        crate::machine::lemma_a_moves_refl(l0);
    }
    let p = pos_of(a, target);
    let len = a.len();
    if p <= len / 2 {
        let mut i: usize = 0;
        while i < p
            invariant
                i <= p,
                p <= len / 2,
                len == a0.len(),
                p == find(a0, target),
                a@ == rot_by(a0, i as int),
                replays_a(a0, l0, log@, a@),
                log@.len() == l0.len() + i,
                a_moves_appended(l0, log@),
            decreases p - i,
        {
            let ghost a1 = a@;
            let ghost l1 = log@;
            proof {
                lemma_rot_up_by(a0, i as int);
            }
            op_ra(a, log);
            proof {
                crate::machine::lemma_a_moves_push(l0, l1, Op::Ra);
                lemma_replays_a_trans(a0, l0, l1, a1, log@, a@);
            }
            i += 1;
        }
    } else {
        let mut i: usize = p;
        while i < len
            invariant
                p <= i <= len,
                len == a0.len(),
                p == find(a0, target),
                a@ == rot_by(a0, len - (i - p)),
                replays_a(a0, l0, log@, a@),
                len / 2 < p,
                log@.len() == l0.len() + (i - p),
                a_moves_appended(l0, log@),
            decreases len - i,
        {
            let ghost a1 = a@;
            let ghost l1 = log@;
            proof {
                lemma_rot_down_by(a0, len - (i - p));
            }
            op_rra(a, log);
            proof {
                crate::machine::lemma_a_moves_push(l0, l1, Op::Rra);
                lemma_replays_a_trans(a0, l0, l1, a1, log@, a@);
            }
            i += 1;
        }
    }
}

/// Sort up to five ranks: the smallest ranks go to b one by one, the last
/// three are sorted in place, and b comes back.
pub fn small(a: &mut Vec<i32>, b: &mut Vec<i32>, log: &mut Vec<Op>)
    requires
        is_rank_perm(old(a)@),
        old(b)@.len() == 0,
        2 <= old(a)@.len() <= i32::MAX,
    ensures
        final(b)@.len() == 0,
        ascending(final(a)@),
        replays((old(a)@, old(b)@), old(log)@, final(log)@, (final(a)@, final(b)@)),
        old(a)@.len() <= 5 ==> final(log)@.len() <= old(log)@.len() + 12,
        old(a)@.len() <= 3 ==> final(log)@.len() <= old(log)@.len() + 2,
{
    let ghost s = a@;
    let ghost st0 = (a@, b@);
    let ghost l0 = log@;
    proof {
        lemma_replays_refl(st0, l0);
    }
    let n = a.len();
    if n == 2 {
        if a[0] > a[1] {
            let ghost a1 = a@;
            op_sa(a, log);
            proof {
                crate::machine::lemma_replays_a_at(a1, l0, log@, a@, b@);
            }
        }
        proof {
            assert(s[0] != s[1]);
        }
    } else if n == 3 {
        let ghost a1 = a@;
        three(a, log);
        proof {
            crate::machine::lemma_replays_a_at(a1, l0, log@, a@, b@);
        }
    } else {
        let keep = n - 3;
        let mut target: i32 = 0;
        while target < keep as i32
            invariant
                n == s.len(),
                3 < n <= i32::MAX,
                keep == n - 3,
                is_rank_perm(s),
                st0 == (s, Seq::<i32>::empty()),
                0 <= target <= keep,
                a@.len() + b@.len() == n,
                b@ == Seq::new(target as nat, |k: int| (target - 1 - k) as i32),
                replays(st0, l0, log@, (a@, b@)),
                n <= 5 ==> log@.len() <= l0.len() + 3 * target,
            decreases keep - target,
        {
            proof {
                lemma_replays_content(st0, l0, log@, (a@, b@));
                assert(s + Seq::<i32>::empty() =~= s);
                lemma_perm_split(a@, b@, s);
                assert(!b@.contains(target)) by {
                    if b@.contains(target) {
                        let k = choose|k: int| 0 <= k < b@.len() && b@[k] == target;
                        assert(b@[k] == (target - 1 - k) as i32);
                    }
                }
                assert(a@.contains(target));
                lemma_find(a@, target);
            }
            let ghost a1 = a@;
            let ghost l1 = log@;
            bring_top(a, target, log);
            proof {
                crate::machine::lemma_replays_a_at(a1, l1, log@, a@, b@);
                lemma_replays_trans(st0, l0, l1, (a1, b@), log@, (a@, b@));
                assert(a@[0] == target);
            }
            let ghost a2 = a@;
            let ghost b2 = b@;
            let ghost l2 = log@;
            op_pb(a, b, log);
            proof {
                lemma_replays_trans(st0, l0, l2, (a2, b2), log@, (a@, b@));
                assert(b@ =~= Seq::new((target + 1) as nat, |k: int| (target + 1 - 1 - k) as i32));
            }
            target += 1;
        }
        proof {
            lemma_replays_content(st0, l0, log@, (a@, b@));
            assert(s + Seq::<i32>::empty() =~= s);
            lemma_perm_split(a@, b@, s);
            assert forall|i: int| 0 <= i < a@.len() implies a@[i] >= keep by {
                if a@[i] < keep {
                    let k = keep - 1 - a@[i];
                    assert(b@[k] == a@[i]);
                }
            }
        }
        let ghost a3 = a@;
        let ghost l3 = log@;
        three(a, log);
        proof {
            crate::machine::lemma_replays_a_at(a3, l3, log@, a@, b@);
            lemma_replays_trans(st0, l0, l3, (a3, b@), log@, (a@, b@));
            assert forall|i: int| 0 <= i < a@.len() implies a@[i] >= keep by {
                crate::ranking::lemma_member_of(a@, a3, i);
            }
        }
        while b.len() > 0
            invariant
                st0 == (s, Seq::<i32>::empty()),
                keep < i32::MAX,
                0 <= b@.len() <= keep,
                b@ == Seq::new(b@.len(), |k: int| (b@.len() - 1 - k) as i32),
                ascending(a@),
                forall|i: int| 0 <= i < a@.len() ==> a@[i] >= b@.len(),
                replays(st0, l0, log@, (a@, b@)),
                keep <= 2 ==> log@.len() + b@.len() <= l0.len() + 12,
            decreases b@.len(),
        {
            let ghost a2 = a@;
            let ghost b2 = b@;
            let ghost l2 = log@;
            op_pa(a, b, log);
            proof {
                lemma_replays_trans(st0, l0, l2, (a2, b2), log@, (a@, b@));
                assert(a@ == seq![b2[0]] + a2);
                assert(b2[0] == (b2.len() - 1) as i32);
                assert(b@ =~= Seq::new(b@.len(), |k: int| (b@.len() - 1 - k) as i32));
                assert forall|i: int| 0 <= i < a@.len() implies a@[i] >= b@.len() by {
                    if i > 0 {
                        assert(a@[i] == a2[i - 1]);
                    }
                }
            }
        }
    }
}

/// Radix sort of the ranks: for each bit from the lowest, the ranks with the
/// bit clear go to b and the others rotate under; then b comes back.
pub fn big(a: &mut Vec<i32>, b: &mut Vec<i32>, log: &mut Vec<Op>)
    requires
        is_rank_perm(old(a)@),
        old(b)@.len() == 0,
        1 <= old(a)@.len() <= i32::MAX,
    ensures
        final(b)@.len() == 0,
        ascending(final(a)@),
        replays((old(a)@, old(b)@), old(log)@, final(log)@, (final(a)@, final(b)@)),
        ops_appended(old(log)@, final(log)@, radix_op()),
        forall|k: nat| old(a)@.len() <= pow2(k) ==> final(log)@.len() <= old(log)@.len() + 2 * k * old(a)@.len(),
{
    let ghost s = a@;
    let ghost st0 = (a@, b@);
    let ghost l0 = log@;
    proof {
        lemma_replays_refl(st0, l0);
        crate::machine::lemma_ops_appended_refl(l0, radix_op());
        assert(s + Seq::<i32>::empty() =~= s);
    }
    let n = a.len();
    let mut max = n - 1;
    let mut bits: usize = 0;
    proof {
        vstd::arithmetic::power2::lemma2_to64();
    }
    while max > 0
        invariant
            1 <= n <= i32::MAX,
            bits <= 31,
            max as int == (n - 1) as int / (pow2(bits as nat) as int),
            bits > 0 ==> pow2((bits - 1) as nat) <= n - 1,
        decreases max,
    {
        proof {
            crate::radix::lemma_bits_step((n - 1) as int, bits as nat);
        }
        bits += 1;
        max = max / 2;
    }
    proof {
        crate::radix::lemma_bits_done((n - 1) as int, bits as nat);
    }
    let mut bit: usize = 0;
    proof {
        lemma_sorted_low_zero(a@, crate::radix::value_key());
    }
    while bit < bits
        invariant
            s.len() == n,
            1 <= n <= i32::MAX,
            bits <= 31,
            n - 1 < pow2(bits as nat),
            is_rank_perm(s),
            st0 == (s, Seq::<i32>::empty()),
            s + Seq::<i32>::empty() == s,
            bit <= bits,
            a@.len() == n,
            b@.len() == 0,
            sorted_low(a@, crate::radix::value_key(), bit as nat),
            replays(st0, l0, log@, (a@, b@)),
            bits > 0 ==> pow2((bits - 1) as nat) <= n - 1,
            log@.len() <= l0.len() + 2 * n * bit,
            ops_appended(l0, log@, radix_op()),
        decreases bits - bit,
    {
        let ghost key = crate::radix::value_key();
        let ghost sp = a@;
        proof {
            lemma_replays_content(st0, l0, log@, (a@, b@));
            lemma_perm_split(a@, b@, s);
            assert(keys_within(sp, key, n as int));
        }
        let mut i: usize = 0;
        let ghost lp = log@;
        while i < n
            invariant
                i <= n,
                sp.len() == n,
                bit < bits <= 31,
                keys_within(sp, crate::radix::value_key(), n as int),
                st0 == (s, Seq::<i32>::empty()),
                a@ == sp.skip(i as int) + keep_bit(sp.take(i as int), crate::radix::value_key(), bit as nat, 1),
                b@ == keep_bit(sp.take(i as int), crate::radix::value_key(), bit as nat, 0).reverse(),
                replays(st0, l0, log@, (a@, b@)),
                lp.len() <= l0.len() + 2 * n * bit,
                log@.len() <= lp.len() + i,
                b@.len() <= i,
                ops_appended(l0, log@, radix_op()),
            decreases n - i,
        {
            let ghost key = crate::radix::value_key();
            let ghost z = keep_bit(sp.take(i as int), key, bit as nat, 0);
            let ghost o = keep_bit(sp.take(i as int), key, bit as nat, 1);
            proof {
                assert(a@[0] == sp[i as int]);
                lemma_keep_bit_take(sp, key, bit as nat, 0, i as int);
                lemma_keep_bit_take(sp, key, bit as nat, 1, i as int);
                assert(0 <= key(sp[i as int]));
                crate::radix::lemma_low_step(key(sp[i as int]), bit as nat);
                crate::radix::lemma_shift_mask(sp[i as int], bit as u32);
            }
            let x = a[0];
            let ghost a1 = a@;
            let ghost b1 = b@;
            let ghost l1 = log@;
            if ((x as u32) >> (bit as u32)) & 1u32 == 0 {
                op_pb(a, b, log);
                proof {
                    crate::machine::lemma_ops_appended_step(l0, l1, log@, Op::Pb, radix_op());
                    lemma_replays_trans(st0, l0, l1, (a1, b1), log@, (a@, b@));
                    assert(a@ =~= sp.skip(i + 1) + keep_bit(sp.take(i + 1), key, bit as nat, 1));
                    assert(b@ =~= keep_bit(sp.take(i + 1), key, bit as nat, 0).reverse());
                }
            } else {
                op_ra(a, log);
                proof {
                    crate::machine::lemma_ops_appended_step(l0, l1, log@, Op::Ra, radix_op());
                    crate::machine::lemma_replays_a_at(a1, l1, log@, a@, b@);
                    lemma_replays_trans(st0, l0, l1, (a1, b1), log@, (a@, b@));
                    assert(a@ =~= sp.skip(i + 1) + keep_bit(sp.take(i + 1), key, bit as nat, 1));
                    assert(b@ =~= keep_bit(sp.take(i + 1), key, bit as nat, 0).reverse());
                }
            }
            i += 1;
        }
        let ghost z = keep_bit(sp, key, bit as nat, 0);
        let ghost o = keep_bit(sp, key, bit as nat, 1);
        proof {
            assert(sp.take(n as int) =~= sp);
            assert(sp.skip(n as int) =~= Seq::<i32>::empty());
            assert(a@ =~= z.skip(b@.len() as int) + o);
            assert(b@ =~= z.take(b@.len() as int).reverse());
        }
        while b.len() > 0
            invariant
                b@.len() <= z.len(),
                a@ == z.skip(b@.len() as int) + o,
                b@ == z.take(b@.len() as int).reverse(),
                replays(st0, l0, log@, (a@, b@)),
                lp.len() <= l0.len() + 2 * n * bit,
                log@.len() + b@.len() <= lp.len() + 2 * n,
                ops_appended(l0, log@, radix_op()),
            decreases b@.len(),
        {
            let ghost a1 = a@;
            let ghost b1 = b@;
            let ghost l1 = log@;
            op_pa(a, b, log);
            proof {
                crate::machine::lemma_ops_appended_step(l0, l1, log@, Op::Pa, radix_op());
                lemma_replays_trans(st0, l0, l1, (a1, b1), log@, (a@, b@));
                assert(a@ =~= z.skip(b@.len() as int) + o);
                assert(b@ =~= z.take(b@.len() as int).reverse());
            }
        }
        proof {
            assert(a@ =~= partition(sp, key, bit as nat));
            lemma_partition_sorted(sp, key, bit as nat, n as int);
            lemma_replays_content(st0, l0, log@, (a@, b@));
            assert(a@ + b@ =~= a@);
            vstd::seq_lib::to_multiset_len(a@);
            vstd::seq_lib::to_multiset_len(s);
        }
        proof {
            assert(2 * n * bit + 2 * n == 2 * n * (bit + 1)) by (nonlinear_arith);
        }
        bit += 1;
    }
    proof {
        let key = crate::radix::value_key();
        lemma_replays_content(st0, l0, log@, (a@, b@));
        lemma_perm_split(a@, b@, s);
        assert(keys_within(a@, key, pow2(bits as nat) as int));
        lemma_sorted_low_full(a@, key, bits as nat);
    }    proof {
        assert forall|k: nat| n <= pow2(k) implies log@.len() <= l0.len() + 2 * k * n by {
            crate::radix::lemma_bits_least((n - 1) as int, bits as nat, k);
            assert(2 * n * bits <= 2 * k * n) by (nonlinear_arith)
                requires
                    bits <= k,
                    n >= 0,
            ;
        }
    }
}

/// The operations that sort distinct values: none when they are already in
/// order, otherwise those that sort their ranks.
pub fn solve(values: &Vec<i32>) -> (ops: Vec<Op>)
    requires
        values@.no_duplicates(),
        values@.len() <= i32::MAX,
    ensures
        sorts(values@, ops@),
        ascending(values@) ==> ops@.len() == 0,
        values@.len() <= 5 ==> ops@.len() <= 12,
        values@.len() > 5 ==> forall|k: nat| values@.len() <= pow2(k) ==> ops@.len() <= 2 * k * values@.len(),
{
    let mut log: Vec<Op> = Vec::new();
    let ghost e = Seq::<i32>::empty();
    if values.len() == 0 {
        proof {
            assert(values@.to_multiset() =~= e.to_multiset()) by {
                assert(values@ =~= e);
            }
        }
        return log;
    }
    let mut a = ranks(values);
    let mut b: Vec<i32> = Vec::new();
    proof {
        lemma_ranks_perm(values@);
        lemma_ranks_ordered(values@);
    }
    if ordered(&a) {
        return log;
    }
    let ghost r = a@;
    if a.len() <= 5 {
        small(&mut a, &mut b, &mut log);
    } else {
        big(&mut a, &mut b, &mut log);
    }
    proof {
        assert(log@.skip(0) =~= log@);
        lemma_sorting_ranks_sorts(values@, log@);
    }
    log
}

} // verus!
