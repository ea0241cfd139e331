//! What a number token is, and the value it denotes. A token is read either
//! as bytes or as characters; `code` gives the numeric code of each.
use vstd::prelude::*;

verus! {

/// The code of a byte.
pub open spec fn byte_code() -> spec_fn(u8) -> int {
    |c: u8| c as int
}

/// The code of a character.
pub open spec fn char_code() -> spec_fn(char) -> int {
    |c: char| c as int
}

/// A decimal digit `0` to `9`.
pub open spec fn is_digit_code(c: int) -> bool {
    48 <= c <= 57
}

/// Every element of `t` is a decimal digit.
pub open spec fn all_digits<C>(t: Seq<C>, code: spec_fn(C) -> int) -> bool {
    forall|i: int| 0 <= i < t.len() ==> is_digit_code(code(#[trigger] t[i]))
}

/// The value of a string of decimal digits.
pub open spec fn digits_value<C>(t: Seq<C>, code: spec_fn(C) -> int) -> int
    decreases t.len(),
{
    if t.len() == 0 {
        0
    } else {
        digits_value(t.drop_last(), code) * 10 + (code(t.last()) - 48)
    }
}

/// The token starts with `+` or `-`.
pub open spec fn has_sign<C>(t: Seq<C>, code: spec_fn(C) -> int) -> bool {
    t.len() > 0 && (code(t[0]) == 43 || code(t[0]) == 45)
}

/// The digits of a token, after its sign if it has one.
pub open spec fn unsigned_part<C>(t: Seq<C>, code: spec_fn(C) -> int) -> Seq<C> {
    if has_sign(t, code) {
        t.drop_first()
    } else {
        t
    }
}

/// An optional `+` or `-` followed by one or more decimal digits.
pub open spec fn is_int_token<C>(t: Seq<C>, code: spec_fn(C) -> int) -> bool {
    let d = unsigned_part(t, code);
    d.len() > 0 && all_digits(d, code)
}

/// The value of an integer token.
pub open spec fn token_value<C>(t: Seq<C>, code: spec_fn(C) -> int) -> int {
    let v = digits_value(unsigned_part(t, code), code);
    if has_sign(t, code) && code(t[0]) == 45 {
        -v
    } else {
        v
    }
}

/// The `i32` a token denotes: none unless it is an integer token whose value
/// fits in an `i32`.
pub open spec fn parse_i32_of<C>(t: Seq<C>, code: spec_fn(C) -> int) -> Option<i32> {
    if is_int_token(t, code) && i32::MIN <= token_value(t, code) <= i32::MAX {
        Some(token_value(t, code) as i32)
    } else {
        None
    }
}

pub proof fn lemma_digits_value_take<C>(t: Seq<C>, code: spec_fn(C) -> int, k: int)
    requires
        0 <= k < t.len(),
    ensures
        digits_value(t.take(k + 1), code) == digits_value(t.take(k), code) * 10 + (code(t[k]) - 48),
{
    assert(t.take(k + 1).drop_last() =~= t.take(k));
}

/// Digits only add to the value: a string of digits is worth at least any of
/// its prefixes.
pub proof fn lemma_digits_value_prefix<C>(t: Seq<C>, code: spec_fn(C) -> int, k: int)
    requires
        all_digits(t, code),
        0 <= k <= t.len(),
    ensures
        0 <= digits_value(t.take(k), code) <= digits_value(t, code),
    decreases t.len(),
{
    if k == t.len() {
        assert(t.take(k) =~= t);
        lemma_digits_value_nonneg(t, code);
    } else {
        let u = t.drop_last();
        assert(all_digits(u, code)) by {
            assert forall|i: int| 0 <= i < u.len() implies is_digit_code(code(#[trigger] u[i])) by {
                assert(u[i] == t[i]);
            }
        }
        lemma_digits_value_prefix(u, code, k);
        assert(u.take(k) =~= t.take(k));
        assert(is_digit_code(code(t[t.len() - 1])));
    }
}

pub proof fn lemma_digits_value_nonneg<C>(t: Seq<C>, code: spec_fn(C) -> int)
    requires
        all_digits(t, code),
    ensures
        0 <= digits_value(t, code),
    decreases t.len(),
{
    if t.len() > 0 {
        let u = t.drop_last();
        assert(all_digits(u, code)) by {
            assert forall|i: int| 0 <= i < u.len() implies is_digit_code(code(#[trigger] u[i])) by {
                assert(u[i] == t[i]);
            }
        }
        lemma_digits_value_nonneg(u, code);
        assert(is_digit_code(code(t[t.len() - 1])));
    }
}

/// The digit characters of a token: a prefix of digits stays all digits.
pub proof fn lemma_all_digits_take<C>(t: Seq<C>, code: spec_fn(C) -> int, k: int)
    requires
        0 <= k <= t.len(),
        forall|i: int| 0 <= i < k ==> is_digit_code(code(#[trigger] t[i])),
    ensures
        all_digits(t.take(k), code),
{
    assert forall|i: int| 0 <= i < t.take(k).len() implies is_digit_code(code(#[trigger] t.take(k)[i])) by {
        assert(t.take(k)[i] == t[i]);
    }
}

/// The words of `t` scanned from the front with `cur` already read of the
/// current word: maximal runs of elements that are not separators.
pub open spec fn words_from<C>(t: Seq<C>, cur: Seq<C>, sep: spec_fn(C) -> bool) -> Seq<Seq<C>>
    decreases t.len(),
{
    if t.len() == 0 {
        if cur.len() > 0 {
            seq![cur]
        } else {
            Seq::empty()
        }
    } else if sep(t[0]) {
        (if cur.len() > 0 {
            seq![cur]
        } else {
            Seq::<Seq<C>>::empty()
        }) + words_from(t.drop_first(), Seq::empty(), sep)
    } else {
        words_from(t.drop_first(), cur.push(t[0]), sep)
    }
}

/// The words of `t`: its maximal runs of non-separators, in order.
pub open spec fn words<C>(t: Seq<C>, sep: spec_fn(C) -> bool) -> Seq<Seq<C>> {
    words_from(t, Seq::empty(), sep)
}

/// A separator at `j` ends the current word, if there is one.
pub proof fn lemma_words_sep<C>(t: Seq<C>, j: int, cur: Seq<C>, sep: spec_fn(C) -> bool)
    requires
        0 <= j < t.len(),
        sep(t[j]),
    ensures
        words_from(t.skip(j), cur, sep) == (if cur.len() > 0 {
            seq![cur]
        } else {
            Seq::<Seq<C>>::empty()
        }) + words_from(t.skip(j + 1), Seq::empty(), sep),
{
    assert(t.skip(j)[0] == t[j]);
    assert(t.skip(j).drop_first() =~= t.skip(j + 1));
}

/// A non-separator at `j` extends the current word.
pub proof fn lemma_words_char<C>(t: Seq<C>, j: int, cur: Seq<C>, sep: spec_fn(C) -> bool)
    requires
        0 <= j < t.len(),
        !sep(t[j]),
    ensures
        words_from(t.skip(j), cur, sep) == words_from(t.skip(j + 1), cur.push(t[j]), sep),
{
    assert(t.skip(j)[0] == t[j]);
    assert(t.skip(j).drop_first() =~= t.skip(j + 1));
}

/// A word ends at a separator or at the end.
pub proof fn lemma_words_end<C>(t: Seq<C>, j: int, cur: Seq<C>, sep: spec_fn(C) -> bool)
    requires
        0 <= j <= t.len(),
        j < t.len() ==> sep(t[j]),
        cur.len() > 0,
    ensures
        words_from(t.skip(j), cur, sep) == seq![cur] + words_from(t.skip(j), Seq::empty(), sep),
{
    if j == t.len() {
        assert(t.skip(j).len() == 0);
        assert(seq![cur] + Seq::<Seq<C>>::empty() =~= seq![cur]);
    } else {
        lemma_words_sep(t, j, cur, sep);
        lemma_words_sep(t, j, Seq::<C>::empty(), sep);
        assert(Seq::<Seq<C>>::empty() + words_from(t.skip(j + 1), Seq::empty(), sep) =~= words_from(t.skip(j + 1), Seq::empty(), sep));
    }
}

/// A sequence with no words left has only separators: at its end nothing
/// more is found.
pub proof fn lemma_words_done<C>(t: Seq<C>, sep: spec_fn(C) -> bool)
    ensures
        words_from(t.skip(t.len() as int), Seq::empty(), sep) == Seq::<Seq<C>>::empty(),
{
    assert(t.skip(t.len() as int).len() == 0);
}

/// Scanning on past a separator: what `s` holds, with `cur` already read,
/// then whatever follows the separator.
proof fn lemma_words_from_join<C>(s: Seq<C>, c: C, t: Seq<C>, cur: Seq<C>, sep: spec_fn(C) -> bool)
    requires
        sep(c),
    ensures
        words_from(s + seq![c] + t, cur, sep) == words_from(s, cur, sep) + words_from(t, Seq::empty(), sep),
    decreases s.len(),
{
    let whole = s + seq![c] + t;
    if s.len() == 0 {
        assert(whole =~= seq![c] + t);
        assert(whole[0] == c);
        assert(whole.drop_first() =~= t);
    } else {
        let x = s[0];
        let rest = s.drop_first();
        assert(whole[0] == x);
        assert(whole.drop_first() =~= rest + seq![c] + t);
        if sep(x) {
            lemma_words_from_join(rest, c, t, Seq::empty(), sep);
            let head = if cur.len() > 0 {
                seq![cur]
            } else {
                Seq::<Seq<C>>::empty()
            };
            assert(head + (words_from(rest, Seq::empty(), sep) + words_from(t, Seq::empty(), sep)) =~= (head
                + words_from(rest, Seq::empty(), sep)) + words_from(t, Seq::empty(), sep));
        } else {
            lemma_words_from_join(rest, c, t, cur.push(x), sep);
        }
    }
}

/// Two texts joined by a separator have the words of the first, then the
/// words of the second.
pub proof fn law_words_join<C>(s: Seq<C>, c: C, t: Seq<C>, sep: spec_fn(C) -> bool)
    requires
        sep(c),
    ensures
        words(s + seq![c] + t, sep) == words(s, sep) + words(t, sep),
{
    lemma_words_from_join(s, c, t, Seq::empty(), sep);
}

/// A token holding something other than a digit, past a leading sign, is no
/// integer token.
pub proof fn lemma_stray_not_int<C>(t: Seq<C>, code: spec_fn(C) -> int, m: int)
    requires
        0 <= m < t.len(),
        !is_digit_code(code(t[m])),
        code(t[m]) != 43,
        code(t[m]) != 45,
    ensures
        !is_int_token(t, code),
{
    let d = unsigned_part(t, code);
    if has_sign(t, code) {
        assert(m != 0);
        assert(d[m - 1] == t[m]);
    } else {
        assert(d[m] == t[m]);
    }
}

/// The word being read is the start of the first word found.
proof fn lemma_words_from_first<C>(t: Seq<C>, cur: Seq<C>, sep: spec_fn(C) -> bool)
    requires
        cur.len() > 0,
    ensures
        words_from(t, cur, sep).len() > 0,
        cur.len() <= words_from(t, cur, sep)[0].len(),
        forall|m: int| 0 <= m < cur.len() ==> words_from(t, cur, sep)[0][m] == #[trigger] cur[m],
    decreases t.len(),
{
    if t.len() > 0 && !sep(t[0]) {
        let c2 = cur.push(t[0]);
        lemma_words_from_first(t.drop_first(), c2, sep);
        assert forall|m: int| 0 <= m < cur.len() implies words_from(t, cur, sep)[0][m] == #[trigger] cur[m] by {
            assert(c2[m] == cur[m]);
        }
    }
}

/// Every element that is no separator lies in some word.
pub proof fn lemma_words_from_cover<C>(t: Seq<C>, cur: Seq<C>, sep: spec_fn(C) -> bool, j: int)
    requires
        0 <= j < t.len(),
        !sep(t[j]),
    ensures
        exists|k: int, m: int|
            0 <= k < words_from(t, cur, sep).len() && 0 <= m < words_from(t, cur, sep)[k].len()
                && #[trigger] words_from(t, cur, sep)[k][m] == t[j],
    decreases t.len(),
{
    let rest = t.drop_first();
    let wf = words_from(t, cur, sep);
    if sep(t[0]) {
        let head = if cur.len() > 0 {
            seq![cur]
        } else {
            Seq::<Seq<C>>::empty()
        };
        lemma_words_from_cover(rest, Seq::empty(), sep, j - 1);
        let r = words_from(rest, Seq::empty(), sep);
        let (k, m) = choose|k: int, m: int|
            0 <= k < r.len() && 0 <= m < r[k].len() && #[trigger] r[k][m] == rest[j - 1];
        assert(wf == head + r);
        assert(wf[head.len() + k] == r[k]);
        assert(wf[head.len() + k][m] == t[j]);
    } else if j == 0 {
        let c2 = cur.push(t[0]);
        lemma_words_from_first(rest, c2, sep);
        assert(c2[cur.len() as int] == t[0]);
        assert(wf[0][cur.len() as int] == t[j]);
    } else {
        lemma_words_from_cover(rest, cur.push(t[0]), sep, j - 1);
        assert(rest[j - 1] == t[j]);
    }
}

/// No word holds a separator, when the word being read holds none.
pub proof fn lemma_words_from_no_sep<C>(t: Seq<C>, cur: Seq<C>, sep: spec_fn(C) -> bool)
    requires
        forall|m: int| 0 <= m < cur.len() ==> !sep(#[trigger] cur[m]),
    ensures
        forall|k: int, m: int|
            0 <= k < words_from(t, cur, sep).len() && 0 <= m < words_from(t, cur, sep)[k].len()
                ==> !sep(#[trigger] words_from(t, cur, sep)[k][m]),
    decreases t.len(),
{
    let wf = words_from(t, cur, sep);
    if t.len() == 0 {
        assert forall|k: int, m: int| 0 <= k < wf.len() && 0 <= m < wf[k].len() implies !sep(
            #[trigger] wf[k][m],
        ) by {
            assert(wf[k] == cur);
        }
    } else if sep(t[0]) {
        let head = if cur.len() > 0 {
            seq![cur]
        } else {
            Seq::<Seq<C>>::empty()
        };
        let r = words_from(t.drop_first(), Seq::empty(), sep);
        lemma_words_from_no_sep(t.drop_first(), Seq::empty(), sep);
        assert(wf == head + r);
        assert forall|k: int, m: int| 0 <= k < wf.len() && 0 <= m < wf[k].len() implies !sep(
            #[trigger] wf[k][m],
        ) by {
            if k < head.len() {
                assert(wf[k] == cur);
            } else {
                assert(wf[k] == r[k - head.len()]);
            }
        }
    } else {
        let c2 = cur.push(t[0]);
        assert forall|m: int| 0 <= m < c2.len() implies !sep(#[trigger] c2[m]) by {
            if m < cur.len() {
                assert(c2[m] == cur[m]);
            }
        }
        lemma_words_from_no_sep(t.drop_first(), c2, sep);
        assert(wf == words_from(t.drop_first(), c2, sep));
    }
}

/// The decimal digits of `m`, as character codes, most significant first.
pub open spec fn decimal_codes(m: nat) -> Seq<int>
    decreases m,
{
    if m < 10 {
        seq![(48 + m) as int]
    } else {
        decimal_codes(m / 10).push((48 + m % 10) as int)
    }
}

/// The codes of `n` written in decimal, with `-` before it when it is
/// negative.
pub open spec fn signed_decimal_codes(n: int) -> Seq<int> {
    if n < 0 {
        seq![45int] + decimal_codes((-n) as nat)
    } else {
        decimal_codes(n as nat)
    }
}

/// Digits written out for `m` are digits, worth `m`.
pub proof fn lemma_decimal_value<C>(t: Seq<C>, code: spec_fn(C) -> int, m: nat)
    requires
        t.len() == decimal_codes(m).len(),
        forall|i: int| 0 <= i < t.len() ==> code(#[trigger] t[i]) == decimal_codes(m)[i],
    ensures
        t.len() > 0,
        all_digits(t, code),
        digits_value(t, code) == m,
    decreases m,
{
    if m < 10 {
        assert(code(t[0]) == 48 + m);
        assert(t.drop_last().len() == 0);
        assert(digits_value(t.drop_last(), code) == 0);
    } else {
        let d = t.drop_last();
        let dc = decimal_codes(m / 10);
        assert(decimal_codes(m) == dc.push((48 + m % 10) as int));
        assert forall|i: int| 0 <= i < d.len() implies code(#[trigger] d[i]) == dc[i] by {
            assert(d[i] == t[i]);
            assert(decimal_codes(m)[i] == dc[i]);
        }
        lemma_decimal_value(d, code, m / 10);
        assert(code(t[t.len() - 1]) == 48 + m % 10);
        assert forall|i: int| 0 <= i < t.len() implies is_digit_code(code(#[trigger] t[i])) by {
            if i < d.len() {
                assert(d[i] == t[i]);
            }
        }
        assert(digits_value(t, code) == (m / 10) * 10 + m % 10);
    }
}

/// A number written in decimal, with `-` before it when it is negative,
/// reads back as itself when it fits in an `i32`, and is refused otherwise.
pub proof fn law_decimal_round_trip<C>(t: Seq<C>, code: spec_fn(C) -> int, n: int)
    requires
        t.len() == signed_decimal_codes(n).len(),
        forall|i: int| 0 <= i < t.len() ==> code(#[trigger] t[i]) == signed_decimal_codes(n)[i],
    ensures
        parse_i32_of(t, code) == if i32::MIN <= n <= i32::MAX {
            Some(n as i32)
        } else {
            None::<i32>
        },
{
    if n < 0 {
        let d = t.drop_first();
        let dc = decimal_codes((-n) as nat);
        assert(signed_decimal_codes(n) == seq![45int] + dc);
        assert(code(t[0]) == 45);
        assert forall|i: int| 0 <= i < d.len() implies code(#[trigger] d[i]) == dc[i] by {
            assert(d[i] == t[i + 1]);
            assert(signed_decimal_codes(n)[i + 1] == dc[i]);
        }
        lemma_decimal_value(d, code, (-n) as nat);
        assert(unsigned_part(t, code) == d);
        assert(token_value(t, code) == n);
    } else {
        lemma_decimal_value(t, code, n as nat);
        assert(is_digit_code(code(t[0])));
        assert(unsigned_part(t, code) == t);
        assert(token_value(t, code) == n);
    }
}

/// A `+` before a number written in decimal changes nothing of what it reads
/// as.
pub proof fn law_plus_sign<C>(t: Seq<C>, code: spec_fn(C) -> int, m: nat)
    requires
        t.len() == decimal_codes(m).len() + 1,
        code(t[0]) == 43,
        forall|i: int| 0 <= i < t.len() - 1 ==> code(#[trigger] t[i + 1]) == decimal_codes(m)[i],
    ensures
        parse_i32_of(t, code) == parse_i32_of(t.drop_first(), code),
        parse_i32_of(t, code) == if m <= i32::MAX {
            Some(m as i32)
        } else {
            None::<i32>
        },
{
    let d = t.drop_first();
    assert forall|i: int| 0 <= i < d.len() implies code(#[trigger] d[i]) == decimal_codes(m)[i] by {
        assert(d[i] == t[i + 1]);
    }
    lemma_decimal_value(d, code, m);
    assert(unsigned_part(t, code) == d);
    assert(is_digit_code(code(d[0])));
    assert(unsigned_part(d, code) == d);
    assert(signed_decimal_codes(m as int) == decimal_codes(m));
    law_decimal_round_trip(d, code, m as int);
}

/// A run with no separator in it is one word, with what was read before it.
pub proof fn lemma_words_from_run<C>(t: Seq<C>, cur: Seq<C>, sep: spec_fn(C) -> bool)
    requires
        forall|i: int| 0 <= i < t.len() ==> !sep(#[trigger] t[i]),
    ensures
        words_from(t, cur, sep) == if (cur + t).len() > 0 {
            seq![cur + t]
        } else {
            Seq::<Seq<C>>::empty()
        },
    decreases t.len(),
{
    if t.len() == 0 {
        assert(cur + t =~= cur);
    } else {
        let rest = t.drop_first();
        assert forall|i: int| 0 <= i < rest.len() implies !sep(#[trigger] rest[i]) by {
            assert(rest[i] == t[i + 1]);
        }
        assert(!sep(t[0]));
        lemma_words_from_run(rest, cur.push(t[0]), sep);
        assert(cur.push(t[0]) + rest =~= cur + t);
    }
}

} // verus!
