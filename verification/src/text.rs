//! Command-line text: arguments split into words at white space, and the
//! standard library's reading of an `i32`.
use vstd::prelude::*;
use crate::tokens::{
    all_digits, byte_code, char_code, digits_value, has_sign, is_digit_code, lemma_all_digits_take,
    lemma_digits_value_prefix, lemma_digits_value_take, lemma_words_char, lemma_words_done,
    lemma_words_end, lemma_words_sep, parse_i32_of, token_value, unsigned_part, words, words_from,
    decimal_codes, signed_decimal_codes,
};
use vstd::std_specs::iter::IteratorSpec;
use vstd::utf8::{
    char_is_scalar, encode_scalar, encode_utf8, has_width_1_encoding, has_width_2_encoding,
    has_width_3_encoding,
};

verus! {

/// Unicode `White_Space`: the characters that `char::is_whitespace` accepts.
pub open spec fn unicode_space() -> spec_fn(char) -> bool {
    |c: char|
        (9 <= c as u32 <= 13) || c as u32 == 32 || c as u32 == 0x85 || c as u32 == 0xA0 || c as u32
            == 0x1680 || (0x2000 <= c as u32 <= 0x200A) || c as u32 == 0x2028 || c as u32 == 0x2029
            || c as u32 == 0x202F || c as u32 == 0x205F || c as u32 == 0x3000
}

/// The words of a text: its maximal runs of characters that are not white
/// space, in order.
pub open spec fn text_words(s: Seq<char>) -> Seq<Seq<char>> {
    words(s, unicode_space())
}

/// Whether a character is Unicode white space.
fn is_space(c: char) -> (r: bool)
    ensures
        r == unicode_space()(c),
{
    let u: u32 = c as u32;
    (9 <= u && u <= 13) || u == 32 || u == 0x85 || u == 0xA0 || u == 0x1680 || (0x2000 <= u && u
        <= 0x200A) || u == 0x2028 || u == 0x2029 || u == 0x202F || u == 0x205F || u == 0x3000
}

/// The words of `s`, as `str::split_whitespace` gives them: the sub-slices
/// of `s` separated by any amount of Unicode white space, in order, none of
/// them empty.
pub(crate) fn split_whitespace(s: &str) -> (r: Vec<&str>)
    ensures
        r@.len() == text_words(s@).len(),
        forall|i: int| 0 <= i < r@.len() ==> (#[trigger] r@[i])@ == text_words(s@)[i],
{
    let cs = chars_of(s);
    let ghost t = s@;
    let ghost sep = unicode_space();
    let ghost mut found: Seq<Seq<char>> = Seq::empty();
    let mut out: Vec<&str> = Vec::new();
    let mut j: usize = 0;
    proof {
        assert(t.skip(0) =~= t);
        assert(found + words_from(t.skip(0), Seq::empty(), sep) =~= words(t, sep));
    }
    while j < cs.len()
        invariant
            cs@ == t,
            t == s@,
            sep == unicode_space(),
            j <= t.len(),
            found + words_from(t.skip(j as int), Seq::empty(), sep) == words(t, sep),
            out@.len() == found.len(),
            forall|k: int| 0 <= k < out@.len() ==> (#[trigger] out@[k])@ == found[k],
        decreases t.len() - j,
    {
        let ghost j0 = j;
        while j < cs.len() && is_space(cs[j])
            invariant
                cs@ == t,
                sep == unicode_space(),
                j0 <= j <= t.len(),
                found + words_from(t.skip(j as int), Seq::empty(), sep) == words(t, sep),
            decreases t.len() - j,
        {
            proof {
                lemma_words_sep(t, j as int, Seq::empty(), sep);
                assert(Seq::<Seq<char>>::empty() + words_from(t.skip(j + 1), Seq::empty(), sep)
                    =~= words_from(t.skip(j + 1), Seq::empty(), sep));
            }
            j += 1;
        }
        if j < cs.len() {
            let start = j;
            proof {
                assert(t.subrange(start as int, j as int) =~= Seq::<char>::empty());
            }
            while j < cs.len() && !is_space(cs[j])
                invariant
                    cs@ == t,
                    sep == unicode_space(),
                    start <= j <= t.len(),
                    start < t.len(),
                    !sep(t[start as int]),
                    words_from(t.skip(start as int), Seq::empty(), sep) == words_from(
                        t.skip(j as int),
                        t.subrange(start as int, j as int),
                        sep,
                    ),
                decreases t.len() - j,
            {
                proof {
                    lemma_words_char(t, j as int, t.subrange(start as int, j as int), sep);
                    assert(t.subrange(start as int, j as int).push(t[j as int]) =~= t.subrange(
                        start as int,
                        j + 1,
                    ));
                }
                j += 1;
            }
            let ghost w = t.subrange(start as int, j as int);
            proof {
                assert(w.len() > 0);
                lemma_words_end(t, j as int, w, sep);
                assert(found + seq![w] + words_from(t.skip(j as int), Seq::empty(), sep) =~= found
                    + words_from(t.skip(start as int), Seq::empty(), sep));
            }
            let word = s.substring_char(start, j);
            out.push(word);
            proof {
                let f2 = found.push(w);
                assert(f2 + words_from(t.skip(j as int), Seq::empty(), sep) =~= found + seq![w]
                    + words_from(t.skip(j as int), Seq::empty(), sep));
                assert forall|k: int| 0 <= k < out@.len() implies (#[trigger] out@[k])@ == f2[k] by {
                    if k < found.len() {
                        assert(f2[k] == found[k]);
                    }
                }
                found = f2;
            }
        }
    }
    proof {
        lemma_words_done(t, sep);
        assert(found + Seq::<Seq<char>>::empty() =~= found);
    }
    out
}

/// A word read as `str::parse::<i32>` reads it: an optional `+` or `-`
/// followed by one or more decimal digits and nothing else, whose value fits
/// in an `i32`; any other text is an error, given as `None`.
pub(crate) fn parse_i32_std(s: &str) -> (r: Option<i32>)
    ensures
        r == parse_i32_of(s@, char_code()),
{
    let cs = chars_of(s);
    let ghost t = s@;
    let ghost code = char_code();
    if cs.len() == 0 {
        return None;
    }
    let mut i: usize = 0;
    let mut neg = false;
    if cs[0] == '+' {
        i = 1;
    } else if cs[0] == '-' {
        neg = true;
        i = 1;
    }
    if i >= cs.len() {
        return None;
    }
    let ghost start = i as int;
    let ghost u = unsigned_part(t, code);
    proof {
        assert(u =~= t.skip(start));
    }
    let mut acc: i64 = 0;
    while i < cs.len()
        invariant
            t == cs@,
            t == s@,
            code == char_code(),
            u == unsigned_part(t, code),
            u == t.skip(start),
            u.len() == t.len() - start,
            start <= i <= t.len(),
            start < t.len(),
            neg <==> (has_sign(t, code) && code(t[0]) == 45),
            forall|k: int| 0 <= k < i - start ==> is_digit_code(code(#[trigger] u[k])),
            acc == digits_value(u.take(i - start), code),
            0 <= acc <= 2147483648,
        decreases t.len() - i,
    {
        let c = cs[i];
        proof {
            assert(u[i - start] == c);
            lemma_digits_value_take(u, code, i - start);
        }
        if c < '0' || c > '9' {
            proof {
                assert(!is_digit_code(code(u[i - start])));
                assert(!all_digits(u, code));
            }
            return None;
        }
        let d: u32 = c as u32;
        proof {
            lemma_char_u32(c);
        }
        acc = acc * 10 + (d - 48) as i64;
        proof {
            lemma_all_digits_take(u, code, i - start + 1);
            if all_digits(u, code) {
                lemma_digits_value_prefix(u, code, i - start + 1);
            }
        }
        if acc > 2147483648i64 {
            proof {
                if all_digits(u, code) {
                    assert(digits_value(u, code) > 2147483648);
                    assert(token_value(t, code) == if neg {
                        -digits_value(u, code)
                    } else {
                        digits_value(u, code)
                    });
                }
            }
            return None;
        }
        i += 1;
    }
    proof {
        assert(u.take(u.len() as int) =~= u);
        lemma_all_digits_take(u, code, u.len() as int);
    }
    if neg {
        acc = -acc;
    }
    if acc < -2147483648i64 || acc > 2147483647i64 {
        return None;
    }
    Some(acc as i32)
}

/// A character's code point is its number.
proof fn lemma_char_u32(c: char)
    ensures
        (c as u32) as int == c as int,
{
}

/// The words of all the arguments, in order.
pub open spec fn arg_words(args: Seq<String>) -> Seq<Seq<char>>
    decreases args.len(),
{
    if args.len() == 0 {
        Seq::empty()
    } else {
        arg_words(args.drop_last()) + text_words(args.last()@)
    }
}

/// Every word is read as a number by `read`.
pub open spec fn all_read(toks: Seq<Seq<char>>, read: spec_fn(Seq<char>) -> Option<i32>) -> bool {
    forall|j: int| 0 <= j < toks.len() ==> #[trigger] read(toks[j]) is Some
}

/// The number `read` gives a word, 0 when it gives none.
pub open spec fn read_value(t: Seq<char>, read: spec_fn(Seq<char>) -> Option<i32>) -> i32 {
    match read(t) {
        Some(v) => v,
        None => 0,
    }
}

/// The numbers of the words.
pub open spec fn word_values(toks: Seq<Seq<char>>, read: spec_fn(Seq<char>) -> Option<i32>) -> Seq<i32> {
    toks.map_values(|t: Seq<char>| read_value(t, read))
}

/// What the standard library reads a word as.
pub open spec fn std_read() -> spec_fn(Seq<char>) -> Option<i32> {
    |t: Seq<char>| parse_i32_of(t, char_code())
}

/// One more argument adds its words at the end.
pub proof fn lemma_arg_words_step(args: Seq<String>, i: int)
    requires
        0 <= i < args.len(),
    ensures
        arg_words(args.take(i + 1)) == arg_words(args.take(i)) + text_words(args[i]@),
{
    assert(args.take(i + 1).drop_last() =~= args.take(i));
    assert(args.take(i + 1).last() == args[i]);
}

/// The words of all the arguments, each a slice of its argument, in order.
pub fn arg_word_list<'a>(args: &'a [String]) -> (r: Vec<&'a str>)
    ensures
        r@.len() == arg_words(args@).len(),
        forall|k: int| 0 <= k < r@.len() ==> (#[trigger] r@[k])@ == arg_words(args@)[k],
{
    let mut out: Vec<&'a str> = Vec::new();
    let mut i: usize = 0;
    proof {
        assert(args@.take(0) =~= Seq::<String>::empty());
    }
    while i < args.len()
        invariant
            i <= args@.len(),
            out@.len() == arg_words(args@.take(i as int)).len(),
            forall|k: int| 0 <= k < out@.len() ==> (#[trigger] out@[k])@ == arg_words(args@.take(i as int))[k],
        decreases args@.len() - i,
    {
        let toks = split_whitespace(args[i].as_str());
        let ghost before = arg_words(args@.take(i as int));
        let ghost mine = text_words(args@[i as int]@);
        let mut j: usize = 0;
        while j < toks.len()
            invariant
                j <= toks@.len(),
                toks@.len() == mine.len(),
                forall|k: int| 0 <= k < toks@.len() ==> (#[trigger] toks@[k])@ == mine[k],
                out@.len() == before.len() + j,
                forall|k: int| 0 <= k < out@.len() ==> (#[trigger] out@[k])@ == (before + mine)[k],
            decreases toks@.len() - j,
        {
            out.push(toks[j]);
            j += 1;
        }
        proof {
            lemma_arg_words_step(args@, i as int);
        }
        i += 1;
    }
    proof {
        assert(args@.take(args@.len() as int) =~= args@);
    }
    out
}

/// A number read twice: word `j` reads as the number already read for an
/// earlier word `k`.
pub proof fn lemma_read_twice(
    aw: Seq<Seq<char>>,
    read: spec_fn(Seq<char>) -> Option<i32>,
    j: int,
    k: int,
    n: i32,
)
    requires
        0 <= k < j < aw.len(),
        read(aw[j]) == Some(n),
        word_values(aw.take(j), read)[k] == n,
    ensures
        !word_values(aw, read).no_duplicates(),
{
    let all = word_values(aw, read);
    assert(aw.take(j)[k] == aw[k]);
    assert(all[k] == n);
    assert(all[j] == n);
}

/// Numbers given as two arguments are the numbers given as one argument
/// holding both, a space between them.
pub proof fn law_args_join(s: String, t: String)
    ensures
        arg_words(seq![s, t]) == text_words(s@ + seq![' '] + t@),
{
    let args = seq![s, t];
    assert(args.drop_last() =~= seq![s]);
    assert(seq![s].drop_last() =~= Seq::<String>::empty());
    assert(Seq::<Seq<char>>::empty() + text_words(s@) =~= text_words(s@));
    assert(seq![s].last() == s);
    assert(args.last() == t);
    assert(arg_words(Seq::<String>::empty()) == Seq::<Seq<char>>::empty());
    assert(arg_words(seq![s].drop_last()) == Seq::<Seq<char>>::empty());
    assert(arg_words(seq![s]) == text_words(s@));
    assert(arg_words(args) == arg_words(seq![s]) + text_words(t@));
    assert(unicode_space()(' '));
    crate::tokens::law_words_join(s@, ' ', t@, unicode_space());
}

/// The characters of `s`, in order.
fn chars_of(s: &str) -> (r: Vec<char>)
    ensures
        r@ == s@,
{
    broadcast use vstd::string::axiom_spec_iter, vstd::string::next_postcondition;

    let mut out: Vec<char> = Vec::new();
    let mut it = s.chars();
    loop
        invariant
            out@ + it.remaining() == s@,
            it.obeys_prophetic_iter_laws(),
            it.decrease() is Some,
        ensures
            out@ == s@,
        decreases it.decrease()->0,
    {
        match it.next() {
            Some(c) => {
                out.push(c);
            },
            None => {
                assert(out@ + it.remaining() =~= out@);
                break;
            },
        }
    }
    out
}

/// Some word of `aw` holds the character `c`.
pub open spec fn in_some_word(aw: Seq<Seq<char>>, c: char) -> bool {
    exists|k: int, m: int| 0 <= k < aw.len() && 0 <= m < aw[k].len() && #[trigger] aw[k][m] == c
}

/// A character that can stand in no number: no decimal digit, no `+` or `-`,
/// and no white space (such as `,`, `x` or `é`).
pub open spec fn stray_char(c: char) -> bool {
    let u = c as u32;
    !(48 <= u <= 57) && u != 43 && u != 45 && !((9 <= u <= 13) || u == 32 || u == 0x85 || u
        == 0xA0 || u == 0x1680 || (0x2000 <= u <= 0x200A) || u == 0x2028 || u == 0x2029 || u
        == 0x202F || u == 0x205F || u == 0x3000)
}

/// Some argument holds a stray character.
pub open spec fn has_stray_char(args: Seq<String>) -> bool {
    exists|i: int, j: int|
        0 <= i < args.len() && 0 <= j < args[i]@.len() && stray_char(#[trigger] args[i]@[j])
}

proof fn lemma_arg_words_no_space(args: Seq<String>)
    ensures
        forall|k: int, m: int|
            0 <= k < arg_words(args).len() && 0 <= m < arg_words(args)[k].len() ==> !unicode_space()(
                #[trigger] arg_words(args)[k][m],
            ),
    decreases args.len(),
{
    if args.len() > 0 {
        let d = args.drop_last();
        let a = arg_words(d);
        let w = text_words(args.last()@);
        lemma_arg_words_no_space(d);
        crate::tokens::lemma_words_from_no_sep(args.last()@, Seq::empty(), unicode_space());
        assert(arg_words(args) == a + w);
        assert forall|k: int, m: int|
            0 <= k < arg_words(args).len() && 0 <= m < arg_words(args)[k].len() implies !unicode_space()(
            #[trigger] arg_words(args)[k][m],
        ) by {
            if k < a.len() {
                assert(arg_words(args)[k] == a[k]);
            } else {
                assert(arg_words(args)[k] == w[k - a.len()]);
            }
        }
    }
}

proof fn lemma_arg_words_cover(args: Seq<String>, i: int, j: int)
    requires
        0 <= i < args.len(),
        0 <= j < args[i]@.len(),
        !unicode_space()(args[i]@[j]),
    ensures
        in_some_word(arg_words(args), args[i]@[j]),
    decreases args.len(),
{
    let d = args.drop_last();
    let a = arg_words(d);
    let c = args[i]@[j];
    assert(arg_words(args) == a + text_words(args.last()@));
    if i == args.len() - 1 {
        let w = text_words(args.last()@);
        crate::tokens::lemma_words_from_cover(args.last()@, Seq::empty(), unicode_space(), j);
        let (k, m) = choose|k: int, m: int|
            0 <= k < w.len() && 0 <= m < w[k].len() && #[trigger] w[k][m] == c;
        assert(arg_words(args)[a.len() + k] == w[k]);
        assert(arg_words(args)[a.len() + k][m] == c);
    } else {
        assert(d[i] == args[i]);
        lemma_arg_words_cover(d, i, j);
        let (k, m) = choose|k: int, m: int|
            0 <= k < a.len() && 0 <= m < a[k].len() && #[trigger] a[k][m] == c;
        assert(arg_words(args)[k] == a[k]);
        assert(arg_words(args)[k][m] == c);
    }
}

/// A character of an argument lies in one of the words of the arguments
/// exactly when it is not white space: not a tab, line feed, vertical tab,
/// form feed, carriage return or space, nor U+0085, U+00A0, U+1680, U+2000 to
/// U+200A, U+2028, U+2029, U+202F, U+205F or U+3000.
pub proof fn law_arg_chars(args: Seq<String>, i: int, j: int)
    requires
        0 <= i < args.len(),
        0 <= j < args[i]@.len(),
    ensures
        in_some_word(arg_words(args), args[i]@[j]) <==> !({
            let u = args[i]@[j] as u32;
            (9 <= u <= 13) || u == 32 || u == 0x85 || u == 0xA0 || u == 0x1680 || (0x2000 <= u
                <= 0x200A) || u == 0x2028 || u == 0x2029 || u == 0x202F || u == 0x205F || u
                == 0x3000
        }),
{
    let c = args[i]@[j];
    if !unicode_space()(c) {
        lemma_arg_words_cover(args, i, j);
    }
    if in_some_word(arg_words(args), c) {
        lemma_arg_words_no_space(args);
        let aw = arg_words(args);
        let (k, m) = choose|k: int, m: int|
            0 <= k < aw.len() && 0 <= m < aw[k].len() && #[trigger] aw[k][m] == c;
        assert(!unicode_space()(aw[k][m]));
    }
}

/// An argument holding a stray character, such as `,`, is not read: one of
/// its words is no number.
pub proof fn law_stray_char_unread(args: Seq<String>, i: int, j: int)
    requires
        0 <= i < args.len(),
        0 <= j < args[i]@.len(),
        stray_char(args[i]@[j]),
    ensures
        !all_read(arg_words(args), std_read()),
{
    let c = args[i]@[j];
    let aw = arg_words(args);
    lemma_arg_words_cover(args, i, j);
    let (k, m) = choose|k: int, m: int|
        0 <= k < aw.len() && 0 <= m < aw[k].len() && #[trigger] aw[k][m] == c;
    lemma_char_u32(c);
    crate::tokens::lemma_stray_not_int(aw[k], char_code(), m);
    assert(std_read()(aw[k]) is None);
}

/// Where some argument holds a stray character, a word of the arguments is
/// not read by `std_read`.
pub proof fn lemma_has_stray_char(args: Seq<String>)
    requires
        has_stray_char(args),
    ensures
        !all_read(arg_words(args), std_read()),
        exists|k: int|
            0 <= k < arg_words(args).len() && !crate::tokens::is_int_token(
                #[trigger] arg_words(args)[k],
                char_code(),
            ) && !crate::tokens::is_int_token(encode_utf8(arg_words(args)[k]), byte_code()),
{
    let (i, j) = choose|i: int, j: int|
        0 <= i < args.len() && 0 <= j < args[i]@.len() && stray_char(#[trigger] args[i]@[j]);
    law_stray_char_unread(args, i, j);
    let c = args[i]@[j];
    let aw = arg_words(args);
    lemma_arg_words_cover(args, i, j);
    let (k, m) = choose|k: int, m: int|
        0 <= k < aw.len() && 0 <= m < aw[k].len() && #[trigger] aw[k][m] == c;
    lemma_char_u32(c);
    crate::tokens::lemma_stray_not_int(aw[k], char_code(), m);
    lemma_char_encoded(aw[k], m);
    let e = encode_utf8(aw[k]);
    let p = choose|p: int|
        0 <= p < e.len() && (#[trigger] e[p] as u32 == aw[k][m] as u32 || (aw[k][m] as u32 >= 128
            && e[p] >= 0x80));
    crate::tokens::lemma_stray_not_int(e, byte_code(), p);
}

/// A character of a text shows in its UTF-8 encoding: an ASCII character as
/// the byte of the same number, any other as a byte of `0x80` or more.
proof fn lemma_char_encoded(t: Seq<char>, m: int)
    requires
        0 <= m < t.len(),
    ensures
        exists|p: int|
            0 <= p < encode_utf8(t).len() && (#[trigger] encode_utf8(t)[p] as u32 == t[m] as u32 || (
            t[m] as u32 >= 128 && encode_utf8(t)[p] >= 0x80)),
    decreases t.len(),
{
    let head = encode_scalar(t[0] as u32);
    let rest = encode_utf8(t.drop_first());
    assert(encode_utf8(t) == head + rest);
    if m == 0 {
        let u = t[0] as u32;
        char_is_scalar(t[0]);
        if u < 128 {
            assert(has_width_1_encoding(u));
            assert((u & 0x7F) as u8 as u32 == u) by (bit_vector)
                requires
                    u < 128,
            ;
            assert(head == seq![(u & 0x7F) as u8]);
            assert(encode_utf8(t)[0] as u32 == u);
        } else if has_width_2_encoding(u) {
            assert(0xC0u8 | ((u >> 6) & 0x1F) as u8 >= 0x80u8) by (bit_vector);
            assert(encode_utf8(t)[0] >= 0x80);
        } else if has_width_3_encoding(u) {
            assert(0xE0u8 | ((u >> 12) & 0x0F) as u8 >= 0x80u8) by (bit_vector);
            assert(encode_utf8(t)[0] >= 0x80);
        } else {
            assert(0xF0u8 | ((u >> 18) & 0x7) as u8 >= 0x80u8) by (bit_vector);
            assert(encode_utf8(t)[0] >= 0x80);
        }
    } else {
        lemma_char_encoded(t.drop_first(), m - 1);
        let p = choose|p: int|
            0 <= p < rest.len() && (#[trigger] rest[p] as u32 == t.drop_first()[m - 1] as u32 || (
            t.drop_first()[m - 1] as u32 >= 128 && rest[p] >= 0x80));
        assert(encode_utf8(t)[head.len() + p] == rest[p]);
    }
}

/// The text `s` is the number `n` written in decimal, with `-` before it
/// when it is negative.
pub open spec fn writes_decimal(s: Seq<char>, n: int) -> bool {
    s.len() == signed_decimal_codes(n).len() && forall|j: int|
        0 <= j < s.len() ==> #[trigger] s[j] as int == signed_decimal_codes(n)[j]
}

/// A number written in decimal is a single word.
proof fn lemma_decimal_one_word(s: Seq<char>, n: int)
    requires
        writes_decimal(s, n),
    ensures
        text_words(s) == seq![s],
{
    let dc = decimal_codes(if n < 0 {
        (-n) as nat
    } else {
        n as nat
    });
    let off: int = if n < 0 {
        1
    } else {
        0
    };
    let d = s.skip(off);
    assert forall|i: int| 0 <= i < d.len() implies char_code()(#[trigger] d[i]) == dc[i] by {
        assert(d[i] == s[i + off]);
        if n < 0 {
            assert(signed_decimal_codes(n) == seq![45int] + dc);
            assert(signed_decimal_codes(n)[i + 1] == dc[i]);
        }
    }
    crate::tokens::lemma_decimal_value(d, char_code(), if n < 0 {
        (-n) as nat
    } else {
        n as nat
    });
    assert forall|i: int| 0 <= i < s.len() implies !unicode_space()(#[trigger] s[i]) by {
        lemma_char_u32(s[i]);
        if n < 0 && i == 0 {
            assert(signed_decimal_codes(n)[0] == 45);
        } else {
            assert(s[i] == d[i - off]);
            assert(crate::tokens::is_digit_code(char_code()(d[i - off])));
        }
    }
    crate::tokens::lemma_words_from_run(s, Seq::empty(), unicode_space());
    assert(Seq::<char>::empty() + s =~= s);
}

/// Arguments that each hold one number written in decimal, with `-` before
/// it when it is negative, read back as those numbers.
pub proof fn law_decimal_args_read(args: Seq<String>, ns: Seq<i32>)
    requires
        args.len() == ns.len(),
        forall|i: int| 0 <= i < args.len() ==> writes_decimal(#[trigger] args[i]@, ns[i] as int),
    ensures
        arg_words(args).len() == args.len(),
        all_read(arg_words(args), std_read()),
        word_values(arg_words(args), std_read()) == ns,
    decreases args.len(),
{
    if args.len() > 0 {
        let d = args.drop_last();
        let last = args.last();
        let n = ns.last();
        assert forall|i: int| 0 <= i < d.len() implies writes_decimal(#[trigger] d[i]@, ns.drop_last()[i] as int) by {
            assert(d[i] == args[i]);
        }
        law_decimal_args_read(d, ns.drop_last());
        assert(writes_decimal(args[args.len() - 1]@, ns[args.len() - 1] as int));
        lemma_decimal_one_word(last@, n as int);
        let aw = arg_words(args);
        assert(aw == arg_words(d) + seq![last@]);
        crate::tokens::law_decimal_round_trip(last@, char_code(), n as int);
        assert(std_read()(last@) == Some(n));
        assert forall|j: int| 0 <= j < aw.len() implies #[trigger] std_read()(aw[j]) is Some by {
            if j < arg_words(d).len() {
                assert(aw[j] == arg_words(d)[j]);
            }
        }
        assert(word_values(aw, std_read()) =~= word_values(arg_words(d), std_read()).push(n));
        assert(ns =~= ns.drop_last().push(n));
    } else {
        assert(word_values(arg_words(args), std_read()) =~= ns);
    }
}

} // verus!
