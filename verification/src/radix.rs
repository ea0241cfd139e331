//! Least-significant-digit radix sorting on one stack: one pass over bit `i`
//! sends the elements whose key has bit `i` clear to b, rotates the others,
//! and brings b back. The pass is a stable partition, so after a pass over
//! every bit the keys come in order.
use vstd::prelude::*;
use vstd::arithmetic::power2::{pow2, lemma_pow2_pos, lemma_pow2_unfold};

verus! {

/// The key `k` modulo `2^i`: its `i` low bits.
pub open spec fn low(k: int, i: nat) -> int {
    k % (pow2(i) as int)
}

/// Bit `i` of the key `k`.
pub open spec fn bit(k: int, i: nat) -> int {
    (k / (pow2(i) as int)) % 2
}

/// The elements of `s` whose key has bit `i` equal to `v`, in their order in `s`.
pub open spec fn keep_bit(s: Seq<i32>, key: spec_fn(i32) -> int, i: nat, v: int) -> Seq<i32>
    decreases s.len(),
{
    if s.len() == 0 {
        s
    } else {
        let rest = keep_bit(s.drop_last(), key, i, v);
        if bit(key(s.last()), i) == v {
            rest.push(s.last())
        } else {
            rest
        }
    }
}

/// The keys of `s` come in order of their `i` low bits.
pub open spec fn sorted_low(s: Seq<i32>, key: spec_fn(i32) -> int, i: nat) -> bool {
    forall|p: int, q: int| 0 <= p < q < s.len() ==> low(key(s[p]), i) <= low(key(s[q]), i)
}

/// Every key of `s` lies in `[0, bound)`.
pub open spec fn keys_within(s: Seq<i32>, key: spec_fn(i32) -> int, bound: int) -> bool {
    forall|p: int| 0 <= p < s.len() ==> 0 <= #[trigger] key(s[p]) < bound
}

/// The result of one pass over bit `i`: clear bits first, then set bits.
pub open spec fn partition(s: Seq<i32>, key: spec_fn(i32) -> int, i: nat) -> Seq<i32> {
    keep_bit(s, key, i, 0) + keep_bit(s, key, i, 1)
}

pub proof fn lemma_keep_bit_take(s: Seq<i32>, key: spec_fn(i32) -> int, i: nat, v: int, j: int)
    requires
        0 <= j < s.len(),
    ensures
        keep_bit(s.take(j + 1), key, i, v) == if bit(key(s[j]), i) == v {
            keep_bit(s.take(j), key, i, v).push(s[j])
        } else {
            keep_bit(s.take(j), key, i, v)
        },
{
    assert(s.take(j + 1).drop_last() =~= s.take(j));
}

/// The low bits of a nonnegative key, one bit at a time.
pub proof fn lemma_low_step(k: int, i: nat)
    requires
        0 <= k,
    ensures
        0 <= low(k, i) < pow2(i),
        bit(k, i) == 0 || bit(k, i) == 1,
        low(k, i + 1) == low(k, i) + bit(k, i) * pow2(i),
        pow2(i + 1) == 2 * pow2(i),
{
    lemma_pow2_pos(i);
    lemma_pow2_unfold(i + 1);
    vstd::arithmetic::div_mod::lemma_mod_breakdown(k, pow2(i) as int, 2);
    assert((pow2(i) as int) * 2 == pow2(i + 1));
    vstd::arithmetic::div_mod::lemma_mod_bound(k, pow2(i) as int);
    vstd::arithmetic::div_mod::lemma_mod_bound(k / (pow2(i) as int), 2);
    vstd::arithmetic::mul::lemma_mul_is_commutative(pow2(i) as int, bit(k, i));
}

/// What `keep_bit` keeps: members of `s`, with the chosen bit, still in order.
pub proof fn lemma_keep_bit_props(s: Seq<i32>, key: spec_fn(i32) -> int, i: nat, v: int)
    ensures
        forall|p: int| 0 <= p < keep_bit(s, key, i, v).len() ==> bit(key(#[trigger] keep_bit(s, key, i, v)[p]), i) == v,
        forall|p: int| 0 <= p < keep_bit(s, key, i, v).len() ==> s.contains(#[trigger] keep_bit(s, key, i, v)[p]),
        sorted_low(s, key, i) ==> sorted_low(keep_bit(s, key, i, v), key, i),
    decreases s.len(),
{
    if s.len() > 0 {
        let t = s.drop_last();
        lemma_keep_bit_props(t, key, i, v);
        let kt = keep_bit(t, key, i, v);
        let ks = keep_bit(s, key, i, v);
        assert forall|p: int| 0 <= p < ks.len() implies s.contains(#[trigger] ks[p]) by {
            if p < kt.len() {
                assert(t.contains(kt[p]));
                let j = choose|j: int| 0 <= j < t.len() && t[j] == kt[p];
                assert(s[j] == kt[p]);
            } else {
                assert(s[s.len() - 1] == ks[p]);
            }
        }
        if sorted_low(s, key, i) {
            assert(sorted_low(t, key, i));
            assert forall|p: int, q: int| 0 <= p < q < ks.len() implies low(key(ks[p]), i) <= low(
                key(ks[q]),
                i,
            ) by {
                if q < kt.len() {
                } else {
                    assert(t.contains(kt[p]));
                    let j = choose|j: int| 0 <= j < t.len() && t[j] == kt[p];
                    assert(s[j] == ks[p]);
                    assert(ks[q] == s[s.len() - 1]);
                }
            }
        }
    }
}

/// One pass over bit `i` turns order by `i` low bits into order by `i + 1` low bits.
pub proof fn lemma_partition_sorted(s: Seq<i32>, key: spec_fn(i32) -> int, i: nat, bound: int)
    requires
        sorted_low(s, key, i),
        keys_within(s, key, bound),
    ensures
        sorted_low(partition(s, key, i), key, i + 1),
{
    let z = keep_bit(s, key, i, 0);
    let o = keep_bit(s, key, i, 1);
    let r = partition(s, key, i);
    lemma_keep_bit_props(s, key, i, 0);
    lemma_keep_bit_props(s, key, i, 1);
    assert forall|p: int, q: int| 0 <= p < q < r.len() implies low(key(r[p]), i + 1) <= low(
        key(r[q]),
        i + 1,
    ) by {
        let x = r[p];
        let y = r[q];
        if p < z.len() {
            assert(x == z[p]);
            assert(s.contains(z[p]));
        } else {
            assert(x == o[p - z.len()]);
            assert(s.contains(o[p - z.len()]));
        }
        if q < z.len() {
            assert(y == z[q]);
            assert(s.contains(z[q]));
        } else {
            assert(y == o[q - z.len()]);
            assert(s.contains(o[q - z.len()]));
        }
        let px = choose|j: int| 0 <= j < s.len() && s[j] == x;
        let py = choose|j: int| 0 <= j < s.len() && s[j] == y;
        assert(0 <= key(s[px]));
        assert(0 <= key(s[py]));
        lemma_low_step(key(x), i);
        lemma_low_step(key(y), i);
        if q < z.len() {
            assert(low(key(z[p]), i) <= low(key(z[q]), i));
        } else if p >= z.len() {
            assert(low(key(o[p - z.len()]), i) <= low(key(o[q - z.len()]), i));
        }
    }
}

/// Once the order covers every bit of keys below `2^i`, the keys themselves
/// are in order.
pub proof fn lemma_sorted_low_full(s: Seq<i32>, key: spec_fn(i32) -> int, i: nat)
    requires
        sorted_low(s, key, i),
        keys_within(s, key, pow2(i) as int),
    ensures
        forall|p: int, q: int| 0 <= p < q < s.len() ==> key(s[p]) <= key(s[q]),
{
    assert forall|p: int, q: int| 0 <= p < q < s.len() implies key(s[p]) <= key(s[q]) by {
        assert(0 <= key(s[p]) < pow2(i));
        assert(0 <= key(s[q]) < pow2(i));
        vstd::arithmetic::div_mod::lemma_small_mod(key(s[p]) as nat, pow2(i));
        vstd::arithmetic::div_mod::lemma_small_mod(key(s[q]) as nat, pow2(i));
    }
}

/// Any order holds of the zero low bits.
pub proof fn lemma_sorted_low_zero(s: Seq<i32>, key: spec_fn(i32) -> int)
    ensures
        sorted_low(s, key, 0),
{
    assert(pow2(0) == 1) by {
        vstd::arithmetic::power2::lemma2_to64();
    }
}

/// The key of a value that is its own key.
pub open spec fn value_key() -> spec_fn(i32) -> int {
    |x: i32| x as int
}

/// How many bits the keys below `bound` need: the `bits` with
/// `(bound - 1) / 2^bits == 0`.
pub proof fn lemma_bits_step(x: int, bits: nat)
    requires
        0 <= x <= i32::MAX,
        x / (pow2(bits) as int) > 0,
    ensures
        bits < 31,
        x >= pow2(bits),
        (x / (pow2(bits) as int)) / 2 == x / (pow2(bits + 1) as int),
{
    lemma_pow2_pos(bits);
    lemma_pow2_unfold(bits + 1);
    let p = pow2(bits) as int;
    vstd::arithmetic::div_mod::lemma_fundamental_div_mod(x, p);
    vstd::arithmetic::div_mod::lemma_mod_bound(x, p);
    let q = x / p;
    assert(p * q >= p) by (nonlinear_arith)
        requires
            q >= 1,
            p > 0,
    ;
    if bits >= 31 {
        vstd::arithmetic::power2::lemma2_to64();
        if bits > 31 {
            vstd::arithmetic::power2::lemma_pow2_strictly_increases(31, bits);
        }
    }
    vstd::arithmetic::div_mod::lemma_div_denominator(x, p, 2);
    assert(p * 2 == pow2(bits + 1));
}

/// The number of bits counted for `x` is the least `bits` with
/// `x < 2^bits`: it is at most any `k` with `x < 2^k`.
pub proof fn lemma_bits_least(x: int, bits: nat, k: nat)
    requires
        bits > 0 ==> pow2((bits - 1) as nat) <= x,
        x < pow2(k),
    ensures
        bits <= k,
{
    if bits > k {
        if (bits - 1) as nat > k {
            vstd::arithmetic::power2::lemma_pow2_strictly_increases(k, (bits - 1) as nat);
        }
    }
}

/// When no bits are left, the value is below `2^bits`.
pub proof fn lemma_bits_done(x: int, bits: nat)
    requires
        0 <= x,
        x / (pow2(bits) as int) == 0,
    ensures
        x < pow2(bits),
{
    lemma_pow2_pos(bits);
    vstd::arithmetic::div_mod::lemma_fundamental_div_mod(x, pow2(bits) as int);
    vstd::arithmetic::div_mod::lemma_mod_bound(x, pow2(bits) as int);
}

/// Testing bit `i` of a nonnegative `i32` with a shift and a mask.
pub proof fn lemma_shift_mask(x: i32, i: u32)
    requires
        0 <= x,
        i < 32,
    ensures
        (((x as u32) >> i) & 1u32) as int == bit(x as int, i as nat),
{
    let u = x as u32;
    vstd::bits::lemma_u32_shr_is_div(u, i);
    let w = u >> i;
    assert(w & 1u32 == w % 2) by (bit_vector);
}

/// Testing bit `i` of a `u32` with a shift and a mask.
pub proof fn lemma_shift_mask_u32(x: u32, i: u32)
    requires
        i < 32,
    ensures
        ((x >> i) & 1u32) as int == bit(x as int, i as nat),
{
    vstd::bits::lemma_u32_shr_is_div(x, i);
    let w = x >> i;
    assert(w & 1u32 == w % 2) by (bit_vector);
}

} // verus!
