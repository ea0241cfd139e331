//! Ranks: the rank of `x` among the values `s` is how many of them are below it.
//! Sorting the ranks of distinct values sorts the values.
use vstd::prelude::*;
use vstd::set_lib::set_int_range;
use crate::machine::{Op, ascending, law_run_keeps_content, law_run_map, map_state, run, sorts};

verus! {

/// How many elements of `s` are strictly below `x`.
pub open spec fn count_below(s: Seq<i32>, x: i32) -> nat
    decreases s.len(),
{
    if s.len() == 0 {
        0
    } else {
        count_below(s.drop_last(), x) + if s.last() < x {
            1nat
        } else {
            0nat
        }
    }
}

/// The rank of a value among `s`, as an `i32`.
pub open spec fn rank_in(s: Seq<i32>) -> spec_fn(i32) -> i32 {
    |x: i32| count_below(s, x) as i32
}

/// Every element of `s` lies in `[lo, hi)`.
pub open spec fn within(s: Seq<i32>, lo: int, hi: int) -> bool {
    forall|i: int| 0 <= i < s.len() ==> lo <= #[trigger] s[i] < hi
}

/// `s` holds each of `0 .. s.len()` exactly once.
pub open spec fn is_rank_perm(s: Seq<i32>) -> bool {
    &&& s.no_duplicates()
    &&& within(s, 0, s.len() as int)
}

pub proof fn lemma_count_below_take(s: Seq<i32>, x: i32, j: int)
    requires
        0 <= j < s.len(),
    ensures
        count_below(s.take(j + 1), x) == count_below(s.take(j), x) + if s[j] < x {
            1nat
        } else {
            0nat
        },
{
    assert(s.take(j + 1).drop_last() =~= s.take(j));
}

pub proof fn lemma_count_below_bound(s: Seq<i32>, x: i32)
    ensures
        count_below(s, x) <= s.len(),
        s.contains(x) ==> count_below(s, x) < s.len(),
    decreases s.len(),
{
    if s.len() > 0 {
        lemma_count_below_bound(s.drop_last(), x);
        if s.contains(x) && s.last() != x {
            let i = choose|i: int| 0 <= i < s.len() && s[i] == x;
            assert(s.drop_last()[i] == x);
        }
    }
}

/// A larger value has at least as many values below it, and strictly more
/// when the smaller one is itself among them.
pub proof fn lemma_count_below_monotone(s: Seq<i32>, x: i32, y: i32)
    requires
        x <= y,
    ensures
        count_below(s, x) <= count_below(s, y),
        x < y && s.contains(x) ==> count_below(s, x) < count_below(s, y),
    decreases s.len(),
{
    if s.len() > 0 {
        lemma_count_below_monotone(s.drop_last(), x, y);
        if x < y && s.contains(x) && s.last() != x {
            let i = choose|i: int| 0 <= i < s.len() && s[i] == x;
            assert(s.drop_last()[i] == x);
        }
    }
}

/// Ranks order the members of `s` as the values do.
pub proof fn lemma_rank_order(s: Seq<i32>, x: i32, y: i32)
    requires
        s.contains(x),
        s.contains(y),
    ensures
        x < y <==> count_below(s, x) < count_below(s, y),
        x == y <==> count_below(s, x) == count_below(s, y),
{
    if x < y {
        lemma_count_below_monotone(s, x, y);
    } else if y < x {
        lemma_count_below_monotone(s, y, x);
    }
}

/// The ranks of distinct values are each of `0 .. n` once.
pub proof fn lemma_ranks_perm(s: Seq<i32>)
    requires
        s.no_duplicates(),
        s.len() <= i32::MAX,
    ensures
        is_rank_perm(s.map_values(rank_in(s))),
{
    let r = s.map_values(rank_in(s));
    assert forall|i: int| 0 <= i < r.len() implies 0 <= #[trigger] r[i] < r.len() by {
        assert(s.contains(s[i]));
        lemma_count_below_bound(s, s[i]);
    }
    assert forall|i: int, j: int| 0 <= i < r.len() && 0 <= j < r.len() && i != j implies r[i]
        != r[j] by {
        assert(s.contains(s[i]));
        assert(s.contains(s[j]));
        lemma_rank_order(s, s[i], s[j]);
        lemma_count_below_bound(s, s[i]);
        lemma_count_below_bound(s, s[j]);
    }
}

/// If the operations sort the ranks of distinct values, they sort the values.
pub proof fn lemma_sorting_ranks_sorts(values: Seq<i32>, ops: Seq<Op>)
    requires
        values.no_duplicates(),
        values.len() <= i32::MAX,
        ({
            let fin = run((values.map_values(rank_in(values)), Seq::empty()), ops);
            fin.1.len() == 0 && ascending(fin.0)
        }),
    ensures
        sorts(values, ops),
{
    let f = rank_in(values);
    let st = (values, Seq::<i32>::empty());
    let fin = run(st, ops);
    law_run_map(st, ops, f);
    assert(map_state(st, f) == (values.map_values(f), Seq::<i32>::empty().map_values(f)));
    assert(Seq::<i32>::empty().map_values(f) =~= Seq::<i32>::empty());
    let mapped = map_state(fin, f);
    assert(fin.1.len() == mapped.1.len());
    assert(fin.1 =~= Seq::<i32>::empty());
    law_run_keeps_content(st, ops);
    assert(fin.0 + fin.1 =~= fin.0);
    assert(values + Seq::<i32>::empty() =~= values);
    assert forall|i: int, j: int| 0 <= i < j < fin.0.len() implies fin.0[i] < fin.0[j] by {
        assert(mapped.0[i] < mapped.0[j]);
        lemma_member_of(fin.0, values, i);
        lemma_member_of(fin.0, values, j);
        lemma_rank_order(values, fin.0[i], fin.0[j]);
        lemma_count_below_bound(values, fin.0[i]);
        lemma_count_below_bound(values, fin.0[j]);
    }
}

/// An element of a sequence is an element of any sequence with the same contents.
pub proof fn lemma_member_of(s: Seq<i32>, t: Seq<i32>, i: int)
    requires
        s.to_multiset() == t.to_multiset(),
        0 <= i < s.len(),
    ensures
        t.contains(s[i]),
{
    broadcast use vstd::seq_lib::group_to_multiset_ensures;

    assert(s.contains(s[i]));
    assert(s.to_multiset().count(s[i]) > 0);
    assert(t.to_multiset().count(s[i]) > 0);
}

/// Two sequences with the same contents: one has no duplicates when the other has none.
pub proof fn lemma_same_contents_no_dup(s: Seq<i32>, t: Seq<i32>)
    requires
        s.to_multiset() == t.to_multiset(),
        t.no_duplicates(),
    ensures
        s.no_duplicates(),
{
    broadcast use vstd::seq_lib::group_to_multiset_ensures;

    t.lemma_multiset_has_no_duplicates();
    s.lemma_multiset_has_no_duplicates_conv();
}

/// `n` distinct values in `[lo, hi)` with `n == hi - lo` take every value of the range.
pub proof fn lemma_fills_range(s: Seq<i32>, lo: int, hi: int, v: int)
    requires
        s.no_duplicates(),
        within(s, lo, hi),
        s.len() == hi - lo,
        lo <= v < hi,
    ensures
        s.contains(v as i32),
{
    let si = s.map_values(|x: i32| x as int);
    assert(si.no_duplicates()) by {
        assert forall|i: int, j: int| 0 <= i < si.len() && 0 <= j < si.len() && i != j implies si[i]
            != si[j] by {
            assert(s[i] != s[j]);
        }
    }
    si.unique_seq_to_set();
    vstd::set_lib::lemma_int_range(lo, hi);
    assert(si.to_set().subset_of(set_int_range(lo, hi))) by {
        assert forall|x: int| si.to_set().contains(x) implies set_int_range(lo, hi).contains(x) by {
            let i = choose|i: int| 0 <= i < si.len() && si[i] == x;
            assert(lo <= s[i] < hi);
        }
    }
    vstd::set_lib::lemma_subset_equality(si.to_set(), set_int_range(lo, hi));
    assert(set_int_range(lo, hi).contains(v));
    assert(si.to_set().contains(v));
    let i = choose|i: int| 0 <= i < si.len() && si[i] == v;
    assert(s[i] == v as i32);
}

/// Two stacks that between them hold a permutation of ranks: their elements
/// are distinct ranks, and every rank is on one of them.
pub proof fn lemma_perm_split(a: Seq<i32>, b: Seq<i32>, s: Seq<i32>)
    requires
        (a + b).to_multiset() == s.to_multiset(),
        is_rank_perm(s),
    ensures
        (a + b).no_duplicates(),
        a.no_duplicates(),
        b.no_duplicates(),
        within(a, 0, s.len() as int),
        within(b, 0, s.len() as int),
        forall|i: int, j: int| 0 <= i < a.len() && 0 <= j < b.len() ==> a[i] != b[j],
        forall|v: i32| #![trigger a.contains(v)] #![trigger b.contains(v)] 0 <= v < s.len() ==> a.contains(v) || b.contains(v),
        a.len() + b.len() == s.len(),
{
    broadcast use vstd::seq_lib::group_to_multiset_ensures;

    let ab = a + b;
    lemma_same_contents_no_dup(ab, s);
    assert forall|i: int| 0 <= i < a.len() implies 0 <= #[trigger] a[i] < s.len() by {
        assert(ab[i] == a[i]);
        lemma_member_of(ab, s, i);
    }
    assert forall|i: int| 0 <= i < b.len() implies 0 <= #[trigger] b[i] < s.len() by {
        assert(ab[a.len() + i] == b[i]);
        lemma_member_of(ab, s, a.len() + i);
    }
    assert forall|i: int, j: int| 0 <= i < a.len() && 0 <= j < b.len() implies a[i] != b[j] by {
        assert(ab[i] == a[i]);
        assert(ab[a.len() + j] == b[j]);
    }
    assert forall|i: int, j: int| 0 <= i < a.len() && 0 <= j < a.len() && i != j implies a[i] != a[j] by {
        assert(ab[i] == a[i]);
        assert(ab[j] == a[j]);
    }
    assert forall|i: int, j: int| 0 <= i < b.len() && 0 <= j < b.len() && i != j implies b[i] != b[j] by {
        assert(ab[a.len() + i] == b[i]);
        assert(ab[a.len() + j] == b[j]);
    }
    assert forall|v: i32| 0 <= v < s.len() implies a.contains(v) || b.contains(v) by {
        lemma_fills_range(s, 0, s.len() as int, v as int);
        let k = choose|k: int| 0 <= k < s.len() && s[k] == v as i32;
        lemma_member_of(s, ab, k);
        let m = choose|m: int| 0 <= m < ab.len() && ab[m] == v as i32;
        if m < a.len() {
            assert(a[m] == v as i32);
        } else {
            assert(b[m - a.len()] == v as i32);
        }
    }
    assert(ab.to_multiset().len() == s.to_multiset().len());
}

/// Each element at most the next, from the top down.
pub open spec fn nondecreasing(s: Seq<i32>) -> bool {
    forall|i: int, j: int| 0 <= i < j < s.len() ==> s[i] <= s[j]
}

/// The index of the first `x` in `s`, or `s.len()` when there is none.
pub open spec fn find(s: Seq<i32>, x: i32) -> nat
    decreases s.len(),
{
    if s.len() == 0 {
        0
    } else if s[0] == x {
        0
    } else {
        1 + find(s.drop_first(), x)
    }
}

pub proof fn lemma_find(s: Seq<i32>, x: i32)
    ensures
        find(s, x) <= s.len(),
        find(s, x) < s.len() ==> s[find(s, x) as int] == x,
        forall|k: int| 0 <= k < find(s, x) ==> s[k] != x,
        find(s, x) == s.len() <==> !s.contains(x),
    decreases s.len(),
{
    if s.len() > 0 && s[0] != x {
        lemma_find(s.drop_first(), x);
        assert forall|k: int| 0 <= k < find(s, x) implies s[k] != x by {
            if k > 0 {
                assert(s[k] == s.drop_first()[k - 1]);
            }
        }
        if s.contains(x) {
            let k = choose|k: int| 0 <= k < s.len() && s[k] == x;
            assert(s.drop_first()[k - 1] == x);
        }
    }
}

/// Distinct values in nondecreasing order are ascending.
pub proof fn lemma_nondecreasing_distinct(s: Seq<i32>)
    requires
        nondecreasing(s),
        s.no_duplicates(),
    ensures
        ascending(s),
{
}

/// The ranks of distinct values are in order exactly when the values are.
pub proof fn lemma_ranks_ordered(values: Seq<i32>)
    requires
        values.no_duplicates(),
        values.len() <= i32::MAX,
    ensures
        nondecreasing(values.map_values(rank_in(values))) <==> ascending(values),
{
    let r = values.map_values(rank_in(values));
    lemma_ranks_perm(values);
    if nondecreasing(r) {
        assert forall|i: int, j: int| 0 <= i < j < values.len() implies values[i] < values[j] by {
            assert(values.contains(values[i]));
            assert(values.contains(values[j]));
            lemma_rank_order(values, values[i], values[j]);
            lemma_count_below_bound(values, values[i]);
            lemma_count_below_bound(values, values[j]);
            assert(r[i] != r[j]);
        }
    }
    if ascending(values) {
        assert forall|i: int, j: int| 0 <= i < j < r.len() implies r[i] <= r[j] by {
            assert(values.contains(values[i]));
            assert(values.contains(values[j]));
            lemma_rank_order(values, values[i], values[j]);
            lemma_count_below_bound(values, values[i]);
            lemma_count_below_bound(values, values[j]);
        }
    }
}

/// Exchanging two elements keeps the contents.
pub proof fn lemma_swap_content(s: Seq<i32>, i: int, j: int)
    requires
        0 <= i < s.len(),
        0 <= j < s.len(),
    ensures
        s.update(i, s[j]).update(j, s[i]).to_multiset() == s.to_multiset(),
{
    broadcast use vstd::multiset::group_multiset_axioms;

    vstd::seq_lib::to_multiset_update(s, i, s[j]);
    let t = s.update(i, s[j]);
    vstd::seq_lib::to_multiset_update(t, j, s[i]);
    if i == j {
        assert(t.update(j, s[i]) =~= s);
    } else {
        assert(t[j] == s[j]);
        broadcast use vstd::seq_lib::group_to_multiset_ensures;
        assert(s.contains(s[i]));
        assert(s.to_multiset().count(s[i]) > 0);
        let m = s.to_multiset();
        assert forall|x: i32| #[trigger] m.insert(s[j]).remove(s[i]).insert(s[i]).remove(s[j]).count(x) == m.count(x) by {
        }
        assert(s.to_multiset().insert(s[j]).remove(s[i]).insert(s[i]).remove(s[j]) =~= s.to_multiset());
    }
}

/// Both parts of a sequence without duplicates are without duplicates, and
/// share no element.
pub proof fn lemma_split_no_dup(a: Seq<i32>, b: Seq<i32>)
    requires
        (a + b).no_duplicates(),
    ensures
        a.no_duplicates(),
        b.no_duplicates(),
        forall|i: int, j: int| 0 <= i < a.len() && 0 <= j < b.len() ==> a[i] != b[j],
{
    let ab = a + b;
    assert forall|i: int, j: int| 0 <= i < a.len() && 0 <= j < b.len() implies a[i] != b[j] by {
        assert(ab[i] == a[i]);
        assert(ab[a.len() + j] == b[j]);
    }
    assert forall|i: int, j: int| 0 <= i < a.len() && 0 <= j < a.len() && i != j implies a[i] != a[j] by {
        assert(ab[i] == a[i]);
        assert(ab[j] == a[j]);
    }
    assert forall|i: int, j: int| 0 <= i < b.len() && 0 <= j < b.len() && i != j implies b[i] != b[j] by {
        assert(ab[a.len() + i] == b[i]);
        assert(ab[a.len() + j] == b[j]);
    }
}

/// Where an element of one of two stacks sits in a sequence with the same
/// contents as the two together.
pub proof fn lemma_index_in(a: Seq<i32>, b: Seq<i32>, so: Seq<i32>, x: i32) -> (j: int)
    requires
        (a + b).to_multiset() == so.to_multiset(),
        a.contains(x) || b.contains(x),
    ensures
        0 <= j < so.len(),
        so[j] == x,
{
    let ab = a + b;
    let k: int = if a.contains(x) {
        let i = choose|i: int| 0 <= i < a.len() && a[i] == x;
        assert(ab[i] == x);
        i
    } else {
        let i = choose|i: int| 0 <= i < b.len() && b[i] == x;
        assert(ab[a.len() + i] == x);
        a.len() + i
    };
    lemma_member_of(ab, so, k);
    choose|j: int| 0 <= j < so.len() && so[j] == x
}

/// `keys` gives each of the values a key, in an order that agrees with the
/// order of the values.
pub open spec fn order_embedding(values: Seq<i32>, keys: Seq<i32>) -> bool {
    &&& keys.len() == values.len()
    &&& forall|i: int, j: int|
        0 <= i < values.len() && 0 <= j < values.len() && values[i] < values[j] ==> keys[i] < keys[j]
}

/// The key of a value: the key at the index of the value.
pub open spec fn key_of(values: Seq<i32>, keys: Seq<i32>) -> spec_fn(i32) -> i32 {
    |x: i32| keys[choose|i: int| 0 <= i < values.len() && values[i] == x]
}

/// If the operations sort keys that order distinct values as the values
/// order themselves, they sort the values.
pub proof fn lemma_sorting_keys_sorts(values: Seq<i32>, keys: Seq<i32>, ops: Seq<Op>)
    requires
        values.no_duplicates(),
        order_embedding(values, keys),
        ({
            let fin = run((keys, Seq::empty()), ops);
            fin.1.len() == 0 && ascending(fin.0)
        }),
    ensures
        sorts(values, ops),
{
    let f = key_of(values, keys);
    assert(values.map_values(f) =~= keys) by {
        assert forall|i: int| 0 <= i < values.len() implies #[trigger] values.map_values(f)[i] == keys[i] by {
            let j = choose|j: int| 0 <= j < values.len() && values[j] == values[i];
            assert(values[j] == values[i]);
        }
    }
    let st = (values, Seq::<i32>::empty());
    let fin = run(st, ops);
    law_run_map(st, ops, f);
    assert(Seq::<i32>::empty().map_values(f) =~= Seq::<i32>::empty());
    let mapped = map_state(fin, f);
    assert(fin.1.len() == mapped.1.len());
    assert(fin.1 =~= Seq::<i32>::empty());
    law_run_keeps_content(st, ops);
    assert(fin.0 + fin.1 =~= fin.0);
    assert(values + Seq::<i32>::empty() =~= values);
    lemma_same_contents_no_dup(fin.0, values);
    assert forall|p: int, q: int| 0 <= p < q < fin.0.len() implies fin.0[p] < fin.0[q] by {
        assert(mapped.0[p] < mapped.0[q]);
        lemma_member_of(fin.0, values, p);
        lemma_member_of(fin.0, values, q);
        let i = choose|i: int| 0 <= i < values.len() && values[i] == fin.0[p];
        let j = choose|j: int| 0 <= j < values.len() && values[j] == fin.0[q];
        assert(f(fin.0[p]) == keys[i]);
        assert(f(fin.0[q]) == keys[j]);
    }
}

/// An order embedding of distinct values into `[0, n)` is a permutation of ranks.
pub proof fn lemma_embedding_perm(values: Seq<i32>, keys: Seq<i32>)
    requires
        values.no_duplicates(),
        order_embedding(values, keys),
        within(keys, 0, keys.len() as int),
    ensures
        is_rank_perm(keys),
{
    assert forall|i: int, j: int| 0 <= i < keys.len() && 0 <= j < keys.len() && i != j implies keys[i] != keys[j] by {
        assert(values[i] != values[j]);
    }
}

/// Distinct values in `[lo, hi)` number at most `hi - lo`.
pub proof fn lemma_within_len(s: Seq<i32>, lo: int, hi: int)
    requires
        s.no_duplicates(),
        within(s, lo, hi),
        lo <= hi,
    ensures
        s.len() <= hi - lo,
{
    let si = s.map_values(|x: i32| x as int);
    assert(si.no_duplicates()) by {
        assert forall|i: int, j: int| 0 <= i < si.len() && 0 <= j < si.len() && i != j implies si[i]
            != si[j] by {
            assert(s[i] != s[j]);
        }
    }
    si.unique_seq_to_set();
    vstd::set_lib::lemma_int_range(lo, hi);
    assert(si.to_set().subset_of(set_int_range(lo, hi))) by {
        assert forall|x: int| si.to_set().contains(x) implies set_int_range(lo, hi).contains(x) by {
            let i = choose|i: int| 0 <= i < si.len() && si[i] == x;
            assert(lo <= s[i] < hi);
        }
    }
    vstd::set_lib::lemma_len_subset(si.to_set(), set_int_range(lo, hi));
}

/// Taking out one element takes out its share of the count.
pub proof fn lemma_count_below_remove(t: Seq<i32>, j: int, x: i32)
    requires
        0 <= j < t.len(),
    ensures
        count_below(t, x) == count_below(t.remove(j), x) + if t[j] < x {
            1nat
        } else {
            0nat
        },
    decreases t.len(),
{
    if j == t.len() - 1 {
        assert(t.remove(j) =~= t.drop_last());
    } else {
        lemma_count_below_remove(t.drop_last(), j, x);
        assert(t.remove(j).drop_last() =~= t.drop_last().remove(j));
        assert(t.remove(j).last() == t.last());
        assert(t.drop_last()[j] == t[j]);
    }
}

/// How many elements are below `x` depends on the elements only, not on
/// their order.
pub proof fn lemma_count_below_perm(s: Seq<i32>, t: Seq<i32>, x: i32)
    requires
        s.to_multiset() == t.to_multiset(),
    ensures
        count_below(s, x) == count_below(t, x),
    decreases s.len(),
{
    broadcast use vstd::seq_lib::group_to_multiset_ensures;

    vstd::seq_lib::to_multiset_len(s);
    vstd::seq_lib::to_multiset_len(t);
    if s.len() > 0 {
        let y = s.last();
        let d = s.drop_last();
        assert(d.push(y) =~= s);
        vstd::seq_lib::to_multiset_build(d, y);
        assert(s.to_multiset().count(y) > 0);
        assert(t.to_multiset().count(y) > 0);
        assert(t.contains(y));
        let j = choose|j: int| 0 <= j < t.len() && t[j] == y;
        vstd::seq_lib::to_multiset_remove(t, j);
        assert(d.to_multiset() =~= t.remove(j).to_multiset());
        lemma_count_below_perm(d, t.remove(j), x);
        lemma_count_below_remove(t, j, x);
    }
}

/// In a nondecreasing sequence the elements below `x` are exactly those
/// before the first one that is not.
pub proof fn lemma_count_below_sorted(s: Seq<i32>, x: i32, lo: int)
    requires
        0 <= lo <= s.len(),
        forall|k: int| 0 <= k < lo ==> s[k] < x,
        forall|k: int| lo <= k < s.len() ==> s[k] >= x,
    ensures
        count_below(s, x) == lo,
    decreases s.len(),
{
    if s.len() > 0 {
        let d = s.drop_last();
        if lo == s.len() {
            lemma_count_below_sorted(d, x, lo - 1);
        } else {
            lemma_count_below_sorted(d, x, lo);
        }
    }
}

} // verus!
