//! Sorting by chunks that leave the three largest ranks in a: the stacks are
//! kept with their tops at the ends of the vectors, and every operation is
//! recorded in the machine's own log. The values become their ranks; up to
//! three are sorted directly, four or five by pushing the smallest to b, more
//! by pushing all but the three largest ranks to b chunk by chunk and pouring
//! the largest rank of b back, again and again.
use vstd::prelude::*;
use vstd::string::StringSliceAdditionalSpecFns;
use vstd::utf8::encode_utf8;
use crate::tokens::{lemma_words_char, lemma_words_end, lemma_words_sep, words, words_from};
use crate::machine::{
    Op, a_moves_appended, ascending, lemma_a_moves_push, lemma_a_moves_refl, lemma_a_moves_trans, repeat, lemma_replays_content, lemma_replays_push, lemma_replays_refl, lemma_replays_trans,
    lemma_rot_by_ends, lemma_rot_down_by, lemma_rot_up_by, replays, rot_by, rot_down, rot_up, run,
    sorts, step, swap_top,
};
use crate::ranking::{
    count_below, is_rank_perm, lemma_count_below_bound, lemma_count_below_take, lemma_member_of,
    lemma_perm_split, lemma_same_contents_no_dup, lemma_split_no_dup, within,
};
use crate::tokens::{
    all_digits, byte_code, digits_value, has_sign, is_digit_code, lemma_all_digits_take,
    lemma_digits_value_prefix, lemma_digits_value_take, parse_i32_of, unsigned_part,
};

verus! {

/// The two stacks, each with its top at the end of its vector, and the log
/// of the operations done on them.
pub struct Ps {
    pub a: Vec<i32>,
    pub b: Vec<i32>,
    pub ops: Vec<Op>,
}

/// The state of a machine, each stack top first.
pub open spec fn stacks(ps: &Ps) -> (Seq<i32>, Seq<i32>) {
    (ps.a@.reverse(), ps.b@.reverse())
}

/// The machine went from `p0` to `p1` by the operations it appended to its log.
pub open spec fn ps_replays(p0: &Ps, p1: &Ps) -> bool {
    replays(stacks(p0), p0.ops@, p1.ops@, stacks(p1))
}

pub proof fn lemma_ps_trans(p0: &Ps, p1: &Ps, p2: &Ps)
    requires
        ps_replays(p0, p1),
        ps_replays(p1, p2),
    ensures
        ps_replays(p0, p2),
{
    lemma_replays_trans(stacks(p0), p0.ops@, p1.ops@, stacks(p1), p2.ops@, stacks(p2));
}

pub proof fn lemma_ps_refl(p0: &Ps)
    ensures
        ps_replays(p0, p0),
{
    lemma_replays_refl(stacks(p0), p0.ops@);
}

proof fn lemma_ps_step(p0: &Ps, p1: &Ps, op: Op)
    requires
        stacks(p1) == step(stacks(p0), op),
        p1.ops@ == p0.ops@.push(op),
    ensures
        ps_replays(p0, p1),
{
    lemma_replays_refl(stacks(p0), p0.ops@);
    lemma_replays_push(stacks(p0), p0.ops@, p0.ops@, stacks(p0), op);
}

/// Swapping the two last elements swaps the two tops of the reversed view.
proof fn lemma_rev_swap(v: Seq<i32>, w: Seq<i32>)
    requires
        v.len() >= 2,
        w == v.update(v.len() - 1, v[v.len() - 2]).update(v.len() - 2, v[v.len() - 1]),
    ensures
        w.reverse() == swap_top(v.reverse()),
{
    assert(w.reverse() =~= swap_top(v.reverse()));
}

proof fn lemma_rev_pop(v: Seq<i32>)
    requires
        v.len() > 0,
    ensures
        v.drop_last().reverse() == v.reverse().drop_first(),
        v.reverse()[0] == v.last(),
{
    assert(v.drop_last().reverse() =~= v.reverse().drop_first());
}

proof fn lemma_rev_push(v: Seq<i32>, x: i32)
    ensures
        v.push(x).reverse() == seq![x] + v.reverse(),
{
    assert(v.push(x).reverse() =~= seq![x] + v.reverse());
}

proof fn lemma_rev_rot(v: Seq<i32>)
    requires
        v.len() >= 2,
    ensures
        v.drop_last().insert(0, v.last()).reverse() == rot_up(v.reverse()),
        v.drop_first().push(v[0]).reverse() == rot_down(v.reverse()),
{
    assert(v.drop_last().insert(0, v.last()).reverse() =~= rot_up(v.reverse()));
    assert(v.drop_first().push(v[0]).reverse() =~= rot_down(v.reverse()));
}

impl Ps {
    /// A machine with `input` on stack a, its first element on top, and an
    /// empty b and log.
    pub fn new(input: Vec<i32>) -> (ps: Self)
        ensures
            stacks(&ps) == (input@, Seq::<i32>::empty()),
            ps.ops@ == Seq::<Op>::empty(),
    {
        let mut a: Vec<i32> = Vec::with_capacity(input.len());
        let mut i = input.len();
        while i > 0
            invariant
                i <= input@.len(),
                a@ == input@.skip(i as int).reverse(),
            decreases i,
        {
            i -= 1;
            proof {
                assert(input@.skip(i as int) =~= seq![input@[i as int]] + input@.skip(i + 1));
                assert(a@.push(input@[i as int]) =~= input@.skip(i as int).reverse());
            }
            a.push(input[i]);
        }
        proof {
            assert(input@.skip(0) =~= input@);
            assert(a@.reverse() =~= input@);
        }
        let ps = Ps { a, b: Vec::new(), ops: Vec::new() };
        proof {
            assert(ps.b@.reverse() =~= Seq::<i32>::empty());
        }
        ps
    }

    /// Record an operation in the log.
    pub fn push_op(&mut self, op: Op)
        ensures
            final(self).ops@ == old(self).ops@.push(op),
            final(self).a@ == old(self).a@,
            final(self).b@ == old(self).b@,
    {
        self.ops.push(op);
    }

    /// `sa`, recorded.
    pub fn sa(&mut self)
        ensures
            stacks(final(self)) == step(stacks(old(self)), Op::Sa),
            final(self).ops@ == old(self).ops@.push(Op::Sa),
            ps_replays(old(self), final(self)),
    {
        let ghost v = self.a@;
        let n = self.a.len();
        if n >= 2 {
            let x = self.a[n - 1];
            let y = self.a[n - 2];
            self.a.set(n - 1, y);
            self.a.set(n - 2, x);
            proof {
                lemma_rev_swap(v, self.a@);
            }
        }
        self.push_op(Op::Sa);
        proof {
            lemma_ps_step(old(self), self, Op::Sa);
        }
    }

    /// `sb`, recorded.
    pub fn sb(&mut self)
        ensures
            stacks(final(self)) == step(stacks(old(self)), Op::Sb),
            final(self).ops@ == old(self).ops@.push(Op::Sb),
            ps_replays(old(self), final(self)),
    {
        let ghost v = self.b@;
        let n = self.b.len();
        if n >= 2 {
            let x = self.b[n - 1];
            let y = self.b[n - 2];
            self.b.set(n - 1, y);
            self.b.set(n - 2, x);
            proof {
                lemma_rev_swap(v, self.b@);
            }
        }
        self.push_op(Op::Sb);
        proof {
            lemma_ps_step(old(self), self, Op::Sb);
        }
    }

    /// `pa`, recorded.
    pub fn pa(&mut self)
        ensures
            stacks(final(self)) == step(stacks(old(self)), Op::Pa),
            final(self).ops@ == old(self).ops@.push(Op::Pa),
            ps_replays(old(self), final(self)),
    {
        let ghost a0 = self.a@;
        let ghost b0 = self.b@;
        if let Some(v) = self.b.pop() {
            self.a.push(v);
            proof {
                lemma_rev_pop(b0);
                lemma_rev_push(a0, v);
            }
        }
        self.push_op(Op::Pa);
        proof {
            lemma_ps_step(old(self), self, Op::Pa);
        }
    }

    /// `pb`, recorded.
    pub fn pb(&mut self)
        ensures
            stacks(final(self)) == step(stacks(old(self)), Op::Pb),
            final(self).ops@ == old(self).ops@.push(Op::Pb),
            ps_replays(old(self), final(self)),
    {
        let ghost a0 = self.a@;
        let ghost b0 = self.b@;
        if let Some(v) = self.a.pop() {
            self.b.push(v);
            proof {
                lemma_rev_pop(a0);
                lemma_rev_push(b0, v);
            }
        }
        self.push_op(Op::Pb);
        proof {
            lemma_ps_step(old(self), self, Op::Pb);
        }
    }

    /// `ra`, recorded: the top element goes to the bottom.
    pub fn ra(&mut self)
        ensures
            stacks(final(self)) == step(stacks(old(self)), Op::Ra),
            final(self).ops@ == old(self).ops@.push(Op::Ra),
            ps_replays(old(self), final(self)),
    {
        let ghost v0 = self.a@;
        if self.a.len() >= 2 {
            let v = self.a.pop().unwrap_or(0);
            self.a.insert(0, v);
            proof {
                lemma_rev_rot(v0);
            }
        }
        self.push_op(Op::Ra);
        proof {
            lemma_ps_step(old(self), self, Op::Ra);
        }
    }

    /// `rb`, recorded.
    pub fn rb(&mut self)
        ensures
            stacks(final(self)) == step(stacks(old(self)), Op::Rb),
            final(self).ops@ == old(self).ops@.push(Op::Rb),
            ps_replays(old(self), final(self)),
    {
        let ghost v0 = self.b@;
        if self.b.len() >= 2 {
            let v = self.b.pop().unwrap_or(0);
            self.b.insert(0, v);
            proof {
                lemma_rev_rot(v0);
            }
        }
        self.push_op(Op::Rb);
        proof {
            lemma_ps_step(old(self), self, Op::Rb);
        }
    }

    /// `rra`, recorded: the bottom element comes to the top.
    pub fn rra(&mut self)
        ensures
            stacks(final(self)) == step(stacks(old(self)), Op::Rra),
            final(self).ops@ == old(self).ops@.push(Op::Rra),
            ps_replays(old(self), final(self)),
    {
        let ghost v0 = self.a@;
        if self.a.len() >= 2 {
            let v = self.a.remove(0);
            self.a.push(v);
            proof {
                lemma_rev_rot(v0);
            }
        }
        self.push_op(Op::Rra);
        proof {
            lemma_ps_step(old(self), self, Op::Rra);
        }
    }

    /// `rrb`, recorded.
    pub fn rrb(&mut self)
        ensures
            stacks(final(self)) == step(stacks(old(self)), Op::Rrb),
            final(self).ops@ == old(self).ops@.push(Op::Rrb),
            ps_replays(old(self), final(self)),
    {
        let ghost v0 = self.b@;
        if self.b.len() >= 2 {
            let v = self.b.remove(0);
            self.b.push(v);
            proof {
                lemma_rev_rot(v0);
            }
        }
        self.push_op(Op::Rrb);
        proof {
            lemma_ps_step(old(self), self, Op::Rrb);
        }
    }

    /// `ss`, recorded.
    pub fn ss(&mut self)
        ensures
            stacks(final(self)) == step(stacks(old(self)), Op::Ss),
            final(self).ops@ == old(self).ops@.push(Op::Ss),
            ps_replays(old(self), final(self)),
    {
        let ghost a0 = self.a@;
        let ghost b0 = self.b@;
        let na = self.a.len();
        if na >= 2 {
            let x = self.a[na - 1];
            let y = self.a[na - 2];
            self.a.set(na - 1, y);
            self.a.set(na - 2, x);
            proof {
                lemma_rev_swap(a0, self.a@);
            }
        }
        let nb = self.b.len();
        if nb >= 2 {
            let x = self.b[nb - 1];
            let y = self.b[nb - 2];
            self.b.set(nb - 1, y);
            self.b.set(nb - 2, x);
            proof {
                lemma_rev_swap(b0, self.b@);
            }
        }
        self.push_op(Op::Ss);
        proof {
            lemma_ps_step(old(self), self, Op::Ss);
        }
    }

    /// `rr`, recorded.
    pub fn rr(&mut self)
        ensures
            stacks(final(self)) == step(stacks(old(self)), Op::Rr),
            final(self).ops@ == old(self).ops@.push(Op::Rr),
            ps_replays(old(self), final(self)),
    {
        let ghost a0 = self.a@;
        let ghost b0 = self.b@;
        if self.a.len() >= 2 {
            let v = self.a.pop().unwrap_or(0);
            self.a.insert(0, v);
            proof {
                lemma_rev_rot(a0);
            }
        }
        if self.b.len() >= 2 {
            let v = self.b.pop().unwrap_or(0);
            self.b.insert(0, v);
            proof {
                lemma_rev_rot(b0);
            }
        }
        self.push_op(Op::Rr);
        proof {
            lemma_ps_step(old(self), self, Op::Rr);
        }
    }

    /// `rrr`, recorded.
    pub fn rrr(&mut self)
        ensures
            stacks(final(self)) == step(stacks(old(self)), Op::Rrr),
            final(self).ops@ == old(self).ops@.push(Op::Rrr),
            ps_replays(old(self), final(self)),
    {
        let ghost a0 = self.a@;
        let ghost b0 = self.b@;
        if self.a.len() >= 2 {
            let v = self.a.remove(0);
            self.a.push(v);
            proof {
                lemma_rev_rot(a0);
            }
        }
        if self.b.len() >= 2 {
            let v = self.b.remove(0);
            self.b.push(v);
            proof {
                lemma_rev_rot(b0);
            }
        }
        self.push_op(Op::Rrr);
        proof {
            lemma_ps_step(old(self), self, Op::Rrr);
        }
    }

    /// The top of a.
    pub fn a_top(&self) -> (r: i32)
        requires
            self.a@.len() >= 1,
        ensures
            r == stacks(self).0[0],
    {
        self.a[self.a.len() - 1]
    }

    /// The element under the top of a.
    pub fn a_second(&self) -> (r: i32)
        requires
            self.a@.len() >= 2,
        ensures
            r == stacks(self).0[1],
    {
        self.a[self.a.len() - 2]
    }

    /// The third element of a from the top.
    pub fn a_third(&self) -> (r: i32)
        requires
            self.a@.len() >= 3,
        ensures
            r == stacks(self).0[2],
    {
        self.a[self.a.len() - 3]
    }

    /// The top of b.
    pub fn b_top(&self) -> (r: i32)
        requires
            self.b@.len() >= 1,
        ensures
            r == stacks(self).1[0],
    {
        self.b[self.b.len() - 1]
    }
}

/// With b unchanged, a replay keeps the elements of a.
proof fn lemma_a_content(p0: &Ps, p1: &Ps)
    requires
        ps_replays(p0, p1),
        stacks(p1).1 == stacks(p0).1,
    ensures
        stacks(p1).0.to_multiset() == stacks(p0).0.to_multiset(),
{
    broadcast use vstd::multiset::group_multiset_axioms;

    let s0 = stacks(p0);
    let s1 = stacks(p1);
    lemma_replays_content(s0, p0.ops@, p1.ops@, s1);
    vstd::seq_lib::lemma_multiset_commutative(s0.0, s0.1);
    vstd::seq_lib::lemma_multiset_commutative(s1.0, s1.1);
    let m0 = s0.0.to_multiset();
    let m1 = s1.0.to_multiset();
    let mb = s0.1.to_multiset();
    assert forall|x: i32| #[trigger] m1.count(x) == m0.count(x) by {
        assert(m1.add(mb).count(x) == m0.add(mb).count(x));
    }
    assert(m1 =~= m0);
}

/// Sort three distinct elements of a, with at most two operations, from the
/// ranks the three have among themselves.
pub fn sort3(ps: &mut Ps)
    requires
        stacks(old(ps)).0.len() == 3,
        stacks(old(ps)).0.no_duplicates(),
    ensures
        stacks(final(ps)).0.len() == 3,
        ascending(stacks(final(ps)).0),
        stacks(final(ps)).0.to_multiset() == stacks(old(ps)).0.to_multiset(),
        stacks(final(ps)).1 == stacks(old(ps)).1,
        ps_replays(old(ps), final(ps)),
        final(ps).ops@.len() <= old(ps).ops@.len() + 2,
        a_moves_appended(old(ps).ops@, final(ps).ops@),
        ascending(stacks(old(ps)).0) ==> final(ps).ops@ == old(ps).ops@ && stacks(final(ps)) == stacks(old(ps)),
{
    proof {
        lemma_ps_refl(ps);
        lemma_a_moves_refl(ps.ops@);
    }
    let ghost l0 = ps.ops@;
    let ghost v = stacks(ps).0;
    let a = ps.a_top();
    let b = ps.a_second();
    let c = ps.a_third();
    let r0 = (if b < a { 1i32 } else { 0i32 }) + (if c < a { 1i32 } else { 0i32 });
    let r1 = (if a < b { 1i32 } else { 0i32 }) + (if c < b { 1i32 } else { 0i32 });
    let r2 = (if a < c { 1i32 } else { 0i32 }) + (if b < c { 1i32 } else { 0i32 });
    proof {
        assert(v[0] != v[1] && v[1] != v[2] && v[0] != v[2]);
    }
    if r0 == 0 && r1 == 1 && r2 == 2 {
    } else if r0 == 0 && r1 == 2 && r2 == 1 {
        ps.rra();
        let ghost p1 = *ps;
        ps.sa();
        proof {
            lemma_ps_trans(old(ps), &p1, ps);
            lemma_a_moves_push(l0, l0, Op::Rra);
            lemma_a_moves_push(l0, p1.ops@, Op::Sa);
        }
    } else if r0 == 1 && r1 == 0 && r2 == 2 {
        ps.sa();
        proof {
            lemma_a_moves_push(l0, l0, Op::Sa);
        }
    } else if r0 == 1 && r1 == 2 && r2 == 0 {
        ps.rra();
        proof {
            lemma_a_moves_push(l0, l0, Op::Rra);
        }
    } else if r0 == 2 && r1 == 0 && r2 == 1 {
        ps.ra();
        proof {
            lemma_a_moves_push(l0, l0, Op::Ra);
        }
    } else {
        ps.sa();
        let ghost p1 = *ps;
        ps.rra();
        proof {
            lemma_ps_trans(old(ps), &p1, ps);
            lemma_a_moves_push(l0, l0, Op::Sa);
            lemma_a_moves_push(l0, p1.ops@, Op::Rra);
        }
    }
    proof {
        lemma_a_content(old(ps), ps);
    }
}

/// The index from the top of the first smallest element of a stack kept
/// with its top at the end.
pub fn find_min_rank(a: &[i32]) -> (r: usize)
    requires
        a@.len() >= 1,
    ensures
        r < a@.len(),
        forall|k: int| 0 <= k < a@.len() ==> a@.reverse()[r as int] <= a@.reverse()[k],
        forall|k: int| 0 <= k < r ==> a@.reverse()[k] > a@.reverse()[r as int],
{
    let n = a.len();
    let mut best_idx: usize = 0;
    let mut best_val = a[n - 1];
    let mut k: usize = 1;
    while k < n
        invariant
            n == a@.len(),
            1 <= k <= n,
            best_idx < k,
            best_val == a@.reverse()[best_idx as int],
            forall|j: int| 0 <= j < k ==> best_val <= a@.reverse()[j],
            forall|j: int| 0 <= j < best_idx ==> a@.reverse()[j] > best_val,
        decreases n - k,
    {
        let v = a[n - 1 - k];
        if v < best_val {
            best_val = v;
            best_idx = k;
        }
        k += 1;
    }
    best_idx
}

/// Bring the element `k` places from the top of a to the top, with `ra`
/// when that takes no more moves than `rra`.
pub fn bring_top_a(ps: &mut Ps, k: usize)
    requires
        k <= stacks(old(ps)).0.len(),
    ensures
        stacks(final(ps)).0 == rot_by(stacks(old(ps)).0, k as int),
        stacks(final(ps)).1 == stacks(old(ps)).1,
        ps_replays(old(ps), final(ps)),
        final(ps).ops@ == old(ps).ops@ + if k <= stacks(old(ps)).0.len() - k {
            repeat(Op::Ra, k as nat)
        } else {
            repeat(Op::Rra, (stacks(old(ps)).0.len() - k) as nat)
        },
{
    let ghost v = stacks(ps).0;
    proof {
        lemma_ps_refl(ps);
        lemma_rot_by_ends(v);
    }
    let n = ps.a.len();
    if n == 0 || k == 0 {
        proof {
            assert(old(ps).ops@ + repeat(Op::Ra, 0) =~= old(ps).ops@);
        }
        return;
    }
    let up = k;
    let down = n - k;
    if up <= down {
        let mut t: usize = 0;
        proof {
            assert(old(ps).ops@ + repeat(Op::Ra, 0) =~= old(ps).ops@);
        }
        while t < up
            invariant
                t <= up,
                up == k,
                k < n,
                n == v.len(),
                stacks(ps).0 == rot_by(v, t as int),
                stacks(ps).1 == stacks(old(ps)).1,
                ps_replays(old(ps), ps),
                ps.ops@ == old(ps).ops@ + repeat(Op::Ra, t as nat),
            decreases up - t,
        {
            let ghost p1 = *ps;
            proof {
                lemma_rot_up_by(v, t as int);
            }
            ps.ra();
            proof {
                lemma_ps_trans(old(ps), &p1, ps);
                assert((old(ps).ops@ + repeat(Op::Ra, t as nat)).push(Op::Ra) =~= old(ps).ops@ + repeat(Op::Ra, (t + 1) as nat));
            }
            t += 1;
        }
    } else {
        let mut t: usize = 0;
        proof {
            assert(old(ps).ops@ + repeat(Op::Rra, 0) =~= old(ps).ops@);
        }
        while t < down
            invariant
                t <= down,
                down == n - k,
                n == v.len(),
                stacks(ps).0 == rot_by(v, n - t),
                stacks(ps).1 == stacks(old(ps)).1,
                ps_replays(old(ps), ps),
                ps.ops@ == old(ps).ops@ + repeat(Op::Rra, t as nat),
            decreases down - t,
        {
            let ghost p1 = *ps;
            proof {
                lemma_rot_down_by(v, n - t);
            }
            ps.rra();
            proof {
                lemma_ps_trans(old(ps), &p1, ps);
                assert((old(ps).ops@ + repeat(Op::Rra, t as nat)).push(Op::Rra) =~= old(ps).ops@ + repeat(Op::Rra, (t + 1) as nat));
            }
            t += 1;
        }
    }
}

/// After the smallest element of a is rotated to the top, it is below every
/// other element of a, and b stays below all of a.
proof fn lemma_smallest_on_top(v: Seq<i32>, w: Seq<i32>, bb: Seq<i32>, up: int)
    requires
        0 <= up < v.len(),
        w == rot_by(v, up),
        w.no_duplicates(),
        forall|j: int| 0 <= j < v.len() ==> v[up] <= v[j],
        forall|q: int, p: int| 0 <= q < bb.len() && 0 <= p < v.len() ==> bb[q] < v[p],
    ensures
        w[0] == v[up],
        forall|p: int| 1 <= p < w.len() ==> w[0] < #[trigger] w[p],
        forall|q: int, p: int| 0 <= q < bb.len() && 0 <= p < w.len() ==> bb[q] < w[p],
{
    let n = v.len();
    assert(w[0] == v[up]);
    assert forall|p: int| 0 <= p < w.len() implies w[0] <= #[trigger] w[p] by {
        if p < n - up {
            assert(w[p] == v[up + p]);
        } else {
            assert(w[p] == v[p - (n - up)]);
        }
    }
    assert forall|q: int, p: int| 0 <= q < bb.len() && 0 <= p < w.len() implies bb[q] < w[p] by {
        if p < n - up {
            assert(w[p] == v[up + p]);
        } else {
            assert(w[p] == v[p - (n - up)]);
        }
    }
    assert forall|p: int| 1 <= p < w.len() implies w[0] < #[trigger] w[p] by {
        assert(w[0] != w[p]);
    }
}

/// Pushing the smallest element of a onto a descending b whose elements are
/// all below a keeps b descending and below a.
proof fn lemma_smallest_pushed(w: Seq<i32>, bb: Seq<i32>, a2: Seq<i32>, b2: Seq<i32>)
    requires
        w.len() > 0,
        a2 == w.drop_first(),
        b2 == seq![w[0]] + bb,
        forall|i: int, j: int| 0 <= i < j < bb.len() ==> bb[i] > bb[j],
        forall|q: int, p: int| 0 <= q < bb.len() && 0 <= p < w.len() ==> bb[q] < w[p],
        forall|p: int| 1 <= p < w.len() ==> w[0] < #[trigger] w[p],
    ensures
        forall|i: int, j: int| 0 <= i < j < b2.len() ==> b2[i] > b2[j],
        forall|q: int, p: int| 0 <= q < b2.len() && 0 <= p < a2.len() ==> b2[q] < a2[p],
{
    assert forall|i: int, j: int| 0 <= i < j < b2.len() implies b2[i] > b2[j] by {
        if i > 0 {
            assert(b2[i] == bb[i - 1]);
        }
        assert(b2[j] == bb[j - 1]);
    }
    assert forall|q: int, p: int| 0 <= q < b2.len() && 0 <= p < a2.len() implies b2[q] < a2[p] by {
        assert(a2[p] == w[p + 1]);
        if q > 0 {
            assert(b2[q] == bb[q - 1]);
        }
    }
}

/// Sort a when it holds at most three elements, or b is empty: two are
/// swapped if out of order, three go to [`sort3`], more to [`selection_sort_a`].
pub fn sort_small_a(ps: &mut Ps)
    requires
        stacks(old(ps)).0.no_duplicates(),
        stacks(old(ps)).0.len() <= 3 || stacks(old(ps)).1.len() == 0,
    ensures
        ascending(stacks(final(ps)).0),
        stacks(final(ps)).0.to_multiset() == stacks(old(ps)).0.to_multiset(),
        stacks(final(ps)).1 == stacks(old(ps)).1,
        ps_replays(old(ps), final(ps)),
        stacks(old(ps)).0.len() <= 3 ==> final(ps).ops@.len() <= old(ps).ops@.len() + 2 && a_moves_appended(
            old(ps).ops@,
            final(ps).ops@,
        ),
        stacks(old(ps)).0.len() <= 3 && ascending(stacks(old(ps)).0) ==> final(ps).ops@ == old(ps).ops@,
    decreases (if old(ps).a@.len() <= 3 { 0int } else { 2 * old(ps).a@.len() as int + 1 }),
{
    proof {
        lemma_ps_refl(ps);
        lemma_a_moves_refl(ps.ops@);
    }
    let ghost l0 = ps.ops@;
    let n = ps.a.len();
    if n < 2 {
        return;
    }
    if n == 2 {
        if ps.a_top() > ps.a_second() {
            ps.sa();
            proof {
                lemma_a_moves_push(l0, l0, Op::Sa);
            }
        }
        proof {
            assert(stacks(old(ps)).0[0] != stacks(old(ps)).0[1]);
            lemma_a_content(old(ps), ps);
        }
        return;
    }
    if n == 3 {
        sort3(ps);
        return;
    }
    selection_sort_a(ps);
}

/// Sort a by selection: the smallest element is brought to the top the
/// short way round and pushed to b until three are left; those are sorted
/// and b is pushed back.
pub fn selection_sort_a(ps: &mut Ps)
    requires
        stacks(old(ps)).0.no_duplicates(),
        stacks(old(ps)).1.len() == 0,
    ensures
        ascending(stacks(final(ps)).0),
        stacks(final(ps)).0.to_multiset() == stacks(old(ps)).0.to_multiset(),
        stacks(final(ps)).1.len() == 0,
        ps_replays(old(ps), final(ps)),
    decreases (if old(ps).a@.len() <= 3 { 1int } else { 2 * old(ps).a@.len() as int }),
{
    let ghost s = stacks(ps).0;
    let ghost st0 = stacks(ps);
    proof {
        lemma_ps_refl(ps);
        assert(st0.0 + st0.1 =~= s);
    }
    while ps.a.len() > 3
        invariant
            st0 == (s, Seq::<i32>::empty()),
            st0.0 + st0.1 == s,
            s.no_duplicates(),
            ps.a@.len() <= s.len(),
            stacks(ps).0.len() + stacks(ps).1.len() == s.len(),
            forall|i: int, j: int| 0 <= i < j < stacks(ps).1.len() ==> stacks(ps).1[i] > stacks(ps).1[j],
            forall|q: int, p: int| 0 <= q < stacks(ps).1.len() && 0 <= p < stacks(ps).0.len() ==> stacks(ps).1[q] < stacks(ps).0[p],
            ps_replays(old(ps), ps),
            stacks(old(ps)) == st0,
        decreases ps.a@.len(),
    {
        let ghost v = stacks(ps).0;
        let n = ps.a.len();
        let mut min_idx_from_top: usize = 0;
        let mut min_val = ps.a[n - 1];
        let mut k: usize = 1;
        while k < n
            invariant
                n == ps.a@.len(),
                v == ps.a@.reverse(),
                1 <= k <= n,
                min_idx_from_top < k,
                min_val == v[min_idx_from_top as int],
                forall|j: int| 0 <= j < k ==> min_val <= v[j],
            decreases n - k,
        {
            let x = ps.a[n - 1 - k];
            if x < min_val {
                min_val = x;
                min_idx_from_top = k;
            }
            k += 1;
        }
        let up = min_idx_from_top;
        let down = n - min_idx_from_top;
        let ghost p0 = *ps;
        proof {
            lemma_ps_refl(ps);
            lemma_rot_by_ends(v);
        }
        if up <= down {
            let mut t: usize = 0;
            while t < up
                invariant
                    t <= up,
                    up < n,
                    n == v.len(),
                    stacks(ps).0 == rot_by(v, t as int),
                    stacks(ps).1 == stacks(&p0).1,
                    ps_replays(&p0, ps),
                decreases up - t,
            {
                let ghost p1 = *ps;
                proof {
                    lemma_rot_up_by(v, t as int);
                }
                ps.ra();
                proof {
                    lemma_ps_trans(&p0, &p1, ps);
                }
                t += 1;
            }
        } else {
            let mut t: usize = 0;
            while t < down
                invariant
                    t <= down,
                    down == n - up,
                    up < n,
                    n == v.len(),
                    stacks(ps).0 == rot_by(v, n - t),
                    stacks(ps).1 == stacks(&p0).1,
                    ps_replays(&p0, ps),
                decreases down - t,
            {
                let ghost p1 = *ps;
                proof {
                    lemma_rot_down_by(v, n - t);
                }
                ps.rra();
                proof {
                    lemma_ps_trans(&p0, &p1, ps);
                }
                t += 1;
            }
        }
        proof {
            lemma_ps_trans(old(ps), &p0, ps);
            let w = stacks(ps).0;
            let bb = stacks(ps).1;
            lemma_replays_content(st0, old(ps).ops@, ps.ops@, stacks(ps));
            lemma_same_contents_no_dup(w + bb, s);
            lemma_split_no_dup(w, bb);
            lemma_smallest_on_top(v, w, bb, up as int);
        }
        let ghost p2 = *ps;
        ps.pb();
        proof {
            lemma_ps_trans(old(ps), &p2, ps);
            lemma_smallest_pushed(stacks(&p2).0, stacks(&p2).1, stacks(ps).0, stacks(ps).1);
        }
    }
    proof {
        lemma_replays_content(st0, old(ps).ops@, ps.ops@, stacks(ps));
        lemma_same_contents_no_dup(stacks(ps).0 + stacks(ps).1, s);
        lemma_split_no_dup(stacks(ps).0, stacks(ps).1);
    }
    let ghost p3 = *ps;
    sort_small_a(ps);
    proof {
        lemma_ps_trans(old(ps), &p3, ps);
        assert forall|q: int, p: int| 0 <= q < stacks(ps).1.len() && 0 <= p < stacks(ps).0.len() implies stacks(ps).1[q] < stacks(ps).0[p] by {
            lemma_member_of(stacks(ps).0, stacks(&p3).0, p);
        }
    }
    while !ps.b.is_empty()
        invariant
            st0 == (s, Seq::<i32>::empty()),
            st0.0 + st0.1 == s,
            stacks(old(ps)) == st0,
            ascending(stacks(ps).0),
            forall|i: int, j: int| 0 <= i < j < stacks(ps).1.len() ==> stacks(ps).1[i] > stacks(ps).1[j],
            forall|q: int, p: int| 0 <= q < stacks(ps).1.len() && 0 <= p < stacks(ps).0.len() ==> stacks(ps).1[q] < stacks(ps).0[p],
            ps_replays(old(ps), ps),
        decreases ps.b@.len(),
    {
        let ghost p1 = *ps;
        ps.pa();
        proof {
            lemma_ps_trans(old(ps), &p1, ps);
            assert(ps.b@.len() == stacks(ps).1.len());
            assert(p1.b@.len() == stacks(&p1).1.len());
            let a1 = stacks(&p1).0;
            let b1 = stacks(&p1).1;
            assert forall|i: int, j: int| 0 <= i < j < stacks(ps).1.len() implies stacks(ps).1[i] > stacks(ps).1[j] by {
                assert(stacks(ps).1[i] == b1[i + 1]);
                assert(stacks(ps).1[j] == b1[j + 1]);
            }
            assert forall|q: int, p: int| 0 <= q < stacks(ps).1.len() && 0 <= p < stacks(ps).0.len() implies stacks(ps).1[q] < stacks(ps).0[p] by {
                assert(stacks(ps).1[q] == b1[q + 1]);
                if p > 0 {
                    assert(stacks(ps).0[p] == a1[p - 1]);
                }
            }
        }
    }
    proof {
        lemma_replays_content(st0, old(ps).ops@, ps.ops@, stacks(ps));
        assert(stacks(ps).0 + stacks(ps).1 =~= stacks(ps).0);
    }
}

/// Four or five elements (or more): the smallest is brought to the top and
/// pushed to b until three are left, those are sorted, and b comes back.
pub fn sort_small(ps: &mut Ps)
    requires
        stacks(old(ps)).0.len() >= 3,
        stacks(old(ps)).0.no_duplicates(),
        stacks(old(ps)).1.len() == 0,
    ensures
        ascending(stacks(final(ps)).0),
        stacks(final(ps)).0.to_multiset() == stacks(old(ps)).0.to_multiset(),
        stacks(final(ps)).1.len() == 0,
        ps_replays(old(ps), final(ps)),
        stacks(old(ps)).0.len() <= 5 ==> final(ps).ops@.len() <= old(ps).ops@.len() + 12,
{
    let ghost s = stacks(ps).0;
    let ghost st0 = stacks(ps);
    proof {
        lemma_ps_refl(ps);
        assert(st0.0 + st0.1 =~= s);
    }
    while ps.a.len() > 3
        invariant
            st0 == (s, Seq::<i32>::empty()),
            st0.0 + st0.1 == s,
            s.no_duplicates(),
            stacks(ps).0.len() >= 3,
            forall|i: int, j: int| 0 <= i < j < stacks(ps).1.len() ==> stacks(ps).1[i] > stacks(ps).1[j],
            forall|q: int, p: int| 0 <= q < stacks(ps).1.len() && 0 <= p < stacks(ps).0.len() ==> stacks(ps).1[q] < stacks(ps).0[p],
            ps_replays(old(ps), ps),
            stacks(old(ps)) == st0,
            ps.a@.len() + ps.b@.len() == s.len(),
            s.len() <= 5 ==> ps.ops@.len() + 3 * ps.a@.len() <= old(ps).ops@.len() + 3 * s.len(),
        decreases ps.a@.len(),
    {
        let ghost v = stacks(ps).0;
        let n = ps.a.len();
        let target = find_min_rank(ps.a.as_slice());
        let ghost p0 = *ps;
        bring_top_a(ps, target);
        proof {
            assert(ps.ops@.len() <= p0.ops@.len() + n / 2);
            lemma_ps_trans(old(ps), &p0, ps);
            let up = target;
            let w = stacks(ps).0;
            let bb = stacks(ps).1;
            lemma_replays_content(st0, old(ps).ops@, ps.ops@, stacks(ps));
            lemma_same_contents_no_dup(w + bb, s);
            lemma_split_no_dup(w, bb);
            lemma_smallest_on_top(v, w, bb, up as int);
        }
        let ghost p2 = *ps;
        ps.pb();
        proof {
            lemma_ps_trans(old(ps), &p2, ps);
            lemma_smallest_pushed(stacks(&p2).0, stacks(&p2).1, stacks(ps).0, stacks(ps).1);
        }
    }
    proof {
        lemma_replays_content(st0, old(ps).ops@, ps.ops@, stacks(ps));
        lemma_same_contents_no_dup(stacks(ps).0 + stacks(ps).1, s);
        lemma_split_no_dup(stacks(ps).0, stacks(ps).1);
    }
    let ghost p3 = *ps;
    sort3(ps);
    let ghost l3 = ps.ops@;
    proof {
        lemma_ps_trans(old(ps), &p3, ps);
        assert forall|q: int, p: int| 0 <= q < stacks(ps).1.len() && 0 <= p < stacks(ps).0.len() implies stacks(ps).1[q] < stacks(ps).0[p] by {
            lemma_member_of(stacks(ps).0, stacks(&p3).0, p);
        }
    }
    while !ps.b.is_empty()
        invariant
            st0 == (s, Seq::<i32>::empty()),
            st0.0 + st0.1 == s,
            stacks(old(ps)) == st0,
            ascending(stacks(ps).0),
            forall|i: int, j: int| 0 <= i < j < stacks(ps).1.len() ==> stacks(ps).1[i] > stacks(ps).1[j],
            forall|q: int, p: int| 0 <= q < stacks(ps).1.len() && 0 <= p < stacks(ps).0.len() ==> stacks(ps).1[q] < stacks(ps).0[p],
            ps_replays(old(ps), ps),
            s.len() <= 5 ==> ps.ops@.len() + ps.b@.len() <= old(ps).ops@.len() + 12,
        decreases ps.b@.len(),
    {
        let ghost p1 = *ps;
        ps.pa();
        proof {
            lemma_ps_trans(old(ps), &p1, ps);
            assert(ps.b@.len() == stacks(ps).1.len());
            assert(p1.b@.len() == stacks(&p1).1.len());
            let a1 = stacks(&p1).0;
            let b1 = stacks(&p1).1;
            assert forall|i: int, j: int| 0 <= i < j < stacks(ps).1.len() implies stacks(ps).1[i] > stacks(ps).1[j] by {
                assert(stacks(ps).1[i] == b1[i + 1]);
                assert(stacks(ps).1[j] == b1[j + 1]);
            }
            assert forall|q: int, p: int| 0 <= q < stacks(ps).1.len() && 0 <= p < stacks(ps).0.len() implies stacks(ps).1[q] < stacks(ps).0[p] by {
                assert(stacks(ps).1[q] == b1[q + 1]);
                if p > 0 {
                    assert(stacks(ps).0[p] == a1[p - 1]);
                }
            }
        }
    }
    proof {
        lemma_replays_content(st0, old(ps).ops@, ps.ops@, stacks(ps));
        assert(stacks(ps).0 + stacks(ps).1 =~= stacks(ps).0);
    }
}

/// The rank of each value: how many of the values are below it.
pub fn rank_compress(values: &[i32]) -> (ranks: Vec<usize>)
    ensures
        ranks@.len() == values@.len(),
        forall|i: int| 0 <= i < values@.len() ==> #[trigger] ranks@[i] == count_below(values@, values@[i]),
{
    let n = values.len();
    let mut ranks: Vec<usize> = Vec::with_capacity(n);
    let mut i: usize = 0;
    while i < n
        invariant
            n == values@.len(),
            i <= n,
            ranks@.len() == i,
            forall|k: int| 0 <= k < i ==> #[trigger] ranks@[k] == count_below(values@, values@[k]),
        decreases n - i,
    {
        let mut r: usize = 0;
        let mut j: usize = 0;
        while j < n
            invariant
                n == values@.len(),
                j <= n,
                i < n,
                r == count_below(values@.take(j as int), values@[i as int]),
            decreases n - j,
        {
            proof {
                lemma_count_below_take(values@, values@[i as int], j as int);
                lemma_count_below_bound(values@.take(j as int), values@[i as int]);
            }
            if values[j] < values[i] {
                r += 1;
            }
            j += 1;
        }
        proof {
            assert(values@.take(n as int) =~= values@);
        }
        ranks.push(r);
        i += 1;
    }
    ranks
}

/// Whether the sequence is strictly increasing.
pub fn is_sorted(v: &[usize]) -> (r: bool)
    ensures
        r == (forall|i: int, j: int| 0 <= i < j < v@.len() ==> v@[i] < v@[j]),
{
    let mut i: usize = 1;
    while i < v.len()
        invariant
            1 <= i,
            i <= v@.len() || v@.len() == 0,
            forall|p: int, q: int| 0 <= p < q < i && q < v@.len() ==> v@[p] < v@[q],
        decreases v@.len() - i,
    {
        if v[i - 1] >= v[i] {
            return false;
        }
        i += 1;
    }
    true
}


/// Parse the bytes of a token as an `i32`: an optional `+` or `-`, then one
/// or more decimal digits, with a value that fits.
fn parse_i32_bytes(bytes: &[u8]) -> (r: Option<i32>)
    ensures
        r == parse_i32_of(bytes@, byte_code()),
{
    let ghost t = bytes@;
    let ghost code = byte_code();
    if bytes.len() == 0 {
        return None;
    }
    let mut i: usize = 0;
    let mut neg = false;
    if bytes[0] == 43u8 {
        i = 1;
    } else if bytes[0] == 45u8 {
        neg = true;
        i = 1;
    }
    if i >= bytes.len() {
        return None;
    }
    let ghost start = i as int;
    let ghost u = unsigned_part(t, code);
    proof {
        assert(u =~= t.skip(start));
    }
    let mut acc: i64 = 0;
    while i < bytes.len()
        invariant
            t == bytes@,
            code == byte_code(),
            u == unsigned_part(t, code),
            u == t.skip(start),
            u.len() == t.len() - start,
            start <= i <= t.len(),
            start < t.len(),
            neg <==> (has_sign(t, code) && code(t[0]) == 45),
            forall|k: int| 0 <= k < i - start ==> is_digit_code(code(#[trigger] u[k])),
            acc == digits_value(u.take(i - start), code),
            0 <= acc <= 2147483648,
        decreases t.len() - i,
    {
        let c = bytes[i];
        proof {
            assert(u[i - start] == c);
            lemma_digits_value_take(u, code, i - start);
        }
        if c < 48u8 || c > 57u8 {
            proof {
                assert(!is_digit_code(code(u[i - start])));
                assert(!all_digits(u, code));
            }
            return None;
        }
        acc = acc * 10 + (c - 48u8) as i64;
        proof {
            lemma_all_digits_take(u, code, i - start + 1);
            if all_digits(u, code) {
                lemma_digits_value_prefix(u, code, i - start + 1);
            }
        }
        if acc > 2147483648i64 {
            proof {
                if all_digits(u, code) {
                    assert(digits_value(u, code) > 2147483648);
                    assert(crate::tokens::token_value(t, code) == if neg {
                        -digits_value(u, code)
                    } else {
                        digits_value(u, code)
                    });
                }
            }
            return None;
        }
        i += 1;
    }
    proof {
        assert(u.take(u.len() as int) =~= u);
        lemma_all_digits_take(u, code, u.len() as int);
    }
    if neg {
        acc = -acc;
    }
    if acc < -2147483648i64 || acc > 2147483647i64 {
        return None;
    }
    Some(acc as i32)
}

/// Parse a token as an `i32`: an optional `+` or `-`, then one or more
/// decimal digits, with a value that fits.
pub fn parse_i32(s: &str) -> (r: Option<i32>)
    ensures
        r == parse_i32_of(s.spec_bytes(), byte_code()),
{
    parse_i32_bytes(s.as_bytes())
}

/// The separators between numbers: space, tab, newline, carriage return,
/// vertical tab and form feed.
pub open spec fn ws_byte() -> spec_fn(u8) -> bool {
    |c: u8| c == 32 || c == 9 || c == 10 || c == 13 || c == 11 || c == 12
}

/// Whether a byte separates numbers.
pub fn is_ws(c: u8) -> (r: bool)
    ensures
        r == ws_byte()(c),
{
    c == 32u8 || c == 9u8 || c == 10u8 || c == 13u8 || c == 11u8 || c == 12u8
}

/// The tokens of the arguments, in order: each argument split at separators.
pub open spec fn arg_tokens(args: Seq<String>) -> Seq<Seq<u8>>
    decreases args.len(),
{
    if args.len() == 0 {
        Seq::empty()
    } else {
        arg_tokens(args.drop_last()) + words(encode_utf8(args.last()@), ws_byte())
    }
}

/// Every argument is non-empty and holds at least one token.
pub open spec fn args_shaped(args: Seq<String>) -> bool {
    forall|i: int| 0 <= i < args.len() ==> #[trigger] args[i]@.len() > 0 && words(encode_utf8(args[i]@), ws_byte()).len() > 0
}

/// Every token is an `i32`.
pub open spec fn tokens_parse(toks: Seq<Seq<u8>>) -> bool {
    forall|j: int| 0 <= j < toks.len() ==> #[trigger] parse_i32_of(toks[j], byte_code()) is Some
}

/// The `i32` of a token, 0 when it has none.
pub open spec fn token_i32(t: Seq<u8>) -> i32 {
    match parse_i32_of(t, byte_code()) {
        Some(v) => v,
        None => 0,
    }
}

/// The numbers of the tokens.
pub open spec fn token_values(toks: Seq<Seq<u8>>) -> Seq<i32> {
    toks.map_values(|t: Seq<u8>| token_i32(t))
}

proof fn lemma_arg_tokens_prefix(args: Seq<String>, i: int)
    requires
        0 <= i <= args.len(),
    ensures
        arg_tokens(args.take(i)).len() <= arg_tokens(args).len(),
        arg_tokens(args.take(i)) == arg_tokens(args).take(arg_tokens(args.take(i)).len() as int),
    decreases args.len(),
{
    if i == args.len() {
        assert(args.take(i) =~= args);
    } else {
        let d = args.drop_last();
        assert(args.take(i) =~= d.take(i));
        lemma_arg_tokens_prefix(d, i);
        assert(arg_tokens(args) == arg_tokens(d) + words(encode_utf8(args.last()@), ws_byte()));
        assert(arg_tokens(d).take(arg_tokens(d.take(i)).len() as int) =~= arg_tokens(args).take(arg_tokens(d.take(i)).len() as int));
    }
}

proof fn lemma_arg_tokens_step(args: Seq<String>, i: int)
    requires
        0 <= i < args.len(),
    ensures
        arg_tokens(args.take(i + 1)) == arg_tokens(args.take(i)) + words(encode_utf8(args[i]@), ws_byte()),
{
    assert(args.take(i + 1).drop_last() =~= args.take(i));
    assert(args.take(i + 1).last() == args[i]);
}

/// Some token of `toks` holds the byte `b`.
pub open spec fn in_some_token(toks: Seq<Seq<u8>>, b: u8) -> bool {
    exists|k: int, m: int| 0 <= k < toks.len() && 0 <= m < toks[k].len() && #[trigger] toks[k][m] == b
}

/// A byte that can stand in no number: no decimal digit, no `+` or `-`, and
/// none of the six separators (such as `,`, `x` or a byte of `é`).
pub open spec fn stray_byte(b: u8) -> bool {
    !(48 <= b <= 57) && b != 43 && b != 45 && !(b == 32 || 9 <= b <= 13)
}

/// Some argument holds a stray byte.
pub open spec fn has_stray_byte(args: Seq<String>) -> bool {
    exists|i: int, j: int|
        0 <= i < args.len() && 0 <= j < encode_utf8(args[i]@).len() && stray_byte(
            #[trigger] encode_utf8(args[i]@)[j],
        )
}

proof fn lemma_arg_tokens_no_ws(args: Seq<String>)
    ensures
        forall|k: int, m: int|
            0 <= k < arg_tokens(args).len() && 0 <= m < arg_tokens(args)[k].len() ==> !ws_byte()(
                #[trigger] arg_tokens(args)[k][m],
            ),
    decreases args.len(),
{
    if args.len() > 0 {
        let d = args.drop_last();
        let a = arg_tokens(d);
        let w = words(encode_utf8(args.last()@), ws_byte());
        lemma_arg_tokens_no_ws(d);
        crate::tokens::lemma_words_from_no_sep(encode_utf8(args.last()@), Seq::empty(), ws_byte());
        assert(arg_tokens(args) == a + w);
        assert forall|k: int, m: int|
            0 <= k < arg_tokens(args).len() && 0 <= m < arg_tokens(args)[k].len() implies !ws_byte()(
            #[trigger] arg_tokens(args)[k][m],
        ) by {
            if k < a.len() {
                assert(arg_tokens(args)[k] == a[k]);
            } else {
                assert(arg_tokens(args)[k] == w[k - a.len()]);
            }
        }
    }
}

proof fn lemma_arg_tokens_cover(args: Seq<String>, i: int, j: int)
    requires
        0 <= i < args.len(),
        0 <= j < encode_utf8(args[i]@).len(),
        !ws_byte()(encode_utf8(args[i]@)[j]),
    ensures
        in_some_token(arg_tokens(args), encode_utf8(args[i]@)[j]),
    decreases args.len(),
{
    let d = args.drop_last();
    let a = arg_tokens(d);
    let t = encode_utf8(args[i]@);
    let b = t[j];
    assert(arg_tokens(args) == a + words(encode_utf8(args.last()@), ws_byte()));
    if i == args.len() - 1 {
        let w = words(t, ws_byte());
        crate::tokens::lemma_words_from_cover(t, Seq::empty(), ws_byte(), j);
        let (k, m) = choose|k: int, m: int|
            0 <= k < w.len() && 0 <= m < w[k].len() && #[trigger] w[k][m] == b;
        assert(arg_tokens(args)[a.len() + k] == w[k]);
        assert(arg_tokens(args)[a.len() + k][m] == b);
    } else {
        assert(d[i] == args[i]);
        lemma_arg_tokens_cover(d, i, j);
        let (k, m) = choose|k: int, m: int|
            0 <= k < a.len() && 0 <= m < a[k].len() && #[trigger] a[k][m] == b;
        assert(arg_tokens(args)[k] == a[k]);
        assert(arg_tokens(args)[k][m] == b);
    }
}

/// A byte of an argument lies in one of the tokens of the arguments exactly
/// when it is not one of the six separators: space, tab, line feed, vertical
/// tab, form feed and carriage return.
pub proof fn law_arg_bytes(args: Seq<String>, i: int, j: int)
    requires
        0 <= i < args.len(),
        0 <= j < encode_utf8(args[i]@).len(),
    ensures
        in_some_token(arg_tokens(args), encode_utf8(args[i]@)[j]) <==> !({
            let b = encode_utf8(args[i]@)[j];
            b == 32 || 9 <= b <= 13
        }),
{
    let b = encode_utf8(args[i]@)[j];
    if !ws_byte()(b) {
        lemma_arg_tokens_cover(args, i, j);
    }
    if in_some_token(arg_tokens(args), b) {
        lemma_arg_tokens_no_ws(args);
        let toks = arg_tokens(args);
        let (k, m) = choose|k: int, m: int|
            0 <= k < toks.len() && 0 <= m < toks[k].len() && #[trigger] toks[k][m] == b;
        assert(!ws_byte()(toks[k][m]));
    }
}

/// An argument holding a stray byte, such as `,`, is refused: one of its
/// tokens is no number.
pub proof fn law_stray_byte_refused(args: Seq<String>, i: int, j: int)
    requires
        0 <= i < args.len(),
        0 <= j < encode_utf8(args[i]@).len(),
        stray_byte(encode_utf8(args[i]@)[j]),
    ensures
        !tokens_parse(arg_tokens(args)),
{
    let b = encode_utf8(args[i]@)[j];
    let toks = arg_tokens(args);
    lemma_arg_tokens_cover(args, i, j);
    let (k, m) = choose|k: int, m: int|
        0 <= k < toks.len() && 0 <= m < toks[k].len() && #[trigger] toks[k][m] == b;
    crate::tokens::lemma_stray_not_int(toks[k], byte_code(), m);
    assert(parse_i32_of(toks[k], byte_code()) is None);
}


/// Read the numbers of the arguments: each argument is split at separators
/// into tokens, each token must be an `i32`. It fails on an empty argument,
/// an argument of separators only, a token that is not an `i32`, and a
/// number given twice.
pub fn parse_args(args: Vec<String>) -> (r: Result<Vec<i32>, ()>)
    ensures
        r is Ok <==> (args_shaped(args@) && tokens_parse(arg_tokens(args@)) && token_values(
            arg_tokens(args@),
        ).no_duplicates()),
        r is Ok ==> r->Ok_0@ == token_values(arg_tokens(args@)),
        has_stray_byte(args@) ==> r is Err,
{
    proof {
        if has_stray_byte(args@) {
            let (i, j) = choose|i: int, j: int|
                0 <= i < args@.len() && 0 <= j < encode_utf8(args@[i]@).len() && stray_byte(
                    #[trigger] encode_utf8(args@[i]@)[j],
                );
            law_stray_byte_refused(args@, i, j);
        }
    }
    let mut out: Vec<i32> = Vec::new();
    let mut i: usize = 0;
    proof {
        assert(args@.take(0) =~= Seq::<String>::empty());
        assert(token_values(arg_tokens(args@.take(0))) =~= Seq::<i32>::empty());
    }
    while i < args.len()
        invariant
            i <= args@.len(),
            forall|k: int| 0 <= k < i ==> #[trigger] args@[k]@.len() > 0 && words(encode_utf8(args@[k]@), ws_byte()).len() > 0,
            tokens_parse(arg_tokens(args@.take(i as int))),
            out@ == token_values(arg_tokens(args@.take(i as int))),
        decreases args@.len() - i,
    {
        let arg = &args[i];
        if arg.as_str().is_empty() {
            return Err(());
        }
        let bytes = arg.as_str().as_bytes();
        let ghost t = bytes@;
        let ghost sep = ws_byte();
        let ghost before = arg_tokens(args@.take(i as int));
        let ghost mut found: Seq<Seq<u8>> = Seq::empty();
        proof {
            assert(t == encode_utf8(args@[i as int]@));
            assert(t.skip(0) =~= t);
            assert(token_values(before) + token_values(found) =~= token_values(before));
        }
        let mut tok_count: usize = 0;
        let mut j: usize = 0;
        while j < bytes.len()
            invariant
                t == bytes@,
                t == encode_utf8(args@[i as int]@),
                i < args@.len(),
                before == arg_tokens(args@.take(i as int)),
                sep == ws_byte(),
                j <= t.len(),
                found + words_from(t.skip(j as int), Seq::empty(), sep) == words(t, sep),
                tok_count == found.len(),
                tokens_parse(found),
                out@ == token_values(before) + token_values(found),
                tok_count <= j,
            decreases t.len() - j,
        {
            let ghost j0 = j;
            while j < bytes.len() && is_ws(bytes[j])
                invariant
                    t == bytes@,
                    sep == ws_byte(),
                    j0 <= j <= t.len(),
                    found + words_from(t.skip(j as int), Seq::empty(), sep) == words(t, sep),
                decreases t.len() - j,
            {
                proof {
                    lemma_words_sep(t, j as int, Seq::empty(), sep);
                    assert(Seq::<Seq<u8>>::empty() + words_from(t.skip(j + 1), Seq::empty(), sep) =~= words_from(t.skip(j + 1), Seq::empty(), sep));
                }
                j += 1;
            }
            if j < bytes.len() {
                let start = j;
                proof {
                    assert(t.subrange(start as int, j as int) =~= Seq::<u8>::empty());
                }
                while j < bytes.len() && !is_ws(bytes[j])
                    invariant
                        t == bytes@,
                        sep == ws_byte(),
                        start <= j <= t.len(),
                        start < t.len(),
                        !sep(t[start as int]),
                        words_from(t.skip(start as int), Seq::empty(), sep) == words_from(t.skip(j as int), t.subrange(start as int, j as int), sep),
                    decreases t.len() - j,
                {
                    proof {
                        lemma_words_char(t, j as int, t.subrange(start as int, j as int), sep);
                        assert(t.subrange(start as int, j as int).push(t[j as int]) =~= t.subrange(start as int, j + 1));
                    }
                    j += 1;
                }
                let ghost w = t.subrange(start as int, j as int);
                proof {
                    assert(w.len() > 0);
                    lemma_words_end(t, j as int, w, sep);
                    assert(found + words_from(t.skip(start as int), Seq::empty(), sep) == words(t, sep));
                    assert(found + seq![w] + words_from(t.skip(j as int), Seq::empty(), sep) =~= found + words_from(t.skip(start as int), Seq::empty(), sep));
                }
                let tok = vstd::slice::slice_subrange(bytes, start, j);
                match parse_i32_bytes(tok) {
                    Some(v) => {
                        out.push(v);
                        proof {
                            let f2 = found.push(w);
                            assert(token_values(before) + token_values(f2) =~= (token_values(before) + token_values(found)).push(v));
                            assert(f2 + words_from(t.skip(j as int), Seq::empty(), sep) =~= found + seq![w] + words_from(t.skip(j as int), Seq::empty(), sep));
                            assert forall|q: int| 0 <= q < f2.len() implies #[trigger] parse_i32_of(f2[q], byte_code()) is Some by {
                                if q < found.len() {
                                    assert(f2[q] == found[q]);
                                }
                            }
                            found = f2;
                        }
                    },
                    None => {
                        proof {
                            let idx: int = (before.len() + found.len()) as int;
                            lemma_arg_tokens_step(args@, i as int);
                            lemma_arg_tokens_prefix(args@, i + 1);
                            let all = arg_tokens(args@);
                            let upto = arg_tokens(args@.take(i + 1));
                            assert(upto == before + words(t, sep));
                            assert(words(t, sep)[found.len() as int] == w);
                            assert(upto[idx] == w);
                            assert(all[idx] == upto[idx]);
                            assert(parse_i32_of(all[idx], byte_code()) is None);
                        }
                        return Err(());
                    },
                }
                tok_count += 1;
            }
        }
        proof {
            crate::tokens::lemma_words_done(t, sep);
            assert(found + Seq::<Seq<u8>>::empty() =~= found);
            assert(found == words(t, sep));
        }
        if tok_count == 0 {
            proof {
                assert(!(args@[i as int]@.len() > 0 && words(encode_utf8(args@[i as int]@), ws_byte()).len() > 0));
            }
            return Err(());
        }
        proof {
            lemma_arg_tokens_step(args@, i as int);
            assert(token_values(before + found) =~= token_values(before) + token_values(found));
            assert forall|q: int| 0 <= q < (before + found).len() implies #[trigger] parse_i32_of((before + found)[q], byte_code()) is Some by {
                if q < before.len() {
                    assert((before + found)[q] == before[q]);
                } else {
                    assert((before + found)[q] == found[q - before.len()]);
                }
            }
        }
        i += 1;
    }
    proof {
        assert(args@.take(args@.len() as int) =~= args@);
        assert(args_shaped(args@));
    }
    let ghost vals = out@;
    let mut k: usize = 0;
    while k < out.len()
        invariant
            vals == out@,
            args_shaped(args@),
            tokens_parse(arg_tokens(args@)),
            out@ == token_values(arg_tokens(args@)),
            k <= out@.len(),
            forall|p: int, q: int| 0 <= p < k && p < q < out@.len() ==> out@[p] != out@[q],
        decreases out@.len() - k,
    {
        let mut l = k + 1;
        while l < out.len()
            invariant
                vals == out@,
                out@ == token_values(arg_tokens(args@)),
                k < out@.len(),
                k + 1 <= l <= out@.len(),
                forall|q: int| k < q < l ==> out@[k as int] != #[trigger] out@[q],
            decreases out@.len() - l,
        {
            if out[k] == out[l] {
                proof {
                    assert(!out@.no_duplicates());
                }
                return Err(());
            }
            l += 1;
        }
        k += 1;
    }
    proof {
        assert forall|p: int, q: int| 0 <= p < out@.len() && 0 <= q < out@.len() && p != q implies out@[p] != out@[q] by {
            if q < p {
                assert(out@[q] != out@[p]);
            }
        }
    }
    Ok(out)
}

/// A rank that may go to b while chunk `cur` (or an earlier one) is filled.
pub open spec fn eligible(x: i32, p: int, cs: int, cur: int) -> bool {
    0 <= x < p && (x as int) / cs <= cur
}

/// The index of the first eligible rank from the top, or the length.
pub open spec fn first_eligible(v: Seq<i32>, p: int, cs: int, cur: int) -> nat
    decreases v.len(),
{
    if v.len() == 0 {
        0
    } else if eligible(v[0], p, cs, cur) {
        0
    } else {
        1 + first_eligible(v.drop_first(), p, cs, cur)
    }
}

proof fn lemma_first_eligible(v: Seq<i32>, p: int, cs: int, cur: int)
    ensures
        first_eligible(v, p, cs, cur) <= v.len(),
        first_eligible(v, p, cs, cur) < v.len() ==> eligible(v[first_eligible(v, p, cs, cur) as int], p, cs, cur),
        forall|k: int| 0 <= k < first_eligible(v, p, cs, cur) ==> !eligible(#[trigger] v[k], p, cs, cur),
    decreases v.len(),
{
    if v.len() > 0 && !eligible(v[0], p, cs, cur) {
        lemma_first_eligible(v.drop_first(), p, cs, cur);
        assert forall|k: int| 0 <= k < first_eligible(v, p, cs, cur) implies !eligible(#[trigger] v[k], p, cs, cur) by {
            if k > 0 {
                assert(v[k] == v.drop_first()[k - 1]);
            }
        }
    }
}

/// Rotating an ineligible top to the bottom brings the first eligible rank
/// one place nearer the top.
proof fn lemma_first_eligible_rot(v: Seq<i32>, p: int, cs: int, cur: int)
    requires
        v.len() >= 1,
        !eligible(v[0], p, cs, cur),
    ensures
        first_eligible(v, p, cs, cur) < v.len() ==> first_eligible(rot_up(v), p, cs, cur) == first_eligible(v, p, cs, cur) - 1,
        first_eligible(v, p, cs, cur) == v.len() ==> first_eligible(rot_up(v), p, cs, cur) == v.len(),
{
    if v.len() >= 2 {
        let w = rot_up(v);
        let d = v.drop_first();
        assert(w =~= d.push(v[0]));
        lemma_first_eligible_push(d, v[0], p, cs, cur);
    }
}

proof fn lemma_first_eligible_push(d: Seq<i32>, x: i32, p: int, cs: int, cur: int)
    requires
        !eligible(x, p, cs, cur),
    ensures
        first_eligible(d, p, cs, cur) < d.len() ==> first_eligible(d.push(x), p, cs, cur) == first_eligible(d, p, cs, cur),
        first_eligible(d, p, cs, cur) == d.len() ==> first_eligible(d.push(x), p, cs, cur) == d.len() + 1,
    decreases d.len(),
{
    lemma_first_eligible(d, p, cs, cur);
    if d.len() == 0 {
        assert(d.push(x)[0] == x);
        assert(d.push(x).drop_first() =~= Seq::<i32>::empty());
        assert(first_eligible(Seq::<i32>::empty(), p, cs, cur) == 0);
    } else {
        assert(d.push(x)[0] == d[0]);
        assert(d.push(x).drop_first() =~= d.drop_first().push(x));
        lemma_first_eligible_push(d.drop_first(), x, p, cs, cur);
        if first_eligible(d, p, cs, cur) == d.len() {
            assert(!eligible(d[0], p, cs, cur));
            assert(first_eligible(d.drop_first(), p, cs, cur) == d.drop_first().len());
        }
    }
}

/// Chunk arithmetic: `cs` is the rounded-up share of `p` ranks among
/// `chunks` chunks.
proof fn lemma_chunk_size(p: int, chunks: int, cs: int)
    requires
        1 <= p,
        1 <= chunks,
        cs == (p + chunks - 1) / chunks,
    ensures
        1 <= cs <= p,
        cs * chunks >= p,
        forall|x: int| 0 <= x < p ==> #[trigger] (x / cs) < chunks,
{
    let y = p + chunks - 1;
    vstd::arithmetic::div_mod::lemma_fundamental_div_mod(y, chunks);
    vstd::arithmetic::div_mod::lemma_mod_bound(y, chunks);
    assert(chunks * cs == y - y % chunks);
    assert(cs * chunks == chunks * cs) by (nonlinear_arith);
    assert(cs <= p) by (nonlinear_arith)
        requires
            chunks * cs == y - y % chunks,
            y == p + chunks - 1,
            0 <= y % chunks,
            p >= 1,
            chunks >= 1,
    ;
    assert(1 <= cs) by (nonlinear_arith)
        requires
            chunks * cs == y - y % chunks,
            y % chunks < chunks,
            y >= chunks,
            chunks >= 1,
    ;
    assert forall|x: int| 0 <= x < p implies #[trigger] (x / cs) < chunks by {
        vstd::arithmetic::div_mod::lemma_fundamental_div_mod(x, cs);
        vstd::arithmetic::div_mod::lemma_mod_bound(x, cs);
        let q = x / cs;
        assert(q < chunks) by (nonlinear_arith)
            requires
                x == cs * q + x % cs,
                0 <= x % cs,
                x < p,
                cs * chunks >= p,
                cs >= 1,
        ;
    }
}

/// The chunk of rank `r` starts at or below `r` and ends at most one chunk
/// size above it.
proof fn lemma_chunk_bounds(r: int, cs: int)
    requires
        0 <= r,
        1 <= cs,
    ensures
        0 <= (r / cs) * cs <= r,
        (r / cs + 1) * cs == (r / cs) * cs + cs,
{
    vstd::arithmetic::div_mod::lemma_fundamental_div_mod(r, cs);
    vstd::arithmetic::div_mod::lemma_mod_bound(r, cs);
    let q = r / cs;
    assert(0 <= q) by (nonlinear_arith)
        requires
            r == cs * q + r % cs,
            r % cs < cs,
            0 <= r,
            1 <= cs,
    ;
    assert(q * cs == cs * q) by (nonlinear_arith);
    assert((q + 1) * cs == q * cs + cs) by (nonlinear_arith);
    assert(0 <= q * cs) by (nonlinear_arith)
        requires
            0 <= q,
            1 <= cs,
    ;
}

/// The chunk sort for four or more ranks `0 .. n` (used for more than five): all but the three
/// largest ranks go to b, chunk by chunk (a rank of the current chunk or an
/// earlier one is pushed, the lower half of its chunk rotated under b; any
/// other top is rotated under a); the three are sorted; then the largest rank
/// of b is brought up the short way and pushed back, again and again.
#[verifier::rlimit(60)]
pub fn chunk_sort(ps: &mut Ps, n: usize)
    requires
        stacks(old(ps)).0.len() == n,
        4 <= n <= i32::MAX,
        is_rank_perm(stacks(old(ps)).0),
        stacks(old(ps)).1.len() == 0,
    ensures
        ascending(stacks(final(ps)).0),
        stacks(final(ps)).1.len() == 0,
        ps_replays(old(ps), final(ps)),
{
    let ghost s = stacks(ps).0;
    let ghost st0 = stacks(ps);
    proof {
        lemma_ps_refl(ps);
        assert(st0.0 + st0.1 =~= s);
    }
    let push_count = n - 3;
    let chunks: usize = if push_count <= 6 {
        2
    } else if n <= 100 {
        4
    } else if n <= 200 {
        8
    } else if n <= 300 {
        10
    } else if n <= 500 {
        9
    } else {
        let mut c = 13usize;
        while c * c < n
            invariant
                13 <= c <= 46341,
                c % 2 == 1,
                c * c <= 2147488281,
                n <= i32::MAX,
            decreases 46341 - c,
        {
            proof {
                assert(c <= 46340) by (nonlinear_arith)
                    requires
                        c * c < n,
                        n <= 2147483647,
                        c >= 0,
                ;
                assert(c + 2 <= 46341);
                assert((c + 2) * (c + 2) <= 2147488281) by (nonlinear_arith)
                    requires
                        0 <= c + 2 <= 46341,
                ;
            }
            c += 2;
        }
        c
    };
    let chunk_size = (push_count + chunks - 1) / chunks;
    proof {
        lemma_chunk_size(push_count as int, chunks as int, chunk_size as int);
    }
    let ghost pc = push_count as int;
    let ghost cz = chunk_size as int;
    let mut current_chunk: usize = 0;
    while ps.a.len() > 3 && current_chunk < chunks
        invariant
            st0 == (s, Seq::<i32>::empty()),
            st0.0 + st0.1 == s,
            stacks(old(ps)) == st0,
            is_rank_perm(s),
            s.len() == n,
            4 <= n <= i32::MAX,
            push_count == n - 3,
            pc == push_count,
            cz == chunk_size,
            2 <= chunks <= 46342,
            1 <= chunk_size,
            chunk_size * chunks >= push_count,
            chunk_size <= push_count,
            forall|x: int| 0 <= x < pc ==> #[trigger] (x / cz) < chunks,
            current_chunk <= chunks,
            forall|q: int| 0 <= q < stacks(ps).0.len() && stacks(ps).0[q] < pc ==> (#[trigger] stacks(ps).0[q] as int) / cz >= current_chunk,
            forall|q: int| 0 <= q < stacks(ps).1.len() ==> #[trigger] stacks(ps).1[q] < pc,
            ps_replays(old(ps), ps),
        decreases chunks - current_chunk, ps.a@.len(), first_eligible(stacks(ps).0, pc, cz, current_chunk as int),
    {
        let ghost v = stacks(ps).0;
        let ghost m0 = first_eligible(v, pc, cz, current_chunk as int);
        proof {
            lemma_replays_content(st0, old(ps).ops@, ps.ops@, stacks(ps));
            lemma_perm_split(stacks(ps).0, stacks(ps).1, s);
            lemma_first_eligible(v, pc, cz, current_chunk as int);
        }
        let ghost p0 = *ps;
        let top_rank = ps.a_top() as usize;
        if top_rank >= push_count {
            ps.ra();
            proof {
                lemma_first_eligible_rot(v, pc, cz, current_chunk as int);
            }
        } else {
            let top_chunk = top_rank / chunk_size;
            proof {
                lemma_chunk_bounds(top_rank as int, chunk_size as int);
            }
            if top_chunk <= current_chunk {
                ps.pb();
                let chunk_lo = top_chunk * chunk_size;
                let chunk_hi = if (top_chunk + 1) * chunk_size < push_count {
                    (top_chunk + 1) * chunk_size
                } else {
                    push_count
                };
                let mid = chunk_lo + (chunk_hi - chunk_lo) / 2;
                if top_rank < mid && ps.b.len() > 1 {
                    let ghost p1 = *ps;
                    ps.rb();
                    proof {
                        lemma_ps_trans(&p0, &p1, ps);
                        let b1 = stacks(&p1).1;
                        assert forall|q: int| 0 <= q < stacks(ps).1.len() implies #[trigger] stacks(ps).1[q] < pc by {
                            if q == b1.len() - 1 {
                                assert(stacks(ps).1[q] == b1[0]);
                            } else {
                                assert(stacks(ps).1[q] == b1[q + 1]);
                            }
                        }
                    }
                }
            } else {
                ps.ra();
                proof {
                    lemma_first_eligible_rot(v, pc, cz, current_chunk as int);
                }
            }
        }
        proof {
            assert(ps_replays(&p0, ps));
            lemma_ps_trans(old(ps), &p0, ps);
            let w = stacks(ps).0;
            assert forall|q: int| 0 <= q < w.len() && w[q] < pc implies (#[trigger] w[q] as int) / cz >= current_chunk by {
                if w.len() == v.len() {
                    if v.len() >= 2 {
                        if q == w.len() - 1 {
                            assert(w[q] == v[0]);
                        } else {
                            assert(w[q] == v[q + 1]);
                        }
                    } else {
                        assert(w[q] == v[q]);
                    }
                } else {
                    assert(w[q] == v[q + 1]);
                }
            }
            assert forall|q: int| 0 <= q < stacks(ps).1.len() implies #[trigger] stacks(ps).1[q] < pc by {
                let b0 = stacks(&p0).1;
                if stacks(ps).1.len() == b0.len() + 1 && stacks(ps).1 == seq![v[0]] + b0 {
                    if q > 0 {
                        assert(stacks(ps).1[q] == b0[q - 1]);
                    }
                }
            }
        }
        let mut has_in_current = false;
        let mut i: usize = 0;
        while i < ps.a.len()
            invariant_except_break
                !has_in_current,
            invariant
                i <= ps.a@.len(),
                forall|k: int| 0 <= k < i ==> !eligible(#[trigger] ps.a@[k], pc, cz, current_chunk as int),
                pc == push_count,
                cz == chunk_size,
                1 <= chunk_size,
            ensures
                has_in_current ==> exists|k: int| 0 <= k < ps.a@.len() && eligible(#[trigger] ps.a@[k], pc, cz, current_chunk as int),
                !has_in_current ==> forall|k: int| 0 <= k < ps.a@.len() ==> !eligible(#[trigger] ps.a@[k], pc, cz, current_chunk as int),
            decreases ps.a@.len() - i,
        {
            let rr = ps.a[i] as usize;
            if ps.a[i] >= 0 && rr < push_count && rr / chunk_size <= current_chunk {
                assert(eligible(ps.a@[i as int], pc, cz, current_chunk as int));
                has_in_current = true;
                break;
            }
            i += 1;
        }
        proof {
            let w = stacks(ps).0;
            if !has_in_current {
                assert forall|q: int| 0 <= q < w.len() && w[q] < pc implies (#[trigger] w[q] as int) / cz >= current_chunk + 1 by {
                    assert(w[q] == ps.a@[ps.a@.len() - 1 - q]);
                    assert(!eligible(ps.a@[ps.a@.len() - 1 - q], pc, cz, current_chunk as int));
                    lemma_replays_content(st0, old(ps).ops@, ps.ops@, stacks(ps));
                    lemma_perm_split(stacks(ps).0, stacks(ps).1, s);
                }
            } else {
                let k = choose|k: int| 0 <= k < ps.a@.len() && eligible(#[trigger] ps.a@[k], pc, cz, current_chunk as int);
                assert(w[ps.a@.len() - 1 - k] == ps.a@[k]);
                lemma_first_eligible(w, pc, cz, current_chunk as int);
                if first_eligible(w, pc, cz, current_chunk as int) == w.len() {
                    assert(!eligible(w[ps.a@.len() - 1 - k], pc, cz, current_chunk as int));
                }
            }
        }
        if !has_in_current {
            current_chunk += 1;
        }
    }
    proof {
        let w = stacks(ps).0;
        let bb = stacks(ps).1;
        lemma_replays_content(st0, old(ps).ops@, ps.ops@, stacks(ps));
        lemma_perm_split(w, bb, s);
        assert forall|q: int| 0 <= q < w.len() implies #[trigger] w[q] >= pc by {
            if w[q] < pc {
                if current_chunk >= chunks {
                    assert((w[q] as int) / cz < chunks);
                } else {
                    assert(w.len() <= 3);
                    let x0 = pc as i32;
                    let x1 = (pc + 1) as i32;
                    let x2 = (pc + 2) as i32;
                    assert(!bb.contains(x0));
                    assert(!bb.contains(x1));
                    assert(!bb.contains(x2));
                    assert(w.contains(x0));
                    assert(w.contains(x1));
                    assert(w.contains(x2));
                    let i0 = choose|i: int| 0 <= i < w.len() && w[i] == x0;
                    let i1 = choose|i: int| 0 <= i < w.len() && w[i] == x1;
                    let i2 = choose|i: int| 0 <= i < w.len() && w[i] == x2;
                    assert(q == i0 || q == i1 || q == i2);
                }
            }
        }
        crate::ranking::lemma_within_len(w, pc, n as int);
    }
    let ghost p3 = *ps;
    sort_small_a(ps);
    proof {
        lemma_ps_trans(old(ps), &p3, ps);
        assert forall|q: int, p: int| 0 <= q < stacks(ps).1.len() && 0 <= p < stacks(ps).0.len() implies stacks(ps).1[q] < stacks(ps).0[p] by {
            lemma_member_of(stacks(ps).0, stacks(&p3).0, p);
            let j = choose|j: int| 0 <= j < stacks(&p3).0.len() && stacks(&p3).0[j] == stacks(ps).0[p];
            assert(stacks(&p3).0[j] >= pc);
        }
    }
    while !ps.b.is_empty()
        invariant
            st0 == (s, Seq::<i32>::empty()),
            st0.0 + st0.1 == s,
            stacks(old(ps)) == st0,
            is_rank_perm(s),
            ascending(stacks(ps).0),
            forall|q: int, p: int| 0 <= q < stacks(ps).1.len() && 0 <= p < stacks(ps).0.len() ==> stacks(ps).1[q] < stacks(ps).0[p],
            ps_replays(old(ps), ps),
        decreases ps.b@.len(),
    {
        proof {
            lemma_replays_content(st0, old(ps).ops@, ps.ops@, stacks(ps));
            lemma_perm_split(stacks(ps).0, stacks(ps).1, s);
        }
        let ghost bv = stacks(ps).1;
        let nb = ps.b.len();
        let mut max_idx: usize = 0;
        let mut max_val = ps.b[nb - 1];
        let mut k: usize = 1;
        while k < nb
            invariant
                nb == ps.b@.len(),
                bv == ps.b@.reverse(),
                1 <= k <= nb,
                max_idx < k,
                max_val == bv[max_idx as int],
                forall|j: int| 0 <= j < k ==> bv[j] <= max_val,
            decreases nb - k,
        {
            let x = ps.b[nb - 1 - k];
            if x > max_val {
                max_val = x;
                max_idx = k;
            }
            k += 1;
        }
        let up = max_idx;
        let down = nb - max_idx;
        let ghost p0 = *ps;
        proof {
            lemma_ps_refl(ps);
            lemma_rot_by_ends(bv);
        }
        if up <= down {
            let mut t: usize = 0;
            while t < up
                invariant
                    t <= up,
                    up < nb,
                    nb == bv.len(),
                    stacks(ps).1 == rot_by(bv, t as int),
                    stacks(ps).0 == stacks(&p0).0,
                    ps_replays(&p0, ps),
                decreases up - t,
            {
                let ghost p1 = *ps;
                proof {
                    lemma_rot_up_by(bv, t as int);
                }
                ps.rb();
                proof {
                    lemma_ps_trans(&p0, &p1, ps);
                }
                t += 1;
            }
        } else {
            let mut t: usize = 0;
            while t < down
                invariant
                    t <= down,
                    down == nb - up,
                    up < nb,
                    nb == bv.len(),
                    stacks(ps).1 == rot_by(bv, nb - t),
                    stacks(ps).0 == stacks(&p0).0,
                    ps_replays(&p0, ps),
                decreases down - t,
            {
                let ghost p1 = *ps;
                proof {
                    lemma_rot_down_by(bv, nb - t);
                }
                ps.rrb();
                proof {
                    lemma_ps_trans(&p0, &p1, ps);
                }
                t += 1;
            }
        }
        proof {
            lemma_ps_trans(old(ps), &p0, ps);
            let w = stacks(ps).1;
            assert(w[0] == bv[up as int]);
            assert forall|q: int| 0 <= q < w.len() implies #[trigger] w[q] == bv[if q < nb - up { up + q } else { q - (nb - up) }] by {
            }
            assert forall|q: int| 1 <= q < w.len() implies #[trigger] w[q] < w[0] by {
                let q1 = if q < nb - up { up + q } else { q - (nb - up) };
                assert(w[q] == bv[q1]);
                assert(q1 != up);
            }
        }
        let ghost p2 = *ps;
        ps.pa();
        proof {
            lemma_ps_trans(old(ps), &p2, ps);
            let a2 = stacks(&p2).0;
            let b2 = stacks(&p2).1;
            assert(ps.b@.len() == stacks(ps).1.len());
            assert(p2.b@.len() == b2.len());
            assert forall|q: int, p: int| 0 <= q < stacks(ps).1.len() && 0 <= p < stacks(ps).0.len() implies stacks(ps).1[q] < stacks(ps).0[p] by {
                assert(stacks(ps).1[q] == b2[q + 1]);
                if p > 0 {
                    assert(stacks(ps).0[p] == a2[p - 1]);
                }
            }
        }
    }
}

/// The operations that sort distinct values: none when there are none or
/// they are already in order; otherwise the values become their ranks, up
/// to three are sorted directly, four or five by [`sort_small`], more by
/// [`chunk_sort`].
pub fn solve(values: &Vec<i32>) -> (ops: Vec<Op>)
    requires
        values@.no_duplicates(),
        values@.len() <= i32::MAX,
    ensures
        sorts(values@, ops@),
        ascending(values@) ==> ops@.len() == 0,
        values@.len() <= 5 ==> ops@.len() <= 12,
{
    let ghost e = Seq::<i32>::empty();
    let ghost r = values@.map_values(crate::ranking::rank_in(values@));
    proof {
        crate::ranking::lemma_ranks_perm(values@);
        crate::ranking::lemma_ranks_ordered(values@);
    }
    if values.len() == 0 {
        proof {
            assert(values@ =~= e);
            assert(run((values@, e), Seq::<Op>::empty()) == (values@, e));
        }
        return Vec::new();
    }
    let ranks = rank_compress(values.as_slice());
    proof {
        assert forall|k: int| 0 <= k < values@.len() implies #[trigger] ranks@[k] < values@.len() by {
            assert(values@.contains(values@[k]));
            lemma_count_below_bound(values@, values@[k]);
        }
    }
    if is_sorted(ranks.as_slice()) {
        proof {
            assert forall|p: int, q: int| 0 <= p < q < values@.len() implies values@[p] < values@[q] by {
                assert(ranks@[p] < ranks@[q]);
                assert(r[p] < r[q]);
                crate::ranking::lemma_rank_order(values@, values@[p], values@[q]);
                assert(values@.contains(values@[p]));
                assert(values@.contains(values@[q]));
            }
            assert(run((values@, e), Seq::<Op>::empty()) == (values@, e));
            assert(values@ + e =~= values@);
        }
        return Vec::new();
    }
    let mut rank_i32: Vec<i32> = Vec::with_capacity(ranks.len());
    let mut i: usize = 0;
    while i < ranks.len()
        invariant
            ranks@.len() == values@.len(),
            values@.len() <= i32::MAX,
            forall|k: int| 0 <= k < values@.len() ==> #[trigger] ranks@[k] < values@.len(),
            forall|k: int| 0 <= k < values@.len() ==> #[trigger] ranks@[k] == count_below(values@, values@[k]),
            r == values@.map_values(crate::ranking::rank_in(values@)),
            i <= ranks@.len(),
            rank_i32@ == r.take(i as int),
        decreases ranks@.len() - i,
    {
        proof {
            assert(r[i as int] == ranks@[i as int] as i32);
        }
        rank_i32.push(ranks[i] as i32);
        i += 1;
        proof {
            assert(rank_i32@ =~= r.take(i as int));
        }
    }
    proof {
        assert(rank_i32@ =~= r);
        if ascending(values@) {
            assert forall|p: int, q: int| 0 <= p < q < ranks@.len() implies ranks@[p] < ranks@[q] by {
                assert(values@.contains(values@[p]));
                assert(values@.contains(values@[q]));
                crate::ranking::lemma_rank_order(values@, values@[p], values@[q]);
            }
        }
    }
    let n = rank_i32.len();
    let mut ps = Ps::new(rank_i32);
    let ghost p0 = ps;
    if n <= 3 {
        sort_small_a(&mut ps);
    } else if n <= 5 {
        sort_small(&mut ps);
    } else {
        chunk_sort(&mut ps, n);
    }
    proof {
        assert(ps.ops@.skip(0) =~= ps.ops@);
        crate::ranking::lemma_sorting_ranks_sorts(values@, ps.ops@);
    }
    ps.ops
}

} // verus!
