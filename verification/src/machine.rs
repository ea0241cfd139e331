//! The two-stack machine: its eleven operations, what each one does to the
//! pair of stacks, and the laws that hold of them.
//!
//! In every specification a stack is a `Seq<i32>` whose element `0` is the
//! top. A state is the pair `(a, b)`.
use vstd::multiset::Multiset;
use vstd::prelude::*;

verus! {

/// One machine operation, printed by [`Op::name`].
#[derive(Clone, Copy, PartialEq, Eq, Structural, Debug)]
pub enum Op {
    Sa,
    Sb,
    Ss,
    Pa,
    Pb,
    Ra,
    Rb,
    Rr,
    Rra,
    Rrb,
    Rrr,
}

/// The text of an operation, as it is printed, one per line.
pub open spec fn op_text(op: Op) -> Seq<char> {
    match op {
        Op::Sa => "sa"@,
        Op::Sb => "sb"@,
        Op::Ss => "ss"@,
        Op::Pa => "pa"@,
        Op::Pb => "pb"@,
        Op::Ra => "ra"@,
        Op::Rb => "rb"@,
        Op::Rr => "rr"@,
        Op::Rra => "rra"@,
        Op::Rrb => "rrb"@,
        Op::Rrr => "rrr"@,
    }
}

impl Op {
    /// The lowercase text of the operation.
    pub fn name(&self) -> (s: &'static str)
        ensures
            s@ == op_text(*self),
    {
        match self {
            Op::Sa => "sa",
            Op::Sb => "sb",
            Op::Ss => "ss",
            Op::Pa => "pa",
            Op::Pb => "pb",
            Op::Ra => "ra",
            Op::Rb => "rb",
            Op::Rr => "rr",
            Op::Rra => "rra",
            Op::Rrb => "rrb",
            Op::Rrr => "rrr",
        }
    }
}

/// Swap the two top elements; nothing happens below two elements.
pub open spec fn swap_top(s: Seq<i32>) -> Seq<i32> {
    if s.len() >= 2 {
        s.update(0, s[1]).update(1, s[0])
    } else {
        s
    }
}

/// Rotate up: the top element becomes the bottom one.
pub open spec fn rot_up(s: Seq<i32>) -> Seq<i32> {
    if s.len() >= 2 {
        s.drop_first().push(s[0])
    } else {
        s
    }
}

/// Rotate down: the bottom element becomes the top one.
pub open spec fn rot_down(s: Seq<i32>) -> Seq<i32> {
    if s.len() >= 2 {
        seq![s.last()] + s.drop_last()
    } else {
        s
    }
}

/// The state after one operation.
pub open spec fn step(st: (Seq<i32>, Seq<i32>), op: Op) -> (Seq<i32>, Seq<i32>) {
    let a = st.0;
    let b = st.1;
    match op {
        Op::Sa => (swap_top(a), b),
        Op::Sb => (a, swap_top(b)),
        Op::Ss => (swap_top(a), swap_top(b)),
        Op::Pa => if b.len() > 0 {
            (seq![b[0]] + a, b.drop_first())
        } else {
            (a, b)
        },
        Op::Pb => if a.len() > 0 {
            (a.drop_first(), seq![a[0]] + b)
        } else {
            (a, b)
        },
        Op::Ra => (rot_up(a), b),
        Op::Rb => (a, rot_up(b)),
        Op::Rr => (rot_up(a), rot_up(b)),
        Op::Rra => (rot_down(a), b),
        Op::Rrb => (a, rot_down(b)),
        Op::Rrr => (rot_down(a), rot_down(b)),
    }
}

/// The state after a whole list of operations, applied in order.
pub open spec fn run(st: (Seq<i32>, Seq<i32>), ops: Seq<Op>) -> (Seq<i32>, Seq<i32>)
    decreases ops.len(),
{
    if ops.len() == 0 {
        st
    } else {
        step(run(st, ops.drop_last()), ops.last())
    }
}

/// `after` extends the log `before`, and the operations it appended take the
/// state `from` to the state `to`.
pub open spec fn replays(
    from: (Seq<i32>, Seq<i32>),
    before: Seq<Op>,
    after: Seq<Op>,
    to: (Seq<i32>, Seq<i32>),
) -> bool {
    &&& before.len() <= after.len()
    &&& after.take(before.len() as int) == before
    &&& run(from, after.skip(before.len() as int)) == to
}

/// Strictly ascending from the top down.
pub open spec fn ascending(s: Seq<i32>) -> bool {
    forall|i: int, j: int| 0 <= i < j < s.len() ==> s[i] < s[j]
}

/// Replaying `ops` on `input` in stack a (top first) and an empty stack b
/// leaves b empty and a holding the elements of `input` in ascending order.
pub open spec fn sorts(input: Seq<i32>, ops: Seq<Op>) -> bool {
    let fin = run((input, Seq::empty()), ops);
    &&& fin.1.len() == 0
    &&& ascending(fin.0)
    &&& fin.0.to_multiset() == input.to_multiset()
}

/// The elements of both stacks together.
pub open spec fn content(st: (Seq<i32>, Seq<i32>)) -> Multiset<i32> {
    (st.0 + st.1).to_multiset()
}

/// `s` rotated up `k` times: the element at index `k` is on top.
pub open spec fn rot_by(s: Seq<i32>, k: int) -> Seq<i32> {
    s.skip(k) + s.take(k)
}

pub proof fn lemma_run_push(st: (Seq<i32>, Seq<i32>), ops: Seq<Op>, op: Op)
    ensures
        run(st, ops.push(op)) == step(run(st, ops), op),
{
    assert(ops.push(op).drop_last() =~= ops);
}

/// Running two lists one after the other is running their concatenation.
pub proof fn lemma_run_concat(st: (Seq<i32>, Seq<i32>), ops1: Seq<Op>, ops2: Seq<Op>)
    ensures
        run(st, ops1 + ops2) == run(run(st, ops1), ops2),
    decreases ops2.len(),
{
    if ops2.len() == 0 {
        assert(ops1 + ops2 =~= ops1);
    } else {
        lemma_run_concat(st, ops1, ops2.drop_last());
        assert((ops1 + ops2).drop_last() =~= ops1 + ops2.drop_last());
    }
}

pub proof fn lemma_replays_refl(st: (Seq<i32>, Seq<i32>), log: Seq<Op>)
    ensures
        replays(st, log, log, st),
{
    assert(log.take(log.len() as int) =~= log);
    assert(log.skip(log.len() as int) =~= Seq::<Op>::empty());
}

/// Appending one operation to the log.
pub proof fn lemma_replays_push(
    from: (Seq<i32>, Seq<i32>),
    before: Seq<Op>,
    after: Seq<Op>,
    to: (Seq<i32>, Seq<i32>),
    op: Op,
)
    requires
        replays(from, before, after, to),
    ensures
        replays(from, before, after.push(op), step(to, op)),
{
    let k = before.len() as int;
    assert(after.push(op).take(k) =~= after.take(k));
    assert(after.push(op).skip(k) =~= after.skip(k).push(op));
    lemma_run_push(from, after.skip(k), op);
}

/// Two replays one after the other.
pub proof fn lemma_replays_trans(
    s1: (Seq<i32>, Seq<i32>),
    l1: Seq<Op>,
    l2: Seq<Op>,
    s2: (Seq<i32>, Seq<i32>),
    l3: Seq<Op>,
    s3: (Seq<i32>, Seq<i32>),
)
    requires
        replays(s1, l1, l2, s2),
        replays(s2, l2, l3, s3),
    ensures
        replays(s1, l1, l3, s3),
{
    let k1 = l1.len() as int;
    let k2 = l2.len() as int;
    assert(l3.take(k2) == l2);
    assert(l3.take(k1) =~= l2.take(k1));
    assert(l3.skip(k1) =~= l2.skip(k1) + l3.skip(k2));
    lemma_run_concat(s1, l2.skip(k1), l3.skip(k2));
}

/// An operation that only touches stack a.
pub open spec fn on_a_only(op: Op) -> bool {
    op == Op::Sa || op == Op::Ra || op == Op::Rra
}

/// An operation that only touches stack b.
pub open spec fn on_b_only(op: Op) -> bool {
    op == Op::Sb || op == Op::Rb || op == Op::Rrb
}

/// `after` is `before` with only `sa`, `ra` and `rra` appended.
pub open spec fn a_moves_appended(before: Seq<Op>, after: Seq<Op>) -> bool {
    &&& before.len() <= after.len()
    &&& after.take(before.len() as int) == before
    &&& forall|i: int| before.len() <= i < after.len() ==> on_a_only(#[trigger] after[i])
}

pub proof fn lemma_a_moves_refl(log: Seq<Op>)
    ensures
        a_moves_appended(log, log),
{
    assert(log.take(log.len() as int) =~= log);
}

pub proof fn lemma_a_moves_push(before: Seq<Op>, after: Seq<Op>, op: Op)
    requires
        a_moves_appended(before, after),
        on_a_only(op),
    ensures
        a_moves_appended(before, after.push(op)),
{
    assert(after.push(op).take(before.len() as int) =~= after.take(before.len() as int));
    assert forall|i: int| before.len() <= i < after.push(op).len() implies on_a_only(#[trigger] after.push(op)[i]) by {
        if i < after.len() {
            assert(after.push(op)[i] == after[i]);
        }
    }
}

pub proof fn lemma_a_moves_trans(l1: Seq<Op>, l2: Seq<Op>, l3: Seq<Op>)
    requires
        a_moves_appended(l1, l2),
        a_moves_appended(l2, l3),
    ensures
        a_moves_appended(l1, l3),
{
    assert(l3.take(l1.len() as int) =~= l2.take(l1.len() as int));
    assert forall|i: int| l1.len() <= i < l3.len() implies on_a_only(#[trigger] l3[i]) by {
        if i < l2.len() {
            assert(l3[i] == l3.take(l2.len() as int)[i]);
        }
    }
}

/// `k` times the operation `op`.
pub open spec fn repeat(op: Op, k: nat) -> Seq<Op> {
    Seq::new(k, |i: int| op)
}

pub proof fn lemma_repeat_push(op: Op, k: nat)
    ensures
        repeat(op, k).push(op) == repeat(op, k + 1),
{
    assert(repeat(op, k).push(op) =~= repeat(op, k + 1));
}

/// How many `pb` there are in `s`.
pub open spec fn pushes_to_b(s: Seq<Op>) -> nat
    decreases s.len(),
{
    if s.len() == 0 {
        0
    } else {
        pushes_to_b(s.drop_last()) + if s.last() == Op::Pb {
            1nat
        } else {
            0nat
        }
    }
}

pub proof fn lemma_pushes_to_b_push(s: Seq<Op>, op: Op)
    ensures
        pushes_to_b(s.push(op)) == pushes_to_b(s) + if op == Op::Pb {
            1nat
        } else {
            0nat
        },
{
    assert(s.push(op).drop_last() =~= s);
}

/// Operations other than `pb` add no `pb`.
pub proof fn lemma_pushes_to_b_concat(s: Seq<Op>, t: Seq<Op>)
    requires
        forall|i: int| 0 <= i < t.len() ==> #[trigger] t[i] != Op::Pb,
    ensures
        pushes_to_b(s + t) == pushes_to_b(s),
    decreases t.len(),
{
    if t.len() > 0 {
        assert((s + t).drop_last() =~= s + t.drop_last());
        lemma_pushes_to_b_concat(s, t.drop_last());
        assert((s + t).last() == t[t.len() - 1]);
    } else {
        assert(s + t =~= s);
    }
}

/// Every operation of `s` is `pb`, `ra` or `rra`.
pub open spec fn pushes_and_rotations(s: Seq<Op>) -> bool {
    forall|i: int| 0 <= i < s.len() ==> #[trigger] s[i] == Op::Pb || s[i] == Op::Ra || s[i] == Op::Rra
}

/// `after` is `before` with only operations that `allowed` accepts appended.
pub open spec fn ops_appended(before: Seq<Op>, after: Seq<Op>, allowed: spec_fn(Op) -> bool) -> bool {
    &&& before.len() <= after.len()
    &&& after.take(before.len() as int) == before
    &&& forall|i: int| before.len() <= i < after.len() ==> allowed(#[trigger] after[i])
}

/// `pb`, `ra` and `pa`: the operations of a radix pass.
pub open spec fn radix_op() -> spec_fn(Op) -> bool {
    |op: Op| op == Op::Pb || op == Op::Ra || op == Op::Pa
}

pub proof fn lemma_ops_appended_refl(log: Seq<Op>, allowed: spec_fn(Op) -> bool)
    ensures
        ops_appended(log, log, allowed),
{
    assert(log.take(log.len() as int) =~= log);
}

/// One more operation that `allowed` accepts, or none.
pub proof fn lemma_ops_appended_step(
    before: Seq<Op>,
    mid: Seq<Op>,
    after: Seq<Op>,
    op: Op,
    allowed: spec_fn(Op) -> bool,
)
    requires
        ops_appended(before, mid, allowed),
        allowed(op),
        after == mid || after == mid.push(op),
    ensures
        ops_appended(before, after, allowed),
{
    if after == mid.push(op) {
        assert(after.take(before.len() as int) =~= mid.take(before.len() as int));
        assert forall|i: int| before.len() <= i < after.len() implies allowed(#[trigger] after[i]) by {
            if i < mid.len() {
                assert(after[i] == mid[i]);
            }
        }
    }
}

/// The operations the range sort prints: `sa`, `pb`, `pa`, `ra`, `rb`, `rra`
/// and `rrb` (never `sb`, `ss`, `rr` or `rrr`).
pub open spec fn range_op() -> spec_fn(Op) -> bool {
    |op: Op| op != Op::Sb && op != Op::Ss && op != Op::Rr && op != Op::Rrr
}

pub proof fn lemma_ops_appended_trans(l1: Seq<Op>, l2: Seq<Op>, l3: Seq<Op>, allowed: spec_fn(Op) -> bool)
    requires
        ops_appended(l1, l2, allowed),
        ops_appended(l2, l3, allowed),
    ensures
        ops_appended(l1, l3, allowed),
{
    assert(l3.take(l1.len() as int) =~= l2.take(l1.len() as int));
    assert forall|i: int| l1.len() <= i < l3.len() implies allowed(#[trigger] l3[i]) by {
        if i < l2.len() {
            assert(l3[i] == l3.take(l2.len() as int)[i]);
        }
    }
}

/// Moves of stack a alone are operations of the range sort.
pub proof fn lemma_a_moves_range(before: Seq<Op>, after: Seq<Op>)
    requires
        a_moves_appended(before, after),
    ensures
        ops_appended(before, after, range_op()),
{
}

/// Stack a alone: whatever b holds, the appended operations take `a0` to `a1`
/// and leave b as it is.
#[verifier::opaque]
pub open spec fn replays_a(a0: Seq<i32>, before: Seq<Op>, after: Seq<Op>, a1: Seq<i32>) -> bool {
    forall|b: Seq<i32>| #[trigger] replays((a0, b), before, after, (a1, b))
}

/// Stack b alone: whatever a holds, the appended operations take `b0` to `b1`.
#[verifier::opaque]
pub open spec fn replays_b(b0: Seq<i32>, before: Seq<Op>, after: Seq<Op>, b1: Seq<i32>) -> bool {
    forall|a: Seq<i32>| #[trigger] replays((a, b0), before, after, (a, b1))
}

/// What stack-a-alone replaying says for the b actually there.
pub proof fn lemma_replays_a_at(a0: Seq<i32>, before: Seq<Op>, after: Seq<Op>, a1: Seq<i32>, b: Seq<i32>)
    requires
        replays_a(a0, before, after, a1),
    ensures
        replays((a0, b), before, after, (a1, b)),
{
    reveal(replays_a);
}

/// What stack-b-alone replaying says for the a actually there.
pub proof fn lemma_replays_b_at(b0: Seq<i32>, before: Seq<Op>, after: Seq<Op>, b1: Seq<i32>, a: Seq<i32>)
    requires
        replays_b(b0, before, after, b1),
    ensures
        replays((a, b0), before, after, (a, b1)),
{
    reveal(replays_b);
}

pub proof fn lemma_replays_a_refl(a: Seq<i32>, log: Seq<Op>)
    ensures
        replays_a(a, log, log, a),
{
    reveal(replays_a);
    assert forall|b: Seq<i32>| #[trigger] replays((a, b), log, log, (a, b)) by {
        lemma_replays_refl((a, b), log);
    }
}

pub proof fn lemma_replays_a_push(a0: Seq<i32>, before: Seq<Op>, after: Seq<Op>, a1: Seq<i32>, op: Op)
    requires
        replays_a(a0, before, after, a1),
        on_a_only(op),
    ensures
        replays_a(a0, before, after.push(op), step((a1, Seq::empty()), op).0),
{
    reveal(replays_a);
    assert forall|b: Seq<i32>| #[trigger] replays((a0, b), before, after.push(op), (step((a1, Seq::empty()), op).0, b)) by {
        assert(replays((a0, b), before, after, (a1, b)));
        lemma_replays_push((a0, b), before, after, (a1, b), op);
    }
}

pub proof fn lemma_replays_a_trans(a1: Seq<i32>, l1: Seq<Op>, l2: Seq<Op>, a2: Seq<i32>, l3: Seq<Op>, a3: Seq<i32>)
    requires
        replays_a(a1, l1, l2, a2),
        replays_a(a2, l2, l3, a3),
    ensures
        replays_a(a1, l1, l3, a3),
{
    reveal(replays_a);
    assert forall|b: Seq<i32>| #[trigger] replays((a1, b), l1, l3, (a3, b)) by {
        assert(replays((a1, b), l1, l2, (a2, b)));
        assert(replays((a2, b), l2, l3, (a3, b)));
        lemma_replays_trans((a1, b), l1, l2, (a2, b), l3, (a3, b));
    }
}

pub proof fn lemma_replays_b_refl(b: Seq<i32>, log: Seq<Op>)
    ensures
        replays_b(b, log, log, b),
{
    reveal(replays_b);
    assert forall|a: Seq<i32>| #[trigger] replays((a, b), log, log, (a, b)) by {
        lemma_replays_refl((a, b), log);
    }
}

pub proof fn lemma_replays_b_push(b0: Seq<i32>, before: Seq<Op>, after: Seq<Op>, b1: Seq<i32>, op: Op)
    requires
        replays_b(b0, before, after, b1),
        on_b_only(op),
    ensures
        replays_b(b0, before, after.push(op), step((Seq::empty(), b1), op).1),
{
    reveal(replays_b);
    assert forall|a: Seq<i32>| #[trigger] replays((a, b0), before, after.push(op), (a, step((Seq::empty(), b1), op).1)) by {
        assert(replays((a, b0), before, after, (a, b1)));
        lemma_replays_push((a, b0), before, after, (a, b1), op);
    }
}

pub proof fn lemma_replays_b_trans(b1: Seq<i32>, l1: Seq<Op>, l2: Seq<Op>, b2: Seq<i32>, l3: Seq<Op>, b3: Seq<i32>)
    requires
        replays_b(b1, l1, l2, b2),
        replays_b(b2, l2, l3, b3),
    ensures
        replays_b(b1, l1, l3, b3),
{
    reveal(replays_b);
    assert forall|a: Seq<i32>| #[trigger] replays((a, b1), l1, l3, (a, b3)) by {
        assert(replays((a, b1), l1, l2, (a, b2)));
        assert(replays((a, b2), l2, l3, (a, b3)));
        lemma_replays_trans((a, b1), l1, l2, (a, b2), l3, (a, b3));
    }
}

// ---------------------------------------------------------------------------
// Laws of single operations
// ---------------------------------------------------------------------------

/// `sa` twice (and likewise `sb`, `ss`) gives back the state it started from.
pub proof fn law_swap_twice(st: (Seq<i32>, Seq<i32>))
    ensures
        step(step(st, Op::Sa), Op::Sa) == st,
        step(step(st, Op::Sb), Op::Sb) == st,
        step(step(st, Op::Ss), Op::Ss) == st,
{
    assert(swap_top(swap_top(st.0)) =~= st.0);
    assert(swap_top(swap_top(st.1)) =~= st.1);
}

/// `rra` undoes `ra` and `ra` undoes `rra`; the same on b and on both stacks.
pub proof fn law_rotations_undo(st: (Seq<i32>, Seq<i32>))
    ensures
        step(step(st, Op::Ra), Op::Rra) == st,
        step(step(st, Op::Rra), Op::Ra) == st,
        step(step(st, Op::Rb), Op::Rrb) == st,
        step(step(st, Op::Rrb), Op::Rb) == st,
        step(step(st, Op::Rr), Op::Rrr) == st,
        step(step(st, Op::Rrr), Op::Rr) == st,
{
    lemma_rot_inverse(st.0);
    lemma_rot_inverse(st.1);
}

proof fn lemma_rot_inverse(s: Seq<i32>)
    ensures
        rot_down(rot_up(s)) == s,
        rot_up(rot_down(s)) == s,
{
    if s.len() >= 2 {
        assert(rot_down(rot_up(s)) =~= s);
        assert(rot_up(rot_down(s)) =~= s);
    }
}

/// `pa` undoes `pb` when a is not empty, and `pb` undoes `pa` when b is not empty.
pub proof fn law_push_undo(st: (Seq<i32>, Seq<i32>))
    ensures
        st.0.len() > 0 ==> step(step(st, Op::Pb), Op::Pa) == st,
        st.1.len() > 0 ==> step(step(st, Op::Pa), Op::Pb) == st,
{
    if st.0.len() > 0 {
        assert((seq![st.0[0]] + st.0.drop_first()) =~= st.0);
        assert((seq![st.0[0]] + st.1).drop_first() =~= st.1);
    }
    if st.1.len() > 0 {
        assert((seq![st.1[0]] + st.1.drop_first()) =~= st.1);
        assert((seq![st.1[0]] + st.0).drop_first() =~= st.0);
    }
}

/// `ss`, `rr` and `rrr` are their two single-stack operations together.
pub proof fn law_double_ops(st: (Seq<i32>, Seq<i32>))
    ensures
        step(st, Op::Ss) == step(step(st, Op::Sa), Op::Sb),
        step(st, Op::Rr) == step(step(st, Op::Ra), Op::Rb),
        step(st, Op::Rrr) == step(step(st, Op::Rra), Op::Rrb),
{
}

/// No operation creates or loses an element: the contents of the two stacks
/// together stay the same.
pub proof fn law_step_keeps_content(st: (Seq<i32>, Seq<i32>), op: Op)
    ensures
        content(step(st, op)) == content(st),
{
    broadcast use vstd::seq_lib::lemma_multiset_commutative;

    lemma_swap_top_content(st.0);
    lemma_swap_top_content(st.1);
    lemma_rot_content(st.0);
    lemma_rot_content(st.1);
    let a = st.0;
    let b = st.1;
    if a.len() > 0 {
        assert(a =~= seq![a[0]] + a.drop_first());
        assert(content(step(st, Op::Pb)) =~= content(st)) by {
            assert(a.drop_first() + (seq![a[0]] + b) =~= a.drop_first() + seq![a[0]] + b);
            vstd::seq_lib::lemma_multiset_commutative(a.drop_first(), seq![a[0]]);
            vstd::seq_lib::lemma_multiset_commutative(seq![a[0]], a.drop_first());
        }
    }
    if b.len() > 0 {
        assert(b =~= seq![b[0]] + b.drop_first());
        assert(content(step(st, Op::Pa)) =~= content(st)) by {
            assert((seq![b[0]] + a) + b.drop_first() =~= seq![b[0]] + (a + b.drop_first()));
            assert(a + b =~= a + (seq![b[0]] + b.drop_first()));
            vstd::seq_lib::lemma_multiset_commutative(a, seq![b[0]] + b.drop_first());
            vstd::seq_lib::lemma_multiset_commutative(seq![b[0]], b.drop_first());
            vstd::seq_lib::lemma_multiset_commutative(seq![b[0]], a + b.drop_first());
            vstd::seq_lib::lemma_multiset_commutative(a, b.drop_first());
        }
    }
}

proof fn lemma_swap_top_content(s: Seq<i32>)
    ensures
        swap_top(s).to_multiset() == s.to_multiset(),
{
    broadcast use vstd::seq_lib::lemma_multiset_commutative;

    if s.len() >= 2 {
        let rest = s.skip(2);
        assert(s =~= seq![s[0], s[1]] + rest);
        assert(swap_top(s) =~= seq![s[1], s[0]] + rest);
        assert(seq![s[0], s[1]] =~= seq![s[0]] + seq![s[1]]);
        assert(seq![s[1], s[0]] =~= seq![s[1]] + seq![s[0]]);
        vstd::seq_lib::lemma_multiset_commutative(seq![s[0]], seq![s[1]]);
        vstd::seq_lib::lemma_multiset_commutative(seq![s[1]], seq![s[0]]);
        vstd::seq_lib::lemma_multiset_commutative(seq![s[0], s[1]], rest);
        vstd::seq_lib::lemma_multiset_commutative(seq![s[1], s[0]], rest);
        assert(seq![s[0]].to_multiset().add(seq![s[1]].to_multiset()) =~= seq![s[1]].to_multiset().add(
            seq![s[0]].to_multiset(),
        ));
    }
}

proof fn lemma_rot_content(s: Seq<i32>)
    ensures
        rot_up(s).to_multiset() == s.to_multiset(),
        rot_down(s).to_multiset() == s.to_multiset(),
{
    if s.len() >= 2 {
        lemma_rot_by_content(s, 1);
        assert(rot_up(s) =~= rot_by(s, 1));
        lemma_rot_by_content(s, s.len() - 1);
        assert(rot_down(s) =~= rot_by(s, s.len() - 1));
    }
}

/// Rotating keeps the elements.
pub proof fn lemma_rot_by_content(s: Seq<i32>, k: int)
    requires
        0 <= k <= s.len(),
    ensures
        rot_by(s, k).to_multiset() == s.to_multiset(),
{
    vstd::seq_lib::lemma_multiset_commutative(s.skip(k), s.take(k));
    vstd::seq_lib::lemma_multiset_commutative(s.take(k), s.skip(k));
    assert(s =~= s.take(k) + s.skip(k));
    assert(s.skip(k).to_multiset().add(s.take(k).to_multiset()) =~= s.take(k).to_multiset().add(
        s.skip(k).to_multiset(),
    ));
}

/// A whole list of operations keeps the contents of the two stacks.
pub proof fn law_run_keeps_content(st: (Seq<i32>, Seq<i32>), ops: Seq<Op>)
    ensures
        content(run(st, ops)) == content(st),
    decreases ops.len(),
{
    if ops.len() > 0 {
        law_run_keeps_content(st, ops.drop_last());
        law_step_keeps_content(run(st, ops.drop_last()), ops.last());
    }
}

/// A replay keeps the contents.
pub proof fn lemma_replays_content(
    from: (Seq<i32>, Seq<i32>),
    before: Seq<Op>,
    after: Seq<Op>,
    to: (Seq<i32>, Seq<i32>),
)
    requires
        replays(from, before, after, to),
    ensures
        content(to) == content(from),
{
    law_run_keeps_content(from, after.skip(before.len() as int));
}

/// The operations appended to stack a alone keep its elements.
pub proof fn lemma_replays_a_content(a0: Seq<i32>, before: Seq<Op>, after: Seq<Op>, a1: Seq<i32>)
    requires
        replays_a(a0, before, after, a1),
    ensures
        a1.to_multiset() == a0.to_multiset(),
{
    reveal(replays_a);
    let e = Seq::<i32>::empty();
    assert(replays((a0, e), before, after, (a1, e)));
    lemma_replays_content((a0, e), before, after, (a1, e));
    assert(a0 + e =~= a0);
    assert(a1 + e =~= a1);
}

/// A replay from the input and an empty b that ends with an empty b and an
/// ascending a sorts the input.
pub proof fn lemma_sorts_from_replays(input: Seq<i32>, ops: Seq<Op>, a: Seq<i32>, b: Seq<i32>)
    requires
        replays((input, Seq::empty()), Seq::empty(), ops, (a, b)),
        b.len() == 0,
        ascending(a),
    ensures
        sorts(input, ops),
{
    assert(ops.skip(0) =~= ops);
    lemma_replays_content((input, Seq::empty()), Seq::empty(), ops, (a, b));
    assert(input + Seq::<i32>::empty() =~= input);
    assert(a + b =~= a);
}

// ---------------------------------------------------------------------------
// Rotating several times
// ---------------------------------------------------------------------------

/// One more rotation up of a stack already rotated `k` times.
pub proof fn lemma_rot_up_by(s: Seq<i32>, k: int)
    requires
        0 <= k < s.len(),
    ensures
        rot_up(rot_by(s, k)) == rot_by(s, k + 1),
{
    if s.len() >= 2 {
        assert(rot_up(rot_by(s, k)) =~= rot_by(s, k + 1));
    } else {
        assert(rot_by(s, k) =~= s);
        assert(rot_by(s, k + 1) =~= s);
    }
}

/// One more rotation down takes back one rotation up.
pub proof fn lemma_rot_down_by(s: Seq<i32>, k: int)
    requires
        0 < k <= s.len(),
    ensures
        rot_down(rot_by(s, k)) == rot_by(s, k - 1),
{
    if s.len() >= 2 {
        assert(rot_down(rot_by(s, k)) =~= rot_by(s, k - 1));
    } else {
        assert(rot_by(s, k) =~= s);
        assert(rot_by(s, k - 1) =~= s);
    }
}

pub proof fn lemma_rot_by_ends(s: Seq<i32>)
    ensures
        rot_by(s, 0) == s,
        rot_by(s, s.len() as int) == s,
{
    assert(rot_by(s, 0) =~= s);
    assert(rot_by(s, s.len() as int) =~= s);
}

// ---------------------------------------------------------------------------
// Renaming the elements
// ---------------------------------------------------------------------------

/// Apply `f` to every element of both stacks.
pub open spec fn map_state(st: (Seq<i32>, Seq<i32>), f: spec_fn(i32) -> i32) -> (
    Seq<i32>,
    Seq<i32>,
) {
    (st.0.map_values(f), st.1.map_values(f))
}

/// The operations only move elements, never look at them: renaming the
/// elements before a run is renaming them after it.
pub proof fn law_run_map(st: (Seq<i32>, Seq<i32>), ops: Seq<Op>, f: spec_fn(i32) -> i32)
    ensures
        run(map_state(st, f), ops) == map_state(run(st, ops), f),
    decreases ops.len(),
{
    if ops.len() > 0 {
        law_run_map(st, ops.drop_last(), f);
        lemma_step_map(run(st, ops.drop_last()), ops.last(), f);
    }
}

proof fn lemma_step_map(st: (Seq<i32>, Seq<i32>), op: Op, f: spec_fn(i32) -> i32)
    ensures
        step(map_state(st, f), op) == map_state(step(st, op), f),
{
    let a = st.0;
    let b = st.1;
    assert(swap_top(a.map_values(f)) =~= swap_top(a).map_values(f));
    assert(swap_top(b.map_values(f)) =~= swap_top(b).map_values(f));
    assert(rot_up(a.map_values(f)) =~= rot_up(a).map_values(f));
    assert(rot_up(b.map_values(f)) =~= rot_up(b).map_values(f));
    assert(rot_down(a.map_values(f)) =~= rot_down(a).map_values(f));
    assert(rot_down(b.map_values(f)) =~= rot_down(b).map_values(f));
    if a.len() > 0 {
        assert(a.map_values(f).drop_first() =~= a.drop_first().map_values(f));
        assert(seq![a.map_values(f)[0]] + b.map_values(f) =~= (seq![a[0]] + b).map_values(f));
    }
    if b.len() > 0 {
        assert(b.map_values(f).drop_first() =~= b.drop_first().map_values(f));
        assert(seq![b.map_values(f)[0]] + a.map_values(f) =~= (seq![b[0]] + a).map_values(f));
    }
}

} // verus!
