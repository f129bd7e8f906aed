//! The meaning of the point-addition circuit on one shot: the point a
//! register holds, and the scratch state after each step of the addition's
//! compute phase, block by block.
use super::builder::{distinct_qubits, qubit_set};
use super::field_circuits::{
    lemma_qubits_value_bit, lemma_qubits_value_bound, lemma_qubits_value_frame, lemma_set_regs_flip,
    lemma_set_regs_keeps, lemma_set_regs_value, lemma_xor_bits_flip, not_in_regs, regs_ok,
    regs_set, set_regs, xor_bits_of, xor_value,
};
use super::field_circuits::{binary_field_value, unary_field_value, BinaryFieldOperation, UnaryFieldOperation};
use super::point_arith::{
    add_values, doubling_flag, fmul, fsub, inverse_flag, lemma_block_values, point_add_circuit,
};
use super::builder::effect;
use super::semantics::{
    agree_outside, all_reversible, flip, is_reversible_op, lemma_run_append, lemma_run_frame,
    lemma_run_reverse, op_qubits, run, zero_on,
};
use super::signal::{bit_at_spec, eval, nat_bit, qubits_value, value_of, Signal, SignalKind};
use super::{block, point_qubits, PointRegister, PointValue, SCRATCH_BLOCKS};
use crate::circuit::{Op, QubitId};
use crate::curve::Point;
use vstd::arithmetic::power2::{lemma_pow2_pos, lemma_pow2_unfold, pow2};
use vstd::prelude::*;

verus! {

/// The point a register holds: the five-bit values of its coordinates and
/// its flag.
pub open spec fn reg_point(s: spec_fn(u64) -> bool, p: PointRegister) -> Point {
    Point {
        x: qubits_value(p.x@, 5, s) as u16,
        y: qubits_value(p.y@, 5, s) as u16,
        infinity: s(p.inf.0),
    }
}

/// The scratch blocks of an addition in the order they are written: the
/// sum of the y coordinates (block 16), then blocks 0 to 15.
pub open spec fn add_regs(big: Seq<QubitId>) -> Seq<Seq<QubitId>> {
    Seq::new(
        17,
        |j: int|
            if j == 0 {
                block(big, 16)
            } else {
                block(big, j - 1)
            },
    )
}

/// The qubit of the flag of a point plus its negation.
pub open spec fn inverse_qubit(big: Seq<QubitId>) -> u64 {
    big[85].0
}

/// The qubit of the doubling flag.
pub open spec fn doubling_qubit(big: Seq<QubitId>) -> u64 {
    big[86].0
}

/// The number of blocks set after `k` steps of the compute phase: the y sum
/// is written first, then the two flags, then one block per step.
pub open spec fn blocks_set(k: nat) -> nat {
    if k <= 1 {
        k
    } else if k == 2 {
        1
    } else {
        (k - 2) as nat
    }
}

/// The assignment after `k` steps of the compute phase of adding the
/// points of `left` and `right` from `s`.
pub open spec fn add_state(
    left: PointRegister,
    right: PointRegister,
    big: Seq<QubitId>,
    s: spec_fn(u64) -> bool,
    k: nat,
) -> spec_fn(u64) -> bool {
    let l = reg_point(s, left);
    let r = reg_point(s, right);
    let t = set_regs(s, add_regs(big), add_values(l, r), blocks_set(k));
    if k <= 1 {
        t
    } else if k == 2 {
        flip(t, inverse_qubit(big), inverse_flag(l, r))
    } else {
        flip(flip(t, inverse_qubit(big), inverse_flag(l, r)), doubling_qubit(big), doubling_flag(l, r))
    }
}

/// The qubits of an addition: five-bit coordinates, and eighteen blocks of
/// distinct scratch that the operands do not meet.
pub open spec fn add_layout(left: PointRegister, right: PointRegister, big: Seq<QubitId>) -> bool {
    &&& left.x@.len() == 5
    &&& left.y@.len() == 5
    &&& right.x@.len() == 5
    &&& right.y@.len() == 5
    &&& big.len() == 5 * SCRATCH_BLOCKS
    &&& distinct_qubits(big)
    &&& (point_qubits(left) + point_qubits(right)).disjoint(qubit_set(big))
}

/// Running `ops` from any assignment zero on `z` ends in the state after
/// `k` steps of the addition.
pub open spec fn add_traced(
    ops: Seq<Op>,
    z: Set<u64>,
    left: PointRegister,
    right: PointRegister,
    big: Seq<QubitId>,
    k: nat,
) -> bool {
    forall|s: spec_fn(u64) -> bool| zero_on(s, z) ==> #[trigger] run(ops, s) == add_state(left, right, big, s, k)
}

/// The blocks are five distinct qubits each, two blocks do not meet, and
/// the flag qubits are in none of them.
pub proof fn lemma_add_regs(big: Seq<QubitId>)
    requires
        big.len() == 5 * SCRATCH_BLOCKS,
        distinct_qubits(big),
    ensures
        regs_ok(add_regs(big), 17),
        not_in_regs(add_regs(big), 0, 17, inverse_qubit(big)),
        not_in_regs(add_regs(big), 0, 17, doubling_qubit(big)),
        inverse_qubit(big) != doubling_qubit(big),
        forall|q: u64| regs_set(add_regs(big), 17).contains(q) ==> qubit_set(big).contains(q),
        qubit_set(big).contains(inverse_qubit(big)),
        qubit_set(big).contains(doubling_qubit(big)),
{
    let regs = add_regs(big);
    assert forall|j: int, a: int| 0 <= j < 17 && 0 <= a < 5 implies #[trigger] regs[j][a] == big[(if j
        == 0 {
        80
    } else {
        5 * (j - 1)
    }) + a] by {}
    assert forall|j: int| 0 <= j < 17 implies (#[trigger] regs[j]).len() == 5 && distinct_qubits(regs[j]) by {
        assert forall|a: int, b: int| 0 <= a < b < regs[j].len() implies regs[j][a] != regs[j][b] by {
            assert(regs[j][a] == big[(if j == 0 { 80 } else { 5 * (j - 1) }) + a]);
            assert(regs[j][b] == big[(if j == 0 { 80 } else { 5 * (j - 1) }) + b]);
        }
    }
    assert forall|i: int, j: int, a: int, b: int|
        0 <= i < j < 17 && 0 <= a < 5 && 0 <= b < 5 implies (#[trigger] regs[i][a]) != (#[trigger] regs[j][b]) by {
        assert(regs[i][a] == big[(if i == 0 { 80 } else { 5 * (i - 1) }) + a]);
        assert(regs[j][b] == big[(if j == 0 { 80 } else { 5 * (j - 1) }) + b]);
    }
    assert forall|j: int, a: int| 0 <= j < 17 && 0 <= a < 5 implies (#[trigger] regs[j][a]).0 != inverse_qubit(big)
        && regs[j][a].0 != doubling_qubit(big) by {
        assert(regs[j][a] == big[(if j == 0 { 80 } else { 5 * (j - 1) }) + a]);
        assert(big[85] != regs[j][a]);
        assert(big[86] != regs[j][a]);
    }
    assert(big[85] != big[86]);
    assert forall|q: u64| regs_set(regs, 17).contains(q) implies qubit_set(big).contains(q) by {
        let (j, a) = choose|j: int, a: int| 0 <= j < 17 && 0 <= a < 5 && (#[trigger] regs[j][a]).0 == q;
        assert(regs[j][a] == big[(if j == 0 { 80 } else { 5 * (j - 1) }) + a]);
    }
}

/// The state after `k` steps agrees with `s` outside the scratch.
proof fn lemma_state_outside(
    left: PointRegister,
    right: PointRegister,
    big: Seq<QubitId>,
    s: spec_fn(u64) -> bool,
    k: nat,
)
    requires
        add_layout(left, right, big),
        k <= 19,
    ensures
        forall|q: u64| !qubit_set(big).contains(q) ==> #[trigger] add_state(left, right, big, s, k)(q) == s(q),
{
    let t = add_state(left, right, big, s, k);
    let vals = add_values(reg_point(s, left), reg_point(s, right));
    let regs = add_regs(big);
    let n = blocks_set(k);
    lemma_add_regs(big);
    lemma_set_regs_keeps(s, regs, vals, n);
    assert forall|q: u64| !qubit_set(big).contains(q) implies #[trigger] t(q) == s(q) by {
        if regs_set(regs, n).contains(q) {
            let (j, a) = choose|j: int, a: int| 0 <= j < n && 0 <= a < 5 && (#[trigger] regs[j][a]).0 == q;
            assert(!not_in_regs(regs, 0, 17, q));
        }
    }
}

/// The operands' registers read in the state after `k` steps as in `s`.
proof fn lemma_state_operands(
    left: PointRegister,
    right: PointRegister,
    big: Seq<QubitId>,
    s: spec_fn(u64) -> bool,
    k: nat,
)
    requires
        add_layout(left, right, big),
        k <= 19,
    ensures
        ({
            let t = add_state(left, right, big, s, k);
            let l = reg_point(s, left);
            let r = reg_point(s, right);
            &&& qubits_value(left.x@, 5, t) == l.x as nat
            &&& qubits_value(left.y@, 5, t) == l.y as nat
            &&& qubits_value(right.x@, 5, t) == r.x as nat
            &&& qubits_value(right.y@, 5, t) == r.y as nat
            &&& t(left.inf.0) == l.infinity
            &&& t(right.inf.0) == r.infinity
            &&& l.x < 32 && l.y < 32 && r.x < 32 && r.y < 32
        }),
{
    let t = add_state(left, right, big, s, k);
    lemma_state_outside(left, right, big, s, k);
    super::lemma_point_covers(left);
    super::lemma_point_covers(right);
    assert forall|q: u64| qubit_set(left.x@).contains(q) implies t(q) == s(q) by {
        assert(!qubit_set(big).contains(q));
    }
    assert forall|q: u64| qubit_set(left.y@).contains(q) implies t(q) == s(q) by {
        assert(!qubit_set(big).contains(q));
    }
    assert forall|q: u64| qubit_set(right.x@).contains(q) implies t(q) == s(q) by {
        assert(!qubit_set(big).contains(q));
    }
    assert forall|q: u64| qubit_set(right.y@).contains(q) implies t(q) == s(q) by {
        assert(!qubit_set(big).contains(q));
    }
    assert(!qubit_set(big).contains(left.inf.0));
    assert(!qubit_set(big).contains(right.inf.0));
    lemma_qubits_value_frame(left.x@, 5, t, s);
    lemma_qubits_value_frame(left.y@, 5, t, s);
    lemma_qubits_value_frame(right.x@, 5, t, s);
    lemma_qubits_value_frame(right.y@, 5, t, s);
    lemma_qubits_value_bound(left.x@, 5, s);
    lemma_qubits_value_bound(left.y@, 5, s);
    lemma_qubits_value_bound(right.x@, 5, s);
    lemma_qubits_value_bound(right.y@, 5, s);
    vstd::arithmetic::power2::lemma2_to64();
}

/// Away from the flag qubits the state is the blocks set so far.
proof fn lemma_state_base(
    left: PointRegister,
    right: PointRegister,
    big: Seq<QubitId>,
    s: spec_fn(u64) -> bool,
    k: nat,
    q: u64,
)
    requires
        q != inverse_qubit(big),
        q != doubling_qubit(big),
    ensures
        add_state(left, right, big, s, k)(q) == set_regs(
            s,
            add_regs(big),
            add_values(reg_point(s, left), reg_point(s, right)),
            blocks_set(k),
        )(q),
{
}

/// Every scratch value is a reduced field element.
pub proof fn lemma_values_small(l: Point, r: Point)
    ensures
        forall|j: int| 0 <= j < 17 ==> #[trigger] add_values(l, r)[j] < 31,
{
    let v = add_values(l, r);
    lemma_block_values(l.x as nat, l.y as nat, r.x as nat, r.y as nat, doubling_flag(l, r));
    super::field_circuits::lemma_inv31(v[2] as nat);
    super::field_circuits::lemma_inv31(v[7] as nat);
}

/// Block `j`, once set, holds its value.
proof fn lemma_state_block(
    left: PointRegister,
    right: PointRegister,
    big: Seq<QubitId>,
    s: spec_fn(u64) -> bool,
    k: nat,
    j: int,
)
    requires
        add_layout(left, right, big),
        zero_on(s, qubit_set(big)),
        k <= 19,
        0 <= j < blocks_set(k),
    ensures
        ({
            let t = add_state(left, right, big, s, k);
            let vals = add_values(reg_point(s, left), reg_point(s, right));
            &&& qubits_value(add_regs(big)[j], 5, t) == vals[j]
            &&& forall|a: int| 0 <= a < 5 ==> t(#[trigger] add_regs(big)[j][a].0) == nat_bit(vals[j], a as nat)
        }),
{
    let t = add_state(left, right, big, s, k);
    let vals = add_values(reg_point(s, left), reg_point(s, right));
    let regs = add_regs(big);
    let n = blocks_set(k);
    let base = set_regs(s, regs, vals, n);
    let reg = regs[j];
    lemma_add_regs(big);
    lemma_values_small(reg_point(s, left), reg_point(s, right));
    assert(n <= 17);
    assert forall|a: int| 0 <= a < 5 implies !s(#[trigger] reg[a].0) by {
        assert(!not_in_regs(regs, 0, 17, reg[a].0));
        assert(regs_set(regs, 17).contains(reg[a].0));
        assert(qubit_set(big).contains(reg[a].0));
    }
    lemma_set_regs_value(s, regs, vals, n, j);
    assert forall|a: int| 0 <= a < 5 implies t(#[trigger] reg[a].0) == base(reg[a].0) by {
        assert(reg[a].0 != inverse_qubit(big) && reg[a].0 != doubling_qubit(big));
        lemma_state_base(left, right, big, s, k, reg[a].0);
    }
    assert forall|q: u64| qubit_set(reg).contains(q) implies t(q) == base(q) by {
        let a = choose|a: int| 0 <= a < reg.len() && (#[trigger] reg[a]).0 == q;
        assert(t(reg[a].0) == base(reg[a].0));
    }
    lemma_qubits_value_frame(reg, 5, t, base);
}

/// The blocks set after `k` steps hold their values.
proof fn lemma_state_blocks(
    left: PointRegister,
    right: PointRegister,
    big: Seq<QubitId>,
    s: spec_fn(u64) -> bool,
    k: nat,
)
    requires
        add_layout(left, right, big),
        zero_on(s, qubit_set(big)),
        k <= 19,
    ensures
        ({
            let t = add_state(left, right, big, s, k);
            let vals = add_values(reg_point(s, left), reg_point(s, right));
            &&& forall|j: int| 0 <= j < blocks_set(k) ==> qubits_value(#[trigger] add_regs(big)[j], 5, t) == vals[j]
            &&& forall|j: int, a: int|
                0 <= j < blocks_set(k) && 0 <= a < 5 ==> t(#[trigger] add_regs(big)[j][a].0) == nat_bit(
                    vals[j],
                    a as nat,
                )
        }),
{
    let t = add_state(left, right, big, s, k);
    let vals = add_values(reg_point(s, left), reg_point(s, right));
    assert forall|j: int| 0 <= j < blocks_set(k) implies qubits_value(#[trigger] add_regs(big)[j], 5, t) == vals[j] by {
        lemma_state_block(left, right, big, s, k, j);
    }
    assert forall|j: int, a: int| 0 <= j < blocks_set(k) && 0 <= a < 5 implies t(#[trigger] add_regs(big)[j][a].0)
        == nat_bit(vals[j], a as nat) by {
        lemma_state_block(left, right, big, s, k, j);
    }
}

/// The flags after `k` steps: each holds its case once written, and is
/// clear before.
proof fn lemma_state_flags(
    left: PointRegister,
    right: PointRegister,
    big: Seq<QubitId>,
    s: spec_fn(u64) -> bool,
    k: nat,
)
    requires
        add_layout(left, right, big),
        zero_on(s, qubit_set(big)),
        k <= 19,
    ensures
        ({
            let t = add_state(left, right, big, s, k);
            let l = reg_point(s, left);
            let r = reg_point(s, right);
            &&& t(inverse_qubit(big)) == (k >= 2 && inverse_flag(l, r))
            &&& t(doubling_qubit(big)) == (k >= 3 && doubling_flag(l, r))
        }),
{
    let l = reg_point(s, left);
    let r = reg_point(s, right);
    let vals = add_values(l, r);
    let regs = add_regs(big);
    let n = blocks_set(k);
    lemma_add_regs(big);
    assert(!regs_set(regs, n).contains(inverse_qubit(big)));
    assert(!regs_set(regs, n).contains(doubling_qubit(big)));
    lemma_set_regs_keeps(s, regs, vals, n);
}

/// What the state after `k` steps holds: every qubit outside the scratch as
/// in `s`, the blocks set so far at their values, and the flags once set.
pub proof fn lemma_state_reads(
    left: PointRegister,
    right: PointRegister,
    big: Seq<QubitId>,
    s: spec_fn(u64) -> bool,
    k: nat,
)
    requires
        add_layout(left, right, big),
        zero_on(s, qubit_set(big)),
        k <= 19,
    ensures
        ({
            let t = add_state(left, right, big, s, k);
            let l = reg_point(s, left);
            let r = reg_point(s, right);
            let vals = add_values(l, r);
            &&& forall|q: u64| !qubit_set(big).contains(q) ==> #[trigger] t(q) == s(q)
            &&& qubits_value(left.x@, 5, t) == l.x as nat
            &&& qubits_value(left.y@, 5, t) == l.y as nat
            &&& qubits_value(right.x@, 5, t) == r.x as nat
            &&& qubits_value(right.y@, 5, t) == r.y as nat
            &&& t(left.inf.0) == l.infinity
            &&& t(right.inf.0) == r.infinity
            &&& l.x < 32 && l.y < 32 && r.x < 32 && r.y < 32
            &&& forall|j: int| 0 <= j < blocks_set(k) ==> qubits_value(#[trigger] add_regs(big)[j], 5, t) == vals[j]
            &&& forall|j: int, a: int|
                0 <= j < blocks_set(k) && 0 <= a < 5 ==> t(#[trigger] add_regs(big)[j][a].0) == nat_bit(
                    vals[j],
                    a as nat,
                )
            &&& t(inverse_qubit(big)) == (k >= 2 && inverse_flag(l, r))
            &&& t(doubling_qubit(big)) == (k >= 3 && doubling_flag(l, r))
        }),
{
    lemma_state_outside(left, right, big, s, k);
    lemma_state_operands(left, right, big, s, k);
    lemma_state_blocks(left, right, big, s, k);
    lemma_state_flags(left, right, big, s, k);
}

/// Writing the next block at its value, or the next flag, takes the state
/// one step on.
pub proof fn lemma_state_next(
    left: PointRegister,
    right: PointRegister,
    big: Seq<QubitId>,
    s: spec_fn(u64) -> bool,
    k: nat,
)
    requires
        add_layout(left, right, big),
        k < 19,
    ensures
        ({
            let l = reg_point(s, left);
            let r = reg_point(s, right);
            let vals = add_values(l, r);
            let t = add_state(left, right, big, s, k);
            let u = add_state(left, right, big, s, k + 1);
            &&& k == 1 ==> flip(t, inverse_qubit(big), inverse_flag(l, r)) == u
            &&& k == 2 ==> flip(t, doubling_qubit(big), doubling_flag(l, r)) == u
            &&& (k == 0 || k >= 3) ==> xor_value(t, add_regs(big)[blocks_set(k) as int], vals[blocks_set(k) as int]) == u
        }),
{
    let l = reg_point(s, left);
    let r = reg_point(s, right);
    let vals = add_values(l, r);
    let regs = add_regs(big);
    lemma_add_regs(big);
    if k == 0 || k >= 3 {
        let n = blocks_set(k);
        let reg = regs[n as int];
        assert(reg.len() == 5);
        assert(super::field_circuits::field_width(reg) == 5);
        assert(set_regs(s, regs, vals, n + 1) == xor_bits_of(set_regs(s, regs, vals, n), reg, vals[n as int], 5));
        if k >= 3 {
            let base = set_regs(s, regs, vals, n);
            let f1 = flip(base, inverse_qubit(big), inverse_flag(l, r));
            assert forall|i: int| 0 <= i < 5 implies (#[trigger] reg[i]).0 != inverse_qubit(big) && reg[i].0
                != doubling_qubit(big) by {}
            lemma_xor_bits_flip(base, reg, vals[n as int], 5, inverse_qubit(big), inverse_flag(l, r));
            lemma_xor_bits_flip(f1, reg, vals[n as int], 5, doubling_qubit(big), doubling_flag(l, r));
        }
    }
}

/// One more step of the addition: running the step from the state after
/// `k` steps gives the state after `k + 1`.
pub proof fn lemma_trace_next(
    pre: Seq<Op>,
    step: Seq<Op>,
    z: Set<u64>,
    left: PointRegister,
    right: PointRegister,
    big: Seq<QubitId>,
    k: nat,
)
    requires
        add_traced(pre, z, left, right, big, k),
        forall|s: spec_fn(u64) -> bool|
            zero_on(s, z) ==> #[trigger] run(step, add_state(left, right, big, s, k)) == add_state(
                left,
                right,
                big,
                s,
                k + 1,
            ),
    ensures
        add_traced(pre + step, z, left, right, big, k + 1),
{
    assert forall|s: spec_fn(u64) -> bool| zero_on(s, z) implies #[trigger] run(pre + step, s) == add_state(
        left,
        right,
        big,
        s,
        k + 1,
    ) by {
        lemma_run_append(pre, step, s);
        assert(run(pre, s) == add_state(left, right, big, s, k));
    }
}

/// Two qubit sequences whose first `w` bits agree have equal values.
proof fn lemma_values_agree(a: Seq<QubitId>, b: Seq<QubitId>, t: spec_fn(u64) -> bool, w: nat)
    requires
        w <= a.len(),
        w <= b.len(),
        forall|i: int| 0 <= i < w ==> t(#[trigger] a[i].0) == t(b[i].0),
    ensures
        qubits_value(a, w, t) == qubits_value(b, w, t),
    decreases w,
{
    if w > 0 {
        lemma_values_agree(a, b, t, (w - 1) as nat);
        assert(t(a[w - 1].0) == t(b[w - 1].0));
    }
}

/// Five qubits read zero exactly when each is clear.
proof fn lemma_zero_value(a: Seq<QubitId>, t: spec_fn(u64) -> bool, w: nat)
    requires
        w <= a.len(),
    ensures
        (forall|i: int| 0 <= i < w ==> !t(#[trigger] a[i].0)) <==> qubits_value(a, w, t) == 0,
    decreases w,
{
    if w > 0 {
        lemma_zero_value(a, t, (w - 1) as nat);
        vstd::arithmetic::power2::lemma_pow2_pos((w - 1) as nat);
        if forall|i: int| 0 <= i < w ==> !t(#[trigger] a[i].0) {
            assert forall|i: int| 0 <= i < w - 1 implies !t(#[trigger] a[i].0) by {}
            assert(!t(a[w - 1].0));
        }
        if qubits_value(a, w, t) == 0 {
            assert(!t(a[w - 1].0));
            assert forall|i: int| 0 <= i < w implies !t(#[trigger] a[i].0) by {
                if i < w - 1 {
                }
            }
        }
    }
}

/// Two five-qubit sequences agree bit by bit exactly when their values are
/// equal.
pub proof fn lemma_same_value(a: Seq<QubitId>, b: Seq<QubitId>, t: spec_fn(u64) -> bool)
    requires
        a.len() == 5,
        b.len() == 5,
    ensures
        (forall|i: int| 0 <= i < 5 ==> t(#[trigger] a[i].0) == t(b[i].0)) <==> qubits_value(a, 5, t)
            == qubits_value(b, 5, t),
{
    if forall|i: int| 0 <= i < 5 ==> t(#[trigger] a[i].0) == t(b[i].0) {
        lemma_values_agree(a, b, t, 5);
    }
    if qubits_value(a, 5, t) == qubits_value(b, 5, t) {
        assert forall|i: int| 0 <= i < 5 implies t(#[trigger] a[i].0) == t(b[i].0) by {
            lemma_qubits_value_bit(a, t, i);
            lemma_qubits_value_bit(b, t, i);
        }
    }
}

/// Five qubits are all clear exactly when they read zero.
pub proof fn lemma_clear_value(a: Seq<QubitId>, t: spec_fn(u64) -> bool)
    requires
        a.len() == 5,
    ensures
        (forall|i: int| 0 <= i < 5 ==> !t(#[trigger] a[i].0)) <==> qubits_value(a, 5, t) == 0,
{
    lemma_zero_value(a, t, 5);
}

/// The scratch values by their recipes, each a reduced field element.
pub open spec fn values_facts(l: Point, r: Point) -> bool {
    let xl = l.x as nat;
    let yl = l.y as nat;
    let xr = r.x as nat;
    let yr = r.y as nat;
    let v = add_values(l, r);
    &&& v[0] == binary_field_value(BinaryFieldOperation::Add, yl, yr)
    &&& v[1] == fsub(yr, yl)
    &&& v[2] == fsub(xr, xl)
    &&& v[3] == unary_field_value(UnaryFieldOperation::Inv, v[2])
    &&& v[4] == fmul(v[1], v[3])
    &&& v[5] == fmul(xl, xl)
    &&& v[6] == unary_field_value(UnaryFieldOperation::MulConst(3), v[5])
    &&& v[7] == unary_field_value(UnaryFieldOperation::MulConst(2), yl)
    &&& v[8] == unary_field_value(UnaryFieldOperation::Inv, v[7])
    &&& v[9] == fmul(v[6], v[8])
    &&& v[10] == (if doubling_flag(l, r) { v[9] } else { v[4] })
    &&& v[11] == fmul(v[10], v[10])
    &&& v[12] == fsub(v[11], xl)
    &&& v[13] == fsub(v[12], xr)
    &&& v[14] == fsub(xl, v[13])
    &&& v[15] == fmul(v[10], v[14])
    &&& v[16] == fsub(v[15], yl)
    &&& forall|j: int| 0 <= j < 17 ==> #[trigger] v[j] < 31
}

/// The scratch values by their recipes.
pub proof fn lemma_values_facts(l: Point, r: Point)
    ensures
        values_facts(l, r),
{
    lemma_block_values(l.x as nat, l.y as nat, r.x as nat, r.y as nat, doubling_flag(l, r));
    lemma_values_small(l, r);
}

/// What the state after `k` steps reads: the operands as in `s`, the
/// blocks set so far at their values, and the flags once set.
pub open spec fn reads_facts(
    left: PointRegister,
    right: PointRegister,
    big: Seq<QubitId>,
    s: spec_fn(u64) -> bool,
    k: nat,
) -> bool {
    let t = add_state(left, right, big, s, k);
    let l = reg_point(s, left);
    let r = reg_point(s, right);
    let v = add_values(l, r);
    let regs = add_regs(big);
    &&& qubits_value(left.x@, 5, t) == l.x as nat
    &&& qubits_value(left.y@, 5, t) == l.y as nat
    &&& qubits_value(right.x@, 5, t) == r.x as nat
    &&& qubits_value(right.y@, 5, t) == r.y as nat
    &&& t(left.inf.0) == l.infinity
    &&& t(right.inf.0) == r.infinity
    &&& forall|j: int| 0 <= j < blocks_set(k) ==> qubits_value(#[trigger] regs[j], 5, t) == v[j]
    &&& forall|j: int, a: int|
        0 <= j < blocks_set(k) && 0 <= a < 5 ==> t(#[trigger] regs[j][a].0) == nat_bit(v[j], a as nat)
    &&& t(inverse_qubit(big)) == (k >= 2 && inverse_flag(l, r))
    &&& t(doubling_qubit(big)) == (k >= 3 && doubling_flag(l, r))
}

/// What writing the next block or flag does.
pub open spec fn next_facts(
    left: PointRegister,
    right: PointRegister,
    big: Seq<QubitId>,
    s: spec_fn(u64) -> bool,
    k: nat,
) -> bool {
    let t = add_state(left, right, big, s, k);
    let u = add_state(left, right, big, s, k + 1);
    let l = reg_point(s, left);
    let r = reg_point(s, right);
    let v = add_values(l, r);
    let regs = add_regs(big);
    &&& k == 1 ==> flip(t, inverse_qubit(big), inverse_flag(l, r)) == u
    &&& k == 2 ==> flip(t, doubling_qubit(big), doubling_flag(l, r)) == u
    &&& (k == 0 || k >= 3) ==> xor_value(t, regs[blocks_set(k) as int], v[blocks_set(k) as int]) == u
}

/// The blocks in the order they are written.
pub proof fn lemma_regs_blocks(big: Seq<QubitId>)
    ensures
        forall|j: int| 0 <= j < 17 ==> #[trigger] add_regs(big)[j] == block(big, if j == 0 { 16 } else { j - 1 }),
{
}

/// The facts of a step, and that its state keeps the pool clear.
pub proof fn lemma_step_ready(
    left: PointRegister,
    right: PointRegister,
    big: Seq<QubitId>,
    s: spec_fn(u64) -> bool,
    k: nat,
    pool: Set<u64>,
)
    requires
        add_layout(left, right, big),
        k < 19,
        zero_on(s, pool + qubit_set(big)),
        pool.disjoint(qubit_set(big)),
    ensures
        zero_on(add_state(left, right, big, s, k), pool),
        reads_facts(left, right, big, s, k),
        next_facts(left, right, big, s, k),
        values_facts(reg_point(s, left), reg_point(s, right)),
{
    let t = add_state(left, right, big, s, k);
    assert forall|q: u64| qubit_set(big).contains(q) implies !s(q) by {
        assert((pool + qubit_set(big)).contains(q));
    }
    lemma_state_reads(left, right, big, s, k);
    lemma_state_next(left, right, big, s, k);
    lemma_values_facts(reg_point(s, left), reg_point(s, right));
    assert forall|q: u64| pool.contains(q) implies !t(q) by {
        assert(!qubit_set(big).contains(q));
        assert((pool + qubit_set(big)).contains(q));
    }
}

/// Before any step, the state is the starting assignment.
pub proof fn lemma_trace_start(
    ops: Seq<Op>,
    z: Set<u64>,
    left: PointRegister,
    right: PointRegister,
    big: Seq<QubitId>,
)
    requires
        ops.len() == 0,
    ensures
        add_traced(ops, z, left, right, big, 0),
{
    assert forall|s: spec_fn(u64) -> bool| zero_on(s, z) implies #[trigger] run(ops, s) == add_state(
        left,
        right,
        big,
        s,
        0,
    ) by {}
}

/// The signals reading a sequence of qubits read those qubits.
pub proof fn lemma_held_bits(sigs: Seq<Signal>, reg: Seq<QubitId>, t: spec_fn(u64) -> bool)
    requires
        sigs.len() == reg.len(),
        forall|i: int| 0 <= i < reg.len() ==> #[trigger] sigs[i] == Signal(SignalKind::Qubit(reg[i])),
    ensures
        forall|i: int| 0 <= i < reg.len() ==> #[trigger] eval(bit_at_spec(sigs, i), t) == t(reg[i].0),
{
    assert forall|i: int| 0 <= i < reg.len() implies #[trigger] eval(bit_at_spec(sigs, i), t) == t(reg[i].0) by {
        assert(sigs[i] == Signal(SignalKind::Qubit(reg[i])));
    }
}

/// What an equality of two qubit sequences' signals means: their values
/// are equal.
pub proof fn lemma_eq_bits_meaning(
    lsig: Seq<Signal>,
    rsig: Seq<Signal>,
    a: Seq<QubitId>,
    b: Seq<QubitId>,
    t: spec_fn(u64) -> bool,
    e: bool,
)
    requires
        a.len() == 5,
        b.len() == 5,
        lsig.len() == 5,
        rsig.len() == 5,
        forall|i: int| 0 <= i < 5 ==> #[trigger] lsig[i] == Signal(SignalKind::Qubit(a[i])),
        forall|i: int| 0 <= i < 5 ==> #[trigger] rsig[i] == Signal(SignalKind::Qubit(b[i])),
        e == (forall|i: int|
            0 <= i < vstd::math::max(lsig.len() as int, rsig.len() as int) ==> eval(
                #[trigger] bit_at_spec(lsig, i),
                t,
            ) == eval(bit_at_spec(rsig, i), t)),
    ensures
        e == (qubits_value(a, 5, t) == qubits_value(b, 5, t)),
{
    lemma_held_bits(lsig, a, t);
    lemma_held_bits(rsig, b, t);
    lemma_same_value(a, b, t);
    if e {
        assert forall|i: int| 0 <= i < 5 implies t(#[trigger] a[i].0) == t(b[i].0) by {
            assert(eval(bit_at_spec(lsig, i), t) == eval(bit_at_spec(rsig, i), t));
        }
    }
    if forall|i: int| 0 <= i < 5 ==> t(#[trigger] a[i].0) == t(b[i].0) {
        assert forall|i: int| 0 <= i < 5 implies eval(#[trigger] bit_at_spec(lsig, i), t) == eval(
            bit_at_spec(rsig, i),
            t,
        ) by {
            assert(t(a[i].0) == t(b[i].0));
        }
    }
}

/// What a zero test of a qubit sequence's signals means: its value is zero.
pub proof fn lemma_is_zero_meaning(sigs: Seq<Signal>, a: Seq<QubitId>, t: spec_fn(u64) -> bool, e: bool)
    requires
        a.len() == 5,
        sigs.len() == 5,
        forall|i: int| 0 <= i < 5 ==> #[trigger] sigs[i] == Signal(SignalKind::Qubit(a[i])),
        e == (forall|i: int| 0 <= i < sigs.len() ==> !eval(#[trigger] sigs[i], t)),
    ensures
        e == (qubits_value(a, 5, t) == 0),
{
    lemma_clear_value(a, t);
    if e {
        assert forall|i: int| 0 <= i < 5 implies !t(#[trigger] a[i].0) by {
            assert(!eval(sigs[i], t));
        }
    }
    if forall|i: int| 0 <= i < 5 ==> !t(#[trigger] a[i].0) {
        assert forall|i: int| 0 <= i < sigs.len() implies !eval(#[trigger] sigs[i], t) by {
            assert(!t(a[i].0));
        }
    }
}

/// `s` with the bits of `x` and `y` XORed into a register's coordinates
/// and its flag flipped by `inf`.
pub open spec fn xor_point_bits(
    s: spec_fn(u64) -> bool,
    target: PointRegister,
    x: nat,
    y: nat,
    inf: bool,
) -> spec_fn(u64) -> bool {
    flip(xor_bits_of(xor_bits_of(s, target.x@, x, 5), target.y@, y, 5), target.inf.0, inf)
}

/// `s` with the point `p` XORed into a register.
pub open spec fn xor_point(s: spec_fn(u64) -> bool, target: PointRegister, p: Point) -> spec_fn(u64) -> bool {
    xor_point_bits(s, target, p.x as nat, p.y as nat, p.infinity)
}

/// XORing a point into a register leaves every other qubit alone.
pub proof fn lemma_xor_point_outside(
    s: spec_fn(u64) -> bool,
    target: PointRegister,
    x: nat,
    y: nat,
    inf: bool,
    q: u64,
)
    requires
        target.x@.len() == 5,
        target.y@.len() == 5,
        !point_qubits(target).contains(q),
    ensures
        xor_point_bits(s, target, x, y, inf)(q) == s(q),
{
    super::lemma_point_covers(target);
    assert forall|i: int| 0 <= i < 5 implies (#[trigger] target.x@[i]).0 != q by {
        assert(qubit_set(target.x@).contains(target.x@[i].0));
    }
    assert forall|i: int| 0 <= i < 5 implies (#[trigger] target.y@[i]).0 != q by {
        assert(qubit_set(target.y@).contains(target.y@[i].0));
    }
    super::field_circuits::lemma_xor_bits_outside(s, target.x@, x, 5, q);
    super::field_circuits::lemma_xor_bits_outside(xor_bits_of(s, target.x@, x, 5), target.y@, y, 5, q);
}

/// XORing bits into targets acts on each qubit by its old value alone.
proof fn lemma_xor_bits_pointwise(
    s1: spec_fn(u64) -> bool,
    s2: spec_fn(u64) -> bool,
    targets: Seq<QubitId>,
    v: nat,
    n: nat,
    q: u64,
)
    requires
        s1(q) == s2(q),
    ensures
        xor_bits_of(s1, targets, v, n)(q) == xor_bits_of(s2, targets, v, n)(q),
    decreases n,
{
    if n > 0 {
        lemma_xor_bits_pointwise(s1, s2, targets, v, (n - 1) as nat, q);
    }
}

/// XORing a point into a register acts on each qubit by its old value
/// alone.
pub proof fn lemma_xor_point_pointwise(
    s1: spec_fn(u64) -> bool,
    s2: spec_fn(u64) -> bool,
    target: PointRegister,
    x: nat,
    y: nat,
    inf: bool,
    q: u64,
)
    requires
        s1(q) == s2(q),
    ensures
        xor_point_bits(s1, target, x, y, inf)(q) == xor_point_bits(s2, target, x, y, inf)(q),
{
    lemma_xor_bits_pointwise(s1, s2, target.x@, x, 5, q);
    lemma_xor_bits_pointwise(xor_bits_of(s1, target.x@, x, 5), xor_bits_of(s2, target.x@, x, 5), target.y@, y, 5, q);
}

/// Signals that spell the bits of `w` read as `w` modulo `2^n`.
pub proof fn lemma_value_of_bits(sigs: Seq<Signal>, s: spec_fn(u64) -> bool, w: nat, n: nat)
    requires
        forall|i: int| 0 <= i < n ==> eval(#[trigger] bit_at_spec(sigs, i), s) == nat_bit(w, i as nat),
    ensures
        value_of(sigs, n, s) == w % pow2(n),
    decreases n,
{
    lemma_pow2_pos(n);
    if n == 0 {
        vstd::arithmetic::power2::lemma2_to64();
    } else {
        let k = (n - 1) as nat;
        lemma_value_of_bits(sigs, s, w, k);
        lemma_pow2_pos(k);
        lemma_pow2_unfold(n);
        vstd::arithmetic::div_mod::lemma_mod_breakdown(w as int, pow2(k) as int, 2);
        assert(pow2(n) == pow2(k) * 2) by (nonlinear_arith)
            requires
                pow2(n) == 2 * pow2(k),
        ;
        assert(eval(bit_at_spec(sigs, k as int), s) == nat_bit(w, k));
        let hb = (w / pow2(k)) % 2;
        if nat_bit(w, k) {
            assert(hb == 1);
            assert(pow2(k) * hb == pow2(k)) by (nonlinear_arith)
                requires
                    hb == 1,
            ;
        } else {
            assert(hb == 0);
            assert(pow2(k) * hb == 0) by (nonlinear_arith)
                requires
                    hb == 0,
            ;
        }
        assert((w as int) % ((pow2(k) * 2) as int) == (pow2(k) as int) * (((w as int) / (pow2(k) as int)) % 2) + (w as int) % (pow2(k) as int));
    }
}

/// XORing five signals into five targets XORs their value.
pub proof fn lemma_copy_bits_value(s: spec_fn(u64) -> bool, targets: Seq<QubitId>, sigs: Seq<Signal>)
    requires
        sigs.len() == 5,
    ensures
        super::builder::xor_each(s, targets, sigs, 5) == xor_bits_of(s, targets, value_of(sigs, 5, s), 5),
        value_of(sigs, 5, s) < 32,
{
    assert forall|i: int| 0 <= i < 5 implies eval(#[trigger] sigs[i], s) == nat_bit(
        value_of(sigs, 5, s),
        i as nat,
    ) by {
        super::field_circuits::lemma_bits_of_value5(sigs, s, i);
    }
    super::field_circuits::lemma_bits_of_value5(sigs, s, 0);
    super::field_circuits::lemma_xor_each_bits(s, targets, sigs, value_of(sigs, 5, s), 5);
}

/// The value of five signals depends only on the qubits they read.
pub proof fn lemma_value_frame(sigs: Seq<Signal>, s1: spec_fn(u64) -> bool, s2: spec_fn(u64) -> bool)
    requires
        sigs.len() == 5,
        forall|q: u64| super::signal::supports(sigs).contains(q) ==> s1(q) == s2(q),
    ensures
        value_of(sigs, 5, s1) == value_of(sigs, 5, s2),
{
    let w = value_of(sigs, 5, s2);
    super::signal::lemma_supports(sigs);
    assert forall|i: int| 0 <= i < 5 implies eval(#[trigger] bit_at_spec(sigs, i), s1) == nat_bit(w, i as nat) by {
        assert(super::signal::support(sigs[i]).subset_of(super::signal::supports(sigs)));
        super::signal::lemma_eval_frame(sigs[i], s1, s2);
        super::field_circuits::lemma_bits_of_value5(sigs, s2, i);
    }
    lemma_value_of_bits(sigs, s1, w, 5);
    super::field_circuits::lemma_bits_of_value5(sigs, s2, 0);
    vstd::arithmetic::power2::lemma2_to64();
}

/// The bit an addition's selection reads: the right operand's where the
/// left is at infinity, the left's where the right is, `inverse` for a
/// point plus its negation, else the computed bit.
pub open spec fn selected(
    s: spec_fn(u64) -> bool,
    left: PointRegister,
    right: PointRegister,
    big: Seq<QubitId>,
    from_right: bool,
    from_left: bool,
    inverse: bool,
    computed: bool,
) -> bool {
    if s(left.inf.0) {
        from_right
    } else if s(right.inf.0) {
        from_left
    } else if s(inverse_qubit(big)) {
        inverse
    } else {
        computed
    }
}

/// A point value that selects the sum of an addition: its bits read the
/// operands', the point at infinity's, or the computed x (block 12) and y
/// (block 15), by the cases of the group law.
pub open spec fn selects_sum(v: PointValue, left: PointRegister, right: PointRegister, big: Seq<QubitId>) -> bool {
    &&& v.x@.len() == 5
    &&& v.y@.len() == 5
    &&& forall|i: int, s: spec_fn(u64) -> bool|
        0 <= i < 5 ==> #[trigger] eval(v.x@[i], s) == selected(
            s,
            left,
            right,
            big,
            s(right.x@[i].0),
            s(left.x@[i].0),
            false,
            s(block(big, 12)[i].0),
        )
    &&& forall|i: int, s: spec_fn(u64) -> bool|
        0 <= i < 5 ==> #[trigger] eval(v.y@[i], s) == selected(
            s,
            left,
            right,
            big,
            s(right.y@[i].0),
            s(left.y@[i].0),
            false,
            s(block(big, 15)[i].0),
        )
    &&& forall|s: spec_fn(u64) -> bool| #[trigger] eval(v.inf, s) == selected(
        s,
        left,
        right,
        big,
        s(right.inf.0),
        s(left.inf.0),
        true,
        false,
    )
}

/// No bit of zero is set.
pub proof fn lemma_zero_bits()
    ensures
        forall|i: nat| !#[trigger] nat_bit(0, i),
{
    assert forall|i: nat| !#[trigger] nat_bit(0, i) by {
        lemma_pow2_pos(i);
    }
}

/// Bit `i` of the selected x, in the state after the compute phase.
proof fn lemma_selected_x_bit(
    v: PointValue,
    left: PointRegister,
    right: PointRegister,
    big: Seq<QubitId>,
    s: spec_fn(u64) -> bool,
    i: int,
)
    requires
        add_layout(left, right, big),
        zero_on(s, qubit_set(big)),
        selects_sum(v, left, right, big),
        0 <= i < 5,
    ensures
        eval(bit_at_spec(v.x@, i), add_state(left, right, big, s, 19)) == nat_bit(
            point_add_circuit(reg_point(s, left), reg_point(s, right)).x as nat,
            i as nat,
        ),
{
    let t = add_state(left, right, big, s, 19);
    let l = reg_point(s, left);
    let r = reg_point(s, right);
    let vals = add_values(l, r);
    lemma_state_reads(left, right, big, s, 19);
    lemma_values_facts(l, r);
    lemma_regs_blocks(big);
    lemma_zero_bits();
    assert(add_regs(big)[13] == block(big, 12));
    lemma_qubits_value_bit(left.x@, t, i);
    lemma_qubits_value_bit(right.x@, t, i);
    assert(t(add_regs(big)[13][i].0) == nat_bit(vals[13], i as nat));
    assert(eval(v.x@[i], t) == selected(t, left, right, big, t(right.x@[i].0), t(left.x@[i].0), false, t(block(big, 12)[i].0)));
}

/// Bit `i` of the selected y, in the state after the compute phase.
proof fn lemma_selected_y_bit(
    v: PointValue,
    left: PointRegister,
    right: PointRegister,
    big: Seq<QubitId>,
    s: spec_fn(u64) -> bool,
    i: int,
)
    requires
        add_layout(left, right, big),
        zero_on(s, qubit_set(big)),
        selects_sum(v, left, right, big),
        0 <= i < 5,
    ensures
        eval(bit_at_spec(v.y@, i), add_state(left, right, big, s, 19)) == nat_bit(
            point_add_circuit(reg_point(s, left), reg_point(s, right)).y as nat,
            i as nat,
        ),
{
    let t = add_state(left, right, big, s, 19);
    let l = reg_point(s, left);
    let r = reg_point(s, right);
    let vals = add_values(l, r);
    lemma_state_reads(left, right, big, s, 19);
    lemma_values_facts(l, r);
    lemma_regs_blocks(big);
    lemma_zero_bits();
    assert(add_regs(big)[16] == block(big, 15));
    lemma_qubits_value_bit(left.y@, t, i);
    lemma_qubits_value_bit(right.y@, t, i);
    assert(t(add_regs(big)[16][i].0) == nat_bit(vals[16], i as nat));
    assert(eval(v.y@[i], t) == selected(t, left, right, big, t(right.y@[i].0), t(left.y@[i].0), false, t(block(big, 15)[i].0)));
}

/// The selected flag, in the state after the compute phase, and the sum's
/// coordinates are five-bit values.
proof fn lemma_selected_flag(
    v: PointValue,
    left: PointRegister,
    right: PointRegister,
    big: Seq<QubitId>,
    s: spec_fn(u64) -> bool,
)
    requires
        add_layout(left, right, big),
        zero_on(s, qubit_set(big)),
        selects_sum(v, left, right, big),
    ensures
        eval(v.inf, add_state(left, right, big, s, 19)) == point_add_circuit(reg_point(s, left), reg_point(s, right)).infinity,
        point_add_circuit(reg_point(s, left), reg_point(s, right)).x < 32,
        point_add_circuit(reg_point(s, left), reg_point(s, right)).y < 32,
{
    let t = add_state(left, right, big, s, 19);
    let l = reg_point(s, left);
    let r = reg_point(s, right);
    lemma_state_reads(left, right, big, s, 19);
    lemma_values_facts(l, r);
    assert(eval(v.inf, t) == selected(t, left, right, big, t(right.inf.0), t(left.inf.0), true, false));
}

/// The selected point reads, in the state after the compute phase, as the
/// sum the circuit selects.
proof fn lemma_selected_value(
    v: PointValue,
    left: PointRegister,
    right: PointRegister,
    big: Seq<QubitId>,
    s: spec_fn(u64) -> bool,
)
    requires
        add_layout(left, right, big),
        zero_on(s, qubit_set(big)),
        selects_sum(v, left, right, big),
    ensures
        ({
            let t = add_state(left, right, big, s, 19);
            let p = point_add_circuit(reg_point(s, left), reg_point(s, right));
            &&& value_of(v.x@, 5, t) == p.x as nat
            &&& value_of(v.y@, 5, t) == p.y as nat
            &&& eval(v.inf, t) == p.infinity
        }),
{
    let t = add_state(left, right, big, s, 19);
    let p = point_add_circuit(reg_point(s, left), reg_point(s, right));
    lemma_selected_flag(v, left, right, big, s);
    assert forall|i: int| 0 <= i < 5 implies eval(#[trigger] bit_at_spec(v.x@, i), t) == nat_bit(p.x as nat, i as nat) by {
        lemma_selected_x_bit(v, left, right, big, s, i);
    }
    assert forall|i: int| 0 <= i < 5 implies eval(#[trigger] bit_at_spec(v.y@, i), t) == nat_bit(p.y as nat, i as nat) by {
        lemma_selected_y_bit(v, left, right, big, s, i);
    }
    lemma_value_of_bits(v.x@, t, p.x as nat, 5);
    lemma_value_of_bits(v.y@, t, p.y as nat, 5);
    vstd::arithmetic::power2::lemma2_to64();
}

/// An addition's compute phase, a copy of the selected sum into `out`, and
/// the compute phase undone XOR the sum the circuit selects into `out` and
/// leave every other qubit as it was.
pub proof fn lemma_add_xor_run(
    tape: Seq<Op>,
    copy: Seq<Op>,
    pool: Set<u64>,
    left: PointRegister,
    right: PointRegister,
    out: PointRegister,
    big: Seq<QubitId>,
    v: PointValue,
)
    requires
        add_layout(left, right, big),
        out.x@.len() == 5,
        out.y@.len() == 5,
        point_qubits(out).disjoint(point_qubits(left) + point_qubits(right) + qubit_set(big) + pool),
        pool.disjoint(qubit_set(big)),
        add_traced(tape, pool + qubit_set(big), left, right, big, 19),
        all_reversible(tape),
        forall|i: int| 0 <= i < tape.len() ==> #[trigger] op_qubits(tape[i]).disjoint(point_qubits(out)),
        effect(
            copy,
            pool,
            |s: spec_fn(u64) -> bool|
                xor_point_bits(s, out, value_of(v.x@, 5, s), value_of(v.y@, 5, s), eval(v.inf, s)),
        ),
        selects_sum(v, left, right, big),
    ensures
        effect(
            tape + copy + tape.reverse(),
            pool + qubit_set(big),
            |s: spec_fn(u64) -> bool| xor_point(s, out, point_add_circuit(reg_point(s, left), reg_point(s, right))),
        ),
{
    let rev = tape.reverse();
    assert(all_reversible(rev)) by {
        assert forall|i: int| 0 <= i < rev.len() implies is_reversible_op(#[trigger] rev[i]) by {
            assert(rev[i] == tape[tape.len() - 1 - i]);
        }
    }
    assert forall|i: int| 0 <= i < rev.len() implies #[trigger] op_qubits(rev[i]).disjoint(point_qubits(out)) by {
        assert(rev[i] == tape[tape.len() - 1 - i]);
    }
    assert forall|s: spec_fn(u64) -> bool| zero_on(s, pool + qubit_set(big)) implies #[trigger] run(
        tape + copy + rev,
        s,
    ) == xor_point(s, out, point_add_circuit(reg_point(s, left), reg_point(s, right))) by {
        let p = point_add_circuit(reg_point(s, left), reg_point(s, right));
        let t = run(tape, s);
        assert(t == add_state(left, right, big, s, 19));
        assert(zero_on(s, qubit_set(big))) by {
            assert forall|q: u64| qubit_set(big).contains(q) implies !s(q) by {
                assert((pool + qubit_set(big)).contains(q));
            }
        }
        lemma_state_reads(left, right, big, s, 19);
        assert(zero_on(t, pool)) by {
            assert forall|q: u64| pool.contains(q) implies !t(q) by {
                assert((pool + qubit_set(big)).contains(q));
            }
        }
        lemma_selected_value(v, left, right, big, s);
        let s2 = run(copy, t);
        assert(s2 == xor_point_bits(t, out, p.x as nat, p.y as nat, p.infinity));
        assert(agree_outside(s2, t, point_qubits(out))) by {
            assert forall|q: u64| !point_qubits(out).contains(q) implies s2(q) == t(q) by {
                lemma_xor_point_outside(t, out, p.x as nat, p.y as nat, p.infinity, q);
            }
        }
        lemma_run_frame(rev, s2, t, point_qubits(out));
        lemma_run_reverse(tape, s);
        lemma_run_append(tape, copy, s);
        lemma_run_append(tape + copy, rev, s);
        let f = run(tape + copy + rev, s);
        assert(f == run(rev, s2));
        assert forall|q: u64| #[trigger] f(q) == xor_point(s, out, p)(q) by {
            if point_qubits(out).contains(q) {
                assert(!qubit_set(big).contains(q));
                assert(t(q) == s(q));
                lemma_xor_point_pointwise(t, s, out, p.x as nat, p.y as nat, p.infinity, q);
            } else {
                lemma_xor_point_outside(s, out, p.x as nat, p.y as nat, p.infinity, q);
            }
        }
        assert(f =~= xor_point(s, out, p));
    }
}

/// `t` with qubits `x` and `y` exchanged.
pub open spec fn swap_pair(t: spec_fn(u64) -> bool, x: u64, y: u64) -> spec_fn(u64) -> bool {
    |q: u64|
        if q == x {
            t(y)
        } else if q == y {
            t(x)
        } else {
            t(q)
        }
}

/// `s` with `a[i]` and `b[i]` exchanged, for each `i < n` in turn.
pub open spec fn swap_pairs(s: spec_fn(u64) -> bool, a: Seq<QubitId>, b: Seq<QubitId>, n: nat) -> spec_fn(u64) -> bool
    decreases n,
{
    if n == 0 {
        s
    } else {
        swap_pair(swap_pairs(s, a, b, (n - 1) as nat), a[n - 1].0, b[n - 1].0)
    }
}

/// Emitting the swap of `a[n]` and `b[n]`, or nothing where they are one
/// qubit, exchanges one more pair.
pub proof fn lemma_swap_step(pre: Seq<Op>, ops: Seq<Op>, a: Seq<QubitId>, b: Seq<QubitId>, n: nat)
    requires
        forall|s: spec_fn(u64) -> bool| #[trigger] run(pre, s) == swap_pairs(s, a, b, n),
        a[n as int] == b[n as int] ==> ops == pre,
        a[n as int] != b[n as int] ==> ops.len() == pre.len() + 1 && ops.drop_last() == pre && ops.last().kind
            == crate::circuit::OperationType::Swap && ops.last().q_control1 == a[n as int] && ops.last().q_target
            == b[n as int],
    ensures
        forall|s: spec_fn(u64) -> bool| #[trigger] run(ops, s) == swap_pairs(s, a, b, n + 1),
{
    assert forall|s: spec_fn(u64) -> bool| #[trigger] run(ops, s) == swap_pairs(s, a, b, n + 1) by {
        let t = swap_pairs(s, a, b, n);
        if a[n as int] == b[n as int] {
            assert(swap_pair(t, a[n as int].0, b[n as int].0) =~= t);
        } else {
            assert(run(ops, s) == super::semantics::apply_gate(run(pre, s), ops.last()));
            assert(super::semantics::apply_gate(t, ops.last()) =~= swap_pair(t, a[n as int].0, b[n as int].0));
        }
    }
}

/// Exchanging pairs of distinct qubits, no qubit in two pairs: each of the
/// first `n` pairs holds the other's old value, every other qubit its own.
pub proof fn lemma_swap_pairs_read(s: spec_fn(u64) -> bool, a: Seq<QubitId>, b: Seq<QubitId>, n: nat, q: u64)
    requires
        n <= a.len(),
        n <= b.len(),
        distinct_qubits(a),
        distinct_qubits(b),
        qubit_set(a).disjoint(qubit_set(b)),
    ensures
        forall|i: int| 0 <= i < n && a[i].0 == q ==> swap_pairs(s, a, b, n)(q) == s(b[i].0),
        forall|i: int| 0 <= i < n && b[i].0 == q ==> swap_pairs(s, a, b, n)(q) == s(a[i].0),
        (forall|i: int| 0 <= i < n ==> a[i].0 != q && b[i].0 != q) ==> swap_pairs(s, a, b, n)(q) == s(q),
    decreases n,
{
    if n > 0 {
        let m = (n - 1) as nat;
        lemma_swap_pairs_read(s, a, b, m, q);
        lemma_swap_pairs_read(s, a, b, m, a[m as int].0);
        lemma_swap_pairs_read(s, a, b, m, b[m as int].0);
        assert(qubit_set(a).contains(a[m as int].0));
        assert(qubit_set(b).contains(b[m as int].0));
        assert forall|i: int| 0 <= i < m implies a[i].0 != a[m as int].0 && b[i].0 != a[m as int].0 && a[i].0
            != b[m as int].0 && b[i].0 != b[m as int].0 by {
            assert(a[i] != a[m as int]);
            assert(b[i] != b[m as int]);
            assert(qubit_set(a).contains(a[i].0));
            assert(qubit_set(b).contains(b[i].0));
        }
        assert forall|i: int| 0 <= i < n && a[i].0 == q implies swap_pairs(s, a, b, n)(q) == s(b[i].0) by {
            if i < m {
                assert(a[i] != a[m as int]);
                assert(qubit_set(a).contains(a[i].0));
            }
        }
        assert forall|i: int| 0 <= i < n && b[i].0 == q implies swap_pairs(s, a, b, n)(q) == s(a[i].0) by {
            if i < m {
                assert(b[i] != b[m as int]);
                assert(qubit_set(b).contains(b[i].0));
            }
        }
    }
}

} // verus!
