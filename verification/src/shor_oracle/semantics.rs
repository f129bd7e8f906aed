//! The reversible meaning of a gate stream on one shot: each qubit holds a
//! boolean, X flips its target, CX and CCX flip their target by the value or
//! conjunction of their controls, and Swap exchanges two qubits.
use crate::circuit::{op_valid, present, Op, OperationType};
use vstd::prelude::*;

verus! {

/// The assignment `s` with qubit `q` flipped when `b` holds.
pub open spec fn flip(s: spec_fn(u64) -> bool, q: u64, b: bool) -> spec_fn(u64) -> bool {
    |x: u64|
        if x == q {
            s(x) != b
        } else {
            s(x)
        }
}

/// The effect of one operation on the qubit values. Operations that act only
/// on the phase or on classical bits, and register declarations, leave the
/// qubit values as they are.
pub open spec fn apply_gate(s: spec_fn(u64) -> bool, op: Op) -> spec_fn(u64) -> bool {
    let t = op.q_target.0;
    let c1 = op.q_control1.0;
    let c2 = op.q_control2.0;
    match op.kind {
        OperationType::X => flip(s, t, true),
        OperationType::CX => flip(s, t, s(c1)),
        OperationType::CCX => flip(s, t, s(c1) && s(c2)),
        OperationType::Swap => |x: u64|
            if x == c1 {
                s(t)
            } else if x == t {
                s(c1)
            } else {
                s(x)
            },
        _ => s,
    }
}

/// The qubit values after running `ops` from `s`.
pub open spec fn run(ops: Seq<Op>, s: spec_fn(u64) -> bool) -> spec_fn(u64) -> bool
    decreases ops.len(),
{
    if ops.len() == 0 {
        s
    } else {
        apply_gate(run(ops.drop_last(), s), ops.last())
    }
}

/// The operations a circuit builder emits: well-formed X, CX, CCX and Swap
/// gates, and register declarations.
pub open spec fn is_reversible_op(op: Op) -> bool {
    op_valid(op) && match op.kind {
        OperationType::X | OperationType::CX | OperationType::CCX | OperationType::Swap
        | OperationType::AppendToRegister | OperationType::Register => true,
        _ => false,
    }
}

pub open spec fn all_reversible(ops: Seq<Op>) -> bool {
    forall|i: int| 0 <= i < ops.len() ==> is_reversible_op(#[trigger] ops[i])
}

/// The present qubit operands of an operation.
pub open spec fn op_qubits(op: Op) -> Set<u64> {
    let a = if present(op.q_control2.0) {
        set![op.q_control2.0]
    } else {
        Set::empty()
    };
    let b = if present(op.q_control1.0) {
        set![op.q_control1.0]
    } else {
        Set::empty()
    };
    let c = if present(op.q_target.0) {
        set![op.q_target.0]
    } else {
        Set::empty()
    };
    a + b + c
}

/// Every qubit operand of every operation is in `allowed`.
pub open spec fn ops_within(ops: Seq<Op>, allowed: Set<u64>) -> bool {
    forall|i: int| 0 <= i < ops.len() ==> #[trigger] op_qubits(ops[i]).subset_of(allowed)
}

/// Two assignments agree outside `z`.
pub open spec fn agree_outside(s1: spec_fn(u64) -> bool, s2: spec_fn(u64) -> bool, z: Set<u64>) -> bool {
    forall|q: u64| !z.contains(q) ==> s1(q) == s2(q)
}

/// Every qubit of `z` is false in `s`.
pub open spec fn zero_on(s: spec_fn(u64) -> bool, z: Set<u64>) -> bool {
    forall|q: u64| z.contains(q) ==> !s(q)
}

/// Running two streams in turn runs their concatenation.
pub proof fn lemma_run_append(a: Seq<Op>, b: Seq<Op>, s: spec_fn(u64) -> bool)
    ensures
        run(a + b, s) == run(b, run(a, s)),
    decreases b.len(),
{
    if b.len() == 0 {
        assert(a + b =~= a);
    } else {
        lemma_run_append(a, b.drop_last(), s);
        assert((a + b).drop_last() =~= a + b.drop_last());
        assert((a + b).last() == b.last());
    }
}

/// Each reversible gate undoes itself.
pub proof fn lemma_gate_involution(op: Op, s: spec_fn(u64) -> bool)
    requires
        is_reversible_op(op),
    ensures
        apply_gate(apply_gate(s, op), op) == s,
{
    assert(apply_gate(apply_gate(s, op), op) =~= s);
}

/// Running the reverse of a reversible stream undoes it.
pub proof fn lemma_run_reverse(ops: Seq<Op>, s: spec_fn(u64) -> bool)
    requires
        all_reversible(ops),
    ensures
        run(ops.reverse(), run(ops, s)) == s,
    decreases ops.len(),
{
    if ops.len() > 0 {
        let prev = ops.drop_last();
        let last = ops.last();
        assert(ops.reverse() =~= seq![last] + prev.reverse());
        lemma_run_append(seq![last], prev.reverse(), run(ops, s));
        assert(run(seq![last], run(ops, s)) == apply_gate(run(seq![last].drop_last(), run(ops, s)), last));
        assert(seq![last].drop_last() =~= Seq::<Op>::empty());
        lemma_gate_involution(last, run(prev, s));
        assert(all_reversible(prev)) by {
            assert forall|i: int| 0 <= i < prev.len() implies is_reversible_op(#[trigger] prev[i]) by {
                assert(prev[i] == ops[i]);
            }
        }
        lemma_run_reverse(prev, s);
    }
}

/// A gate whose qubits lie outside `z` maps assignments that agree outside
/// `z` to assignments that agree outside `z`, and leaves `z` unchanged.
pub proof fn lemma_gate_frame(op: Op, s1: spec_fn(u64) -> bool, s2: spec_fn(u64) -> bool, z: Set<u64>)
    requires
        is_reversible_op(op),
        op_qubits(op).disjoint(z),
        agree_outside(s1, s2, z),
    ensures
        agree_outside(apply_gate(s1, op), apply_gate(s2, op), z),
        forall|q: u64| z.contains(q) ==> apply_gate(s1, op)(q) == s1(q),
{
    let t = op.q_target.0;
    let c1 = op.q_control1.0;
    let c2 = op.q_control2.0;
    match op.kind {
        OperationType::CX | OperationType::Swap => {
            assert(op_qubits(op).contains(c1));
            assert(op_qubits(op).contains(t));
        },
        OperationType::CCX => {
            assert(op_qubits(op).contains(c1));
            assert(op_qubits(op).contains(c2));
            assert(op_qubits(op).contains(t));
        },
        OperationType::X => {
            assert(op_qubits(op).contains(t));
        },
        _ => {},
    }
}

/// A stream whose qubits lie outside `z` acts on assignments that agree
/// outside `z` in the same way, and leaves `z` unchanged.
pub proof fn lemma_run_frame(ops: Seq<Op>, s1: spec_fn(u64) -> bool, s2: spec_fn(u64) -> bool, z: Set<u64>)
    requires
        all_reversible(ops),
        forall|i: int| 0 <= i < ops.len() ==> #[trigger] op_qubits(ops[i]).disjoint(z),
        agree_outside(s1, s2, z),
    ensures
        agree_outside(run(ops, s1), run(ops, s2), z),
        forall|q: u64| z.contains(q) ==> run(ops, s1)(q) == s1(q),
    decreases ops.len(),
{
    if ops.len() > 0 {
        let prev = ops.drop_last();
        assert forall|i: int| 0 <= i < prev.len() implies #[trigger] op_qubits(prev[i]).disjoint(z) by {
            assert(prev[i] == ops[i]);
        }
        assert(all_reversible(prev)) by {
            assert forall|i: int| 0 <= i < prev.len() implies is_reversible_op(#[trigger] prev[i]) by {
                assert(prev[i] == ops[i]);
            }
        }
        lemma_run_frame(prev, s1, s2, z);
        assert(op_qubits(ops.last()).disjoint(z));
        lemma_gate_frame(ops.last(), run(prev, s1), run(prev, s2), z);
    }
}

} // verus!
