//! The circuit builder: qubit allocation, a scratch pool, tape recording,
//! primitive gate emission, boolean signal algebra, and the F_31 field
//! kernels, each emitted as a reversible compute, copy, uncompute circuit.
use super::semantics::{
    agree_outside, all_reversible, apply_gate, flip, is_reversible_op, lemma_run_append,
    lemma_run_frame, lemma_run_reverse, op_qubits, ops_within, run, zero_on,
};
use super::signal::{same_handles, 
    all_within, bit_at, bit_at_spec, bval, const_bits, eval, height, lemma_value_of_push,
    nat_bit, qubit_signals, support, supports, value_of, Expr, Signal, SignalKind,
};
use crate::circuit::{op_valid, BitId, Op, OperationType, QubitId, RegisterId, NO_INDEX};
use crate::ops_io::OpSink;
use std::rc::Rc;
use vstd::arithmetic::power2::pow2;
use vstd::prelude::*;

verus! {

/// Bits per field element.
pub const WIDTH: usize = 5;

/// The field modulus, `2^5 - 1`.
pub const FIELD_MODULUS: u16 = 31;

/// `b` extends `a`: it starts with all of `a`.
pub open spec fn extends(a: Seq<Op>, b: Seq<Op>) -> bool {
    a.len() <= b.len() && b.subrange(0, a.len() as int) == a
}

/// The operations `b` adds after its prefix `a`.
pub open spec fn added(a: Seq<Op>, b: Seq<Op>) -> Seq<Op> {
    b.subrange(a.len() as int, b.len() as int)
}

/// Extension composes, and what the two steps add is what the whole adds.
pub proof fn lemma_extends_trans(a: Seq<Op>, b: Seq<Op>, c: Seq<Op>)
    requires
        extends(a, b),
        extends(b, c),
    ensures
        extends(a, c),
        added(a, c) == added(a, b) + added(b, c),
{
    assert(c.subrange(0, a.len() as int) =~= b.subrange(0, a.len() as int));
    assert(added(a, c) =~= added(a, b) + added(b, c));
}

/// Running from an assignment that is zero on `pool`, `ops` gives `f(s)`.
pub open spec fn effect(
    ops: Seq<Op>,
    pool: Set<u64>,
    f: spec_fn(spec_fn(u64) -> bool) -> spec_fn(u64) -> bool,
) -> bool {
    forall|s: spec_fn(u64) -> bool| zero_on(s, pool) ==> #[trigger] run(ops, s) == f(s)
}

/// The declaration of qubit `q` as the next wire of register `r`.
pub open spec fn append_op(q: QubitId, r: u64) -> Op {
    Op {
        kind: OperationType::AppendToRegister,
        q_target: q,
        r_target: RegisterId(r),
        ..crate::circuit::empty_op()
    }
}

/// The declaration of register `r`.
pub open spec fn register_op(r: u64) -> Op {
    Op { kind: OperationType::Register, r_target: RegisterId(r), ..crate::circuit::empty_op() }
}

/// The operations that declare register `r` made of `qs` in order.
pub open spec fn register_decl_ops(qs: Seq<QubitId>, r: u64) -> Seq<Op> {
    Seq::new(qs.len(), |i: int| append_op(qs[i], r)).push(register_op(r))
}

/// A circuit builder emitting into the sink `S`.
pub struct Builder<S: OpSink> {
    sink: S,
    recording: Vec<Vec<Op>>,
    free_scratch: Vec<QubitId>,
    next_qubit: u64,
    next_register: u64,
    has_failed: bool,
    rec_starts: Ghost<Seq<int>>,
}

impl<S: OpSink> Builder<S> {
    /// The operations emitted into the sink so far.
    pub closed spec fn emitted(&self) -> Seq<Op> {
        self.sink.emitted()
    }

    /// The free qubits: those never allocated and the released scratch
    /// qubits. Every other qubit is live.
    pub closed spec fn pool(&self) -> Set<u64> {
        Set::new(|q: u64| q >= self.next_qubit || self.free_scratch@.contains(QubitId(q)))
    }

    /// Whether building failed: identifiers ran out, or an operation was not
    /// well formed and was dropped. Once it fails, the builder makes no further
    /// claim about the circuit it emits.
    pub closed spec fn failed(&self) -> bool {
        self.has_failed
    }

    /// The number of open recordings.
    pub closed spec fn recording_depth(&self) -> nat {
        self.recording@.len()
    }

    /// Where each open recording started in the emitted stream.
    pub closed spec fn recording_starts(&self) -> Seq<int> {
        self.rec_starts@
    }

    /// Where the innermost open recording started in the emitted stream.
    pub open spec fn recording_start(&self) -> int {
        self.recording_starts().last()
    }

    /// The identifier the next newly allocated qubit gets.
    pub closed spec fn next_id(&self) -> u64 {
        self.next_qubit
    }

    /// The number of registers declared so far.
    pub closed spec fn registers(&self) -> u64 {
        self.next_register
    }

    /// Whether building failed.
    pub fn has_failed(&self) -> (b: bool)
        ensures
            b == self.failed(),
    {
        self.has_failed
    }

    /// The builder's invariant.
    pub closed spec fn wf(&self) -> bool {
        &&& self.sink.sink_inv()
        &&& self.next_qubit <= NO_INDEX
        &&& !self.has_failed ==> (forall|i: int|
            0 <= i < self.free_scratch@.len() ==> (#[trigger] self.free_scratch@[i]).0
                < self.next_qubit)
        &&& !self.has_failed ==> (forall|i: int, j: int|
            0 <= i < j < self.free_scratch@.len() ==> self.free_scratch@[i]
                != self.free_scratch@[j])
        &&& self.rec_starts@.len() == self.recording@.len()
        &&& forall|i: int|
            0 <= i < self.recording@.len() ==> 0 <= #[trigger] self.rec_starts@[i]
                <= self.sink.emitted().len() && self.recording@[i]@ == self.sink.emitted().subrange(
                self.rec_starts@[i],
                self.sink.emitted().len() as int,
            )
    }

    /// Whether `q` is live: allocated and not free.
    pub open spec fn live(&self, q: u64) -> bool {
        !self.pool().contains(q)
    }

    /// The common guarantee of an emitting step: the invariant holds, the
    /// stream only grows, exhaustion persists, the recordings are kept, and
    /// every added operation is a reversible gate or a declaration.
    pub open spec fn step(&self, new: &Self) -> bool {
        &&& new.wf()
        &&& extends(self.emitted(), new.emitted())
        &&& all_reversible(added(self.emitted(), new.emitted()))
        &&& self.failed() ==> new.failed()
        &&& new.recording_depth() == self.recording_depth()
        &&& self.recording_depth() > 0 ==> new.recording_start() == self.recording_start()
        &&& new.recording_starts() == self.recording_starts()
        &&& new.next_id() >= self.next_id()
        &&& new.registers() >= self.registers()
    }

    /// A step that frees and takes no qubits and touches only `allowed` and
    /// free qubits.
    pub open spec fn pure_step(&self, new: &Self, allowed: Set<u64>) -> bool {
        &&& self.step(new)
        &&& !new.failed() ==> new.pool() == self.pool() && ops_within(
            added(self.emitted(), new.emitted()),
            allowed + self.pool(),
        )
    }

    pub(crate) proof fn lemma_step_refl(&self)
        requires
            self.wf(),
        ensures
            self.step(self),
            self.pure_step(self, Set::empty()),
    {
        assert(self.emitted().subrange(0, self.emitted().len() as int) =~= self.emitted());
        assert(added(self.emitted(), self.emitted()) =~= Seq::<Op>::empty());
    }

    /// Steps compose.
    pub proof fn lemma_step_trans(a: &Self, b: &Self, c: &Self)
        requires
            a.step(b),
            b.step(c),
        ensures
            a.step(c),
            added(a.emitted(), c.emitted()) == added(a.emitted(), b.emitted()) + added(
                b.emitted(),
                c.emitted(),
            ),
    {
        lemma_extends_trans(a.emitted(), b.emitted(), c.emitted());
        let x = added(a.emitted(), b.emitted());
        let y = added(b.emitted(), c.emitted());
        assert forall|i: int| 0 <= i < (x + y).len() implies is_reversible_op(#[trigger] (x + y)[i]) by {
            if i < x.len() {
                assert((x + y)[i] == x[i]);
            } else {
                assert((x + y)[i] == y[i - x.len()]);
            }
        }
    }

    /// A pure step stays pure for a larger set of allowed qubits.
    pub proof fn lemma_pure_step_widen(a: &Self, b: &Self, x: Set<u64>, y: Set<u64>)
        requires
            a.pure_step(b, x),
            x.subset_of(y),
        ensures
            a.pure_step(b, y),
    {
        if !b.failed() {
            lemma_ops_within_mono(added(a.emitted(), b.emitted()), x + a.pool(), y + a.pool());
        }
    }

    /// Pure steps compose.
    pub proof fn lemma_pure_step_trans(a: &Self, b: &Self, c: &Self, allowed: Set<u64>)
        requires
            a.pure_step(b, allowed),
            b.pure_step(c, allowed),
        ensures
            a.pure_step(c, allowed),
    {
        Self::lemma_step_trans(a, b, c);
        if !c.failed() {
            let x = added(a.emitted(), b.emitted());
            let y = added(b.emitted(), c.emitted());
            assert forall|i: int| 0 <= i < (x + y).len() implies #[trigger] op_qubits(
                (x + y)[i],
            ).subset_of(allowed + a.pool()) by {
                if i < x.len() {
                    assert((x + y)[i] == x[i]);
                } else {
                    assert((x + y)[i] == y[i - x.len()]);
                }
            }
        }
    }

    /// A builder emitting into `sink`, with every qubit free and no recording
    /// open.
    pub fn with_sink(sink: S) -> (b: Self)
        requires
            sink.sink_inv(),
        ensures
            b.wf(),
            b.emitted() == sink.emitted(),
            !b.failed(),
            b.recording_depth() == 0,
            b.next_id() == 0,
            b.registers() == 0,
            forall|q: u64| #[trigger] b.pool().contains(q),
    {
        Builder {
            sink,
            recording: Vec::new(),
            free_scratch: Vec::new(),
            next_qubit: 0,
            next_register: 0,
            has_failed: false,
            rec_starts: Ghost(Seq::empty()),
        }
    }

    /// Takes a never-used qubit out of the pool.
    pub fn alloc_qubit(&mut self) -> (q: QubitId)
        requires
            old(self).wf(),
        ensures
            old(self).step(final(self)),
            final(self).emitted() == old(self).emitted(),
            !final(self).failed() ==> old(self).pool().contains(q.0) && final(self).pool()
                == old(self).pool().remove(q.0) && q.0 != NO_INDEX,
            old(self).next_id() < NO_INDEX ==> q.0 == old(self).next_id() && final(self).next_id()
                == old(self).next_id() + 1 && final(self).failed() == old(self).failed(),
            final(self).registers() == old(self).registers(),
    {
        proof {
            self.lemma_step_refl();
        }
        if self.next_qubit < NO_INDEX {
            let qubit = QubitId(self.next_qubit);
            self.next_qubit = self.next_qubit + 1;
            proof {
                if !self.has_failed {
                    let fs = old(self).free_scratch@;
                    assert forall|x: u64| fs.contains(QubitId(x)) implies x < old(self).next_qubit by {
                        let j = choose|j: int| 0 <= j < fs.len() && fs[j] == QubitId(x);
                        assert(fs[j].0 < old(self).next_qubit);
                    }
                    assert(final(self).pool() =~= old(self).pool().remove(qubit.0));
                }
            }
            qubit
        } else {
            self.has_failed = true;
            QubitId(0)
        }
    }

    /// Takes `n` never-used qubits out of the pool.
    pub fn alloc_qubits(&mut self, n: usize) -> (qubits: Vec<QubitId>)
        requires
            old(self).wf(),
        ensures
            old(self).step(final(self)),
            final(self).emitted() == old(self).emitted(),
            qubits@.len() == n,
            !final(self).failed() ==> distinct_qubits(qubits@) && (forall|i: int|
                0 <= i < n ==> old(self).pool().contains(#[trigger] qubits@[i].0))
                && final(self).pool() == old(self).pool() - qubit_set(qubits@),
            old(self).next_id() + n < NO_INDEX ==> final(self).failed() == old(self).failed()
                && final(self).next_id() == old(self).next_id() + n && (forall|i: int|
                0 <= i < n ==> (#[trigger] qubits@[i]).0 == old(self).next_id() + i),
            final(self).registers() == old(self).registers(),
    {
        let mut qubits: Vec<QubitId> = Vec::new();
        let mut i: usize = 0;
        proof {
            self.lemma_step_refl();
            assert(qubit_set(qubits@) =~= Set::empty());
            assert(self.pool() =~= self.pool() - Set::empty());
        }
        while i < n
            invariant
                0 <= i <= n,
                qubits@.len() == i,
                old(self).step(self),
                self.emitted() == old(self).emitted(),
                !self.failed() ==> distinct_qubits(qubits@) && (forall|j: int|
                    0 <= j < i ==> old(self).pool().contains(#[trigger] qubits@[j].0))
                    && self.pool() == old(self).pool() - qubit_set(qubits@),
                old(self).next_id() + n < NO_INDEX ==> self.failed() == old(self).failed()
                    && self.next_id() == old(self).next_id() + i && (forall|j: int|
                    0 <= j < i ==> (#[trigger] qubits@[j]).0 == old(self).next_id() + j),
                self.registers() == old(self).registers(),
            decreases n - i,
        {
            let ghost mid = *self;
            let q = self.alloc_qubit();
            proof {
                Self::lemma_step_trans(old(self), &mid, self);
            }
            let ghost prev = qubits@;
            qubits.push(q);
            proof {
                if !self.failed() {
                    assert(qubits@ =~= prev.push(q));
                    lemma_qubit_set_push(prev, q);
                    assert(self.pool() =~= old(self).pool() - qubit_set(qubits@));
                    assert forall|a: int, b: int|
                        0 <= a < b < qubits@.len() implies qubits@[a] != qubits@[b] by {
                        if b == qubits@.len() - 1 {
                            assert(!mid.pool().remove(q.0).contains(prev[a].0) || true);
                            assert(qubit_set(prev).contains(prev[a].0));
                        }
                    }
                }
            }
            i = i + 1;
        }
        qubits
    }

    /// Appends an operation to the sink and to every open recording. An
    /// operation that is not a well-formed gate or declaration is dropped and
    /// marks the builder failed.
    fn push_op(&mut self, op: Op)
        requires
            old(self).wf(),
        ensures
            old(self).step(final(self)),
            final(self).pool() == old(self).pool(),
            final(self).next_id() == old(self).next_id(),
            final(self).registers() == old(self).registers(),
            is_reversible_op(op) ==> final(self).emitted() == old(self).emitted().push(op)
                && final(self).failed() == old(self).failed(),
            !is_reversible_op(op) ==> final(self).emitted() == old(self).emitted()
                && final(self).failed(),
    {
        if !is_reversible(&op) {
            self.has_failed = true;
            proof {
                old(self).lemma_step_refl();
                assert(self.pool() =~= old(self).pool());
            }
            return;
        }
        let ghost before = self.sink.emitted();
        let mut k: usize = 0;
        while k < self.recording.len()
            invariant
                0 <= k <= self.recording@.len(),
                self.recording@.len() == old(self).recording@.len(),
                self.rec_starts == old(self).rec_starts,
                self.sink == old(self).sink,
                self.free_scratch == old(self).free_scratch,
                self.next_qubit == old(self).next_qubit,
                self.next_register == old(self).next_register,
                self.has_failed == old(self).has_failed,
                forall|i: int|
                    0 <= i < k ==> #[trigger] self.recording@[i]@ == old(self).recording@[i]@.push(
                        op,
                    ),
                forall|i: int|
                    k <= i < self.recording@.len() ==> #[trigger] self.recording@[i]@ == old(self).recording@[i]@,
            decreases self.recording@.len() - k,
        {
            self.recording[k].push(op);
            k = k + 1;
        }
        self.sink.push_op(op);
        proof {
            assert forall|i: int| 0 <= i < self.recording@.len() implies 0 <= #[trigger] self.rec_starts@[i]
                <= self.sink.emitted().len() && self.recording@[i]@ == self.sink.emitted().subrange(
                self.rec_starts@[i],
                self.sink.emitted().len() as int,
            ) by {
                assert(self.sink.emitted().subrange(
                    self.rec_starts@[i],
                    self.sink.emitted().len() as int,
                ) =~= before.subrange(self.rec_starts@[i], before.len() as int).push(op));
            }
            assert(self.pool() =~= old(self).pool());
            assert(self.sink.emitted().subrange(0, before.len() as int) =~= before);
            assert(added(before, self.sink.emitted()) =~= seq![op]);
        }
    }

    /// The X gate on `target`.
    #[verifier::allow_in_spec]
    pub fn x_gate(target: QubitId) -> Op
        returns
            (Op { kind: OperationType::X, q_target: target, ..crate::circuit::empty_op() }),
    {
        let mut op = Op::empty();
        op.kind = OperationType::X;
        op.q_target = target;
        op
    }

    /// The CX gate flipping `target` by `control`.
    #[verifier::allow_in_spec]
    pub fn cx_gate(control: QubitId, target: QubitId) -> Op
        returns
            (Op {
                kind: OperationType::CX,
                q_control1: control,
                q_target: target,
                ..crate::circuit::empty_op()
            }),
    {
        let mut op = Op::empty();
        op.kind = OperationType::CX;
        op.q_control1 = control;
        op.q_target = target;
        op
    }

    /// The CCX gate flipping `target` by the conjunction of the controls.
    #[verifier::allow_in_spec]
    pub fn ccx_gate(control1: QubitId, control2: QubitId, target: QubitId) -> Op
        returns
            (Op {
                kind: OperationType::CCX,
                q_control1: control1,
                q_control2: control2,
                q_target: target,
                ..crate::circuit::empty_op()
            }),
    {
        let mut op = Op::empty();
        op.kind = OperationType::CCX;
        op.q_control1 = control1;
        op.q_control2 = control2;
        op.q_target = target;
        op
    }

    /// The Swap gate exchanging `left` and `right`.
    #[verifier::allow_in_spec]
    pub fn swap_gate(left: QubitId, right: QubitId) -> Op
        returns
            (Op {
                kind: OperationType::Swap,
                q_control1: left,
                q_target: right,
                ..crate::circuit::empty_op()
            }),
    {
        let mut op = Op::empty();
        op.kind = OperationType::Swap;
        op.q_control1 = left;
        op.q_target = right;
        op
    }

    /// Emits X on `target`.
    fn push_x(&mut self, target: QubitId)
        requires
            old(self).wf(),
        ensures
            old(self).step(final(self)),
            final(self).pool() == old(self).pool(),
            target.0 != NO_INDEX ==> final(self).failed() == old(self).failed(),
            !final(self).failed() ==> final(self).emitted() == old(self).emitted().push(
                Self::x_gate(target),
            ),
            !final(self).failed() ==> effect(
                added(old(self).emitted(), final(self).emitted()),
                Set::empty(),
                |s: spec_fn(u64) -> bool| flip(s, target.0, true),
            ),
            ops_within(added(old(self).emitted(), final(self).emitted()), set![target.0]),
    {
        let op = Self::x_gate(target);
        self.push_op(op);
        proof {
            self.lemma_single_effect(old(self), op);
        }
    }

    /// Emits CX from `control` onto `target`, unless they are the same qubit.
    fn push_cx(&mut self, control: QubitId, target: QubitId)
        requires
            old(self).wf(),
        ensures
            old(self).step(final(self)),
            final(self).pool() == old(self).pool(),
            control == target || (target.0 != NO_INDEX && control.0 != NO_INDEX) ==> final(self).failed() == old(self).failed(),
            control != target && !final(self).failed() ==> final(self).emitted() == old(self).emitted().push(Self::cx_gate(control, target)),
            control == target ==> final(self).emitted() == old(self).emitted(),
            control != target && !final(self).failed() ==> effect(
                added(old(self).emitted(), final(self).emitted()),
                Set::empty(),
                |s: spec_fn(u64) -> bool| flip(s, target.0, s(control.0)),
            ),
            ops_within(added(old(self).emitted(), final(self).emitted()), set![control.0, target.0]),
    {
        if control.0 != target.0 {
            let op = Self::cx_gate(control, target);
            self.push_op(op);
            proof {
                self.lemma_single_effect(old(self), op);
            }
        } else {
            proof {
                self.lemma_step_refl();
                assert(added(self.emitted(), self.emitted()) =~= Seq::<Op>::empty());
            }
        }
    }

    /// Emits CCX from `control1` and `control2` onto `target`.
    fn push_ccx(&mut self, control1: QubitId, control2: QubitId, target: QubitId)
        requires
            old(self).wf(),
        ensures
            old(self).step(final(self)),
            final(self).pool() == old(self).pool(),
            (target.0 != NO_INDEX && control1.0 != NO_INDEX && control2.0 != NO_INDEX && target.0
                != control1.0 && target.0 != control2.0 && control1.0 != control2.0) ==> final(self).failed() == old(self).failed(),
            !final(self).failed() ==> final(self).emitted() == old(self).emitted().push(
                Self::ccx_gate(control1, control2, target),
            ),
            !final(self).failed() ==> effect(
                added(old(self).emitted(), final(self).emitted()),
                Set::empty(),
                |s: spec_fn(u64) -> bool| flip(s, target.0, s(control1.0) && s(control2.0)),
            ),
            ops_within(
                added(old(self).emitted(), final(self).emitted()),
                set![control1.0, control2.0, target.0],
            ),
    {
        let op = Self::ccx_gate(control1, control2, target);
        self.push_op(op);
        proof {
            self.lemma_single_effect(old(self), op);
        }
    }

    proof fn lemma_single_effect(&self, old: &Self, op: Op)
        requires
            self.emitted() == old.emitted().push(op) || self.emitted() == old.emitted(),
        ensures
            self.emitted() == old.emitted().push(op) ==> added(old.emitted(), self.emitted()) == seq![op],
            effect(seq![op], Set::empty(), |s: spec_fn(u64) -> bool| apply_gate(s, op)),
            forall|s: spec_fn(u64) -> bool| #[trigger] run(seq![op], s) == apply_gate(s, op),
            ops_within(added(old.emitted(), self.emitted()), op_qubits(op)),
    {
        if self.emitted() == old.emitted().push(op) {
            assert(added(old.emitted(), self.emitted()) =~= seq![op]);
        } else {
            assert(added(old.emitted(), self.emitted()) =~= Seq::<Op>::empty());
        }
        assert forall|s: spec_fn(u64) -> bool| #[trigger] run(seq![op], s) == apply_gate(s, op) by {
            assert(seq![op].drop_last() =~= Seq::<Op>::empty());
            assert(seq![op].last() == op);
            assert(run(Seq::<Op>::empty(), s) == s);
        }
    }

    /// Emits a Swap of `left` and `right`, unless they are the same qubit.
    pub fn swap(&mut self, left: QubitId, right: QubitId)
        requires
            old(self).wf(),
        ensures
            old(self).step(final(self)),
            final(self).pool() == old(self).pool(),
            left == right || (left.0 != NO_INDEX && right.0 != NO_INDEX) ==> final(self).failed()
                == old(self).failed(),
            left != right && !final(self).failed() ==> final(self).emitted() == old(self).emitted().push(Self::swap_gate(left, right)),
            left == right ==> final(self).emitted() == old(self).emitted(),
            ops_within(added(old(self).emitted(), final(self).emitted()), set![left.0, right.0]),
    {
        if left.0 != right.0 {
            let op = Self::swap_gate(left, right);
            self.push_op(op);
            proof {
                self.lemma_single_effect(old(self), op);
            }
        } else {
            proof {
                self.lemma_step_refl();
                assert(added(self.emitted(), self.emitted()) =~= Seq::<Op>::empty());
            }
        }
    }

    /// Emits X on `target`.
    pub fn toggle(&mut self, target: QubitId)
        requires
            old(self).wf(),
        ensures
            old(self).step(final(self)),
            final(self).pool() == old(self).pool(),
            target.0 != NO_INDEX ==> final(self).failed() == old(self).failed(),
            !final(self).failed() ==> final(self).emitted() == old(self).emitted().push(
                Self::x_gate(target),
            ),
    {
        self.push_x(target);
    }

    /// Emits CX from `control` onto `target`, unless they are the same qubit.
    pub fn xor_qubit_into(&mut self, control: QubitId, target: QubitId)
        requires
            old(self).wf(),
        ensures
            old(self).step(final(self)),
            final(self).pool() == old(self).pool(),
            control == target || (target.0 != NO_INDEX && control.0 != NO_INDEX) ==> final(self).failed() == old(self).failed(),
            control != target && !final(self).failed() ==> final(self).emitted() == old(self).emitted().push(Self::cx_gate(control, target)),
            control == target ==> final(self).emitted() == old(self).emitted(),
            ops_within(added(old(self).emitted(), final(self).emitted()), set![control.0, target.0]),
    {
        self.push_cx(control, target);
    }

    /// Takes a qubit from the pool: a released one if any, else a new one.
    fn scratch(&mut self) -> (q: QubitId)
        requires
            old(self).wf(),
        ensures
            old(self).step(final(self)),
            final(self).emitted() == old(self).emitted(),
            !final(self).failed() ==> old(self).pool().contains(q.0) && final(self).pool()
                == old(self).pool().remove(q.0) && q.0 != NO_INDEX,
    {
        match self.free_scratch.pop() {
            Some(q) => {
                proof {
                    self.lemma_step_refl();
                    if !self.has_failed {
                        let fs = old(self).free_scratch@;
                        assert(fs.last() == q);
                        assert(self.free_scratch@ =~= fs.drop_last());
                        assert forall|x: u64| #[trigger] self.pool().contains(x) == old(self).pool().remove(q.0).contains(x) by {
                            if fs.drop_last().contains(QubitId(x)) {
                                let j = choose|j: int| 0 <= j < fs.drop_last().len() && fs.drop_last()[j] == QubitId(x);
                                assert(fs[j] == QubitId(x));
                                assert(j != fs.len() - 1);
                            }
                            if x != q.0 && fs.contains(QubitId(x)) {
                                let j = choose|j: int| 0 <= j < fs.len() && fs[j] == QubitId(x);
                                assert(fs.drop_last()[j] == QubitId(x));
                            }
                        }
                        assert(self.pool() =~= old(self).pool().remove(q.0));
                    }
                }
                q
            },
            None => self.alloc_qubit(),
        }
    }

    /// Returns a scratch qubit to the pool.
    fn release_scratch(&mut self, qubit: QubitId)
        requires
            old(self).wf(),
            !old(self).failed() ==> !old(self).pool().contains(qubit.0),
        ensures
            old(self).step(final(self)),
            final(self).emitted() == old(self).emitted(),
            final(self).failed() == old(self).failed(),
            !final(self).failed() ==> final(self).pool() == old(self).pool().insert(qubit.0),
    {
        self.free_scratch.push(qubit);
        proof {
            old(self).lemma_step_refl();
            if !self.has_failed {
                let fs = old(self).free_scratch@;
                assert(self.free_scratch@ =~= fs.push(qubit));
                assert(!fs.contains(qubit));
                assert(qubit.0 < old(self).next_qubit);
                assert forall|x: u64| #[trigger] self.pool().contains(x) == old(self).pool().insert(qubit.0).contains(x) by {
                    if fs.push(qubit).contains(QubitId(x)) && x != qubit.0 {
                        let j = choose|j: int| 0 <= j < fs.push(qubit).len() && fs.push(qubit)[j] == QubitId(x);
                        assert(j < fs.len());
                        assert(fs[j] == QubitId(x));
                    }
                    if fs.contains(QubitId(x)) {
                        let j = choose|j: int| 0 <= j < fs.len() && fs[j] == QubitId(x);
                        assert(fs.push(qubit)[j] == QubitId(x));
                    }
                    if x == qubit.0 {
                        assert(fs.push(qubit)[fs.len() as int] == qubit);
                    }
                }
                assert(self.pool() =~= old(self).pool().insert(qubit.0));
            }
        }
    }

    /// Takes `n` qubits from the pool, released ones first.
    pub fn hold_qubits(&mut self, n: usize) -> (qubits: Vec<QubitId>)
        requires
            old(self).wf(),
        ensures
            old(self).step(final(self)),
            final(self).emitted() == old(self).emitted(),
            qubits@.len() == n,
            !final(self).failed() ==> distinct_qubits(qubits@) && (forall|i: int|
                0 <= i < n ==> old(self).pool().contains(#[trigger] qubits@[i].0))
                && final(self).pool() == old(self).pool() - qubit_set(qubits@) && (forall|i: int|
                0 <= i < n ==> (#[trigger] qubits@[i]).0 != NO_INDEX),
    {
        let mut qubits: Vec<QubitId> = Vec::new();
        let mut i: usize = 0;
        proof {
            self.lemma_step_refl();
            assert(qubit_set(qubits@) =~= Set::empty());
            assert(self.pool() =~= self.pool() - Set::empty());
        }
        while i < n
            invariant
                0 <= i <= n,
                qubits@.len() == i,
                old(self).step(self),
                self.emitted() == old(self).emitted(),
                !self.failed() ==> distinct_qubits(qubits@) && (forall|j: int|
                    0 <= j < i ==> old(self).pool().contains(#[trigger] qubits@[j].0))
                    && self.pool() == old(self).pool() - qubit_set(qubits@) && (forall|j: int|
                    0 <= j < i ==> (#[trigger] qubits@[j]).0 != NO_INDEX),
            decreases n - i,
        {
            let ghost mid = *self;
            let q = self.scratch();
            proof {
                Self::lemma_step_trans(old(self), &mid, self);
            }
            let ghost prev = qubits@;
            qubits.push(q);
            proof {
                if !self.failed() {
                    assert(qubits@ =~= prev.push(q));
                    lemma_qubit_set_push(prev, q);
                    assert(self.pool() =~= old(self).pool() - qubit_set(qubits@));
                    assert forall|a: int, b: int|
                        0 <= a < b < qubits@.len() implies qubits@[a] != qubits@[b] by {
                        if b == qubits@.len() - 1 {
                            assert(qubit_set(prev).contains(prev[a].0));
                        }
                    }
                }
            }
            i = i + 1;
        }
        qubits
    }

    /// Returns held qubits to the pool.
    pub fn release_hold_qubits(&mut self, qubits: Vec<QubitId>)
        requires
            old(self).wf(),
            !old(self).failed() ==> distinct_qubits(qubits@) && (forall|i: int|
                0 <= i < qubits@.len() ==> !old(self).pool().contains(#[trigger] qubits@[i].0)),
        ensures
            old(self).step(final(self)),
            final(self).emitted() == old(self).emitted(),
            final(self).failed() == old(self).failed(),
            !final(self).failed() ==> final(self).pool() == old(self).pool() + qubit_set(
                qubits@,
            ),
    {
        let mut i: usize = 0;
        proof {
            self.lemma_step_refl();
            assert(qubit_set(qubits@.take(0)) =~= Set::empty());
            assert(self.pool() =~= self.pool() + Set::empty());
        }
        while i < qubits.len()
            invariant
                0 <= i <= qubits@.len(),
                old(self).step(self),
                self.emitted() == old(self).emitted(),
                self.failed() == old(self).failed(),
                !old(self).failed() ==> distinct_qubits(qubits@) && (forall|j: int|
                    0 <= j < qubits@.len() ==> !old(self).pool().contains(#[trigger] qubits@[j].0)),
                !self.failed() ==> self.pool() == old(self).pool() + qubit_set(
                    qubits@.take(i as int),
                ),
            decreases qubits@.len() - i,
        {
            let ghost mid = *self;
            proof {
                if !self.failed() {
                    assert(!qubit_set(qubits@.take(i as int)).contains(qubits@[i as int].0)) by {
                        if qubit_set(qubits@.take(i as int)).contains(qubits@[i as int].0) {
                            let j = choose|j: int|
                                0 <= j < qubits@.take(i as int).len() && (#[trigger] qubits@.take(
                                    i as int,
                                )[j]).0 == qubits@[i as int].0;
                            assert(qubits@[j] == qubits@[i as int]);
                        }
                    }
                }
            }
            self.release_scratch(qubits[i]);
            proof {
                Self::lemma_step_trans(old(self), &mid, self);
                if !self.failed() {
                    assert(qubits@.take(i + 1) =~= qubits@.take(i as int).push(qubits@[i as int]));
                    lemma_qubit_set_push(qubits@.take(i as int), qubits@[i as int]);
                    assert(self.pool() =~= old(self).pool() + qubit_set(qubits@.take(i + 1)));
                }
            }
            i = i + 1;
        }
        proof {
            assert(qubits@.take(qubits@.len() as int) =~= qubits@);
        }
    }

    /// Opens a recording: every operation emitted until it is closed is also
    /// kept on its tape.
    pub fn begin_recording(&mut self)
        requires
            old(self).wf(),
        ensures
            final(self).wf(),
            final(self).emitted() == old(self).emitted(),
            final(self).pool() == old(self).pool(),
            final(self).failed() == old(self).failed(),
            final(self).recording_depth() == old(self).recording_depth() + 1,
            final(self).recording_start() == old(self).emitted().len(),
            final(self).recording_starts() == old(self).recording_starts().push(old(self).emitted().len() as int),
            final(self).next_id() == old(self).next_id(),
            final(self).registers() == old(self).registers(),
    {
        self.recording.push(Vec::new());
        self.rec_starts = Ghost(self.rec_starts@.push(self.sink.emitted().len() as int));
        proof {
            assert forall|i: int| 0 <= i < self.recording@.len() implies 0 <= #[trigger] self.rec_starts@[i]
                <= self.sink.emitted().len() && self.recording@[i]@ == self.sink.emitted().subrange(
                self.rec_starts@[i],
                self.sink.emitted().len() as int,
            ) by {
                if i == self.recording@.len() - 1 {
                    assert(self.sink.emitted().subrange(
                        self.sink.emitted().len() as int,
                        self.sink.emitted().len() as int,
                    ) =~= Seq::<Op>::empty());
                } else {
                    assert(self.recording@[i] == old(self).recording@[i]);
                }
            }
            assert(self.pool() =~= old(self).pool());
        }
    }

    /// Closes the innermost recording and returns its tape: the operations
    /// emitted since it was opened.
    pub fn end_recording(&mut self) -> (tape: Vec<Op>)
        requires
            old(self).wf(),
            old(self).recording_depth() > 0,
        ensures
            final(self).wf(),
            final(self).emitted() == old(self).emitted(),
            final(self).pool() == old(self).pool(),
            final(self).failed() == old(self).failed(),
            final(self).recording_depth() == old(self).recording_depth() - 1,
            final(self).recording_depth() > 0 ==> final(self).recording_start() == old(self).recording_starts()[old(self).recording_depth() - 2],
            final(self).recording_starts() == old(self).recording_starts().drop_last(),
            final(self).next_id() == old(self).next_id(),
            final(self).registers() == old(self).registers(),
            tape@ == old(self).emitted().subrange(
                old(self).recording_start(),
                old(self).emitted().len() as int,
            ),
    {
        let tape = match self.recording.pop() {
            Some(t) => t,
            None => Vec::new(),
        };
        self.rec_starts = Ghost(self.rec_starts@.drop_last());
        proof {
            assert forall|i: int| 0 <= i < self.recording@.len() implies 0 <= #[trigger] self.rec_starts@[i]
                <= self.sink.emitted().len() && self.recording@[i]@ == self.sink.emitted().subrange(
                self.rec_starts@[i],
                self.sink.emitted().len() as int,
            ) by {
                assert(self.recording@[i] == old(self).recording@[i]);
                assert(self.rec_starts@[i] == old(self).rec_starts@[i]);
            }
            assert(self.pool() =~= old(self).pool());
        }
        tape
    }

    /// Declares the next register, made of `qubits` in order: one
    /// AppendToRegister per qubit, then the Register declaration.
    pub fn declare_qubit_register(&mut self, qubits: &[QubitId])
        requires
            old(self).wf(),
        ensures
            old(self).step(final(self)),
            final(self).pool() == old(self).pool(),
            final(self).next_id() == old(self).next_id(),
            !old(self).failed() && old(self).registers() < NO_INDEX && (forall|i: int|
                0 <= i < qubits@.len() ==> (#[trigger] qubits@[i]).0 != NO_INDEX) ==> !final(self).failed()
                && final(self).emitted() == old(self).emitted() + register_decl_ops(qubits@, old(self).registers())
                && final(self).registers() == old(self).registers() + 1,
    {
        proof {
            self.lemma_step_refl();
        }
        if self.next_register == NO_INDEX {
            self.has_failed = true;
            return;
        }
        let register = RegisterId(self.next_register);
        self.next_register = self.next_register + 1;
        let ghost ok = !old(self).failed() && (forall|i: int|
            0 <= i < qubits@.len() ==> (#[trigger] qubits@[i]).0 != NO_INDEX);
        let mut i: usize = 0;
        proof {
            assert(Seq::new(0, |j: int| append_op(qubits@[j], register.0)) =~= Seq::<Op>::empty());
            assert(self.emitted() =~= old(self).emitted() + Seq::<Op>::empty());
        }
        while i < qubits.len()
            invariant
                0 <= i <= qubits@.len(),
                register.0 == old(self).registers(),
                old(self).step(self),
                self.registers() == old(self).registers() + 1,
                self.pool() == old(self).pool(),
                self.next_id() == old(self).next_id(),
                ok == (!old(self).failed() && (forall|j: int|
                    0 <= j < qubits@.len() ==> (#[trigger] qubits@[j]).0 != NO_INDEX)),
                ok ==> !self.failed() && self.emitted() == old(self).emitted() + Seq::new(
                    i as nat,
                    |j: int| append_op(qubits@[j], register.0),
                ),
            decreases qubits@.len() - i,
        {
            let mut op = Op::empty();
            op.kind = OperationType::AppendToRegister;
            op.q_target = qubits[i];
            op.r_target = register;
            let ghost mid = *self;
            proof {
                if ok {
                    assert(qubits@[i as int].0 != NO_INDEX);
                    assert(op == append_op(qubits@[i as int], register.0));
                }
            }
            self.push_op(op);
            proof {
                Self::lemma_step_trans(old(self), &mid, self);
                if ok {
                    assert(Seq::new((i + 1) as nat, |j: int| append_op(qubits@[j], register.0))
                        =~= Seq::new(i as nat, |j: int| append_op(qubits@[j], register.0)).push(op));
                    assert(self.emitted() =~= old(self).emitted() + Seq::new(
                        (i + 1) as nat,
                        |j: int| append_op(qubits@[j], register.0),
                    ));
                }
            }
            i = i + 1;
        }
        let mut op = Op::empty();
        op.kind = OperationType::Register;
        op.r_target = register;
        let ghost mid = *self;
        self.push_op(op);
        proof {
            Self::lemma_step_trans(old(self), &mid, self);
            if ok {
                assert(op == register_op(register.0));
                assert(Seq::new(qubits@.len(), |j: int| append_op(qubits@[j], register.0)).push(op)
                    =~= register_decl_ops(qubits@, register.0));
                assert(self.emitted() =~= old(self).emitted() + register_decl_ops(qubits@, register.0));
            }
        }
    }

    /// Emits the operations of `tape` in reverse order.
    pub fn append_reverse_tape(&mut self, tape: &[Op])
        requires
            old(self).wf(),
            all_reversible(tape@),
        ensures
            old(self).step(final(self)),
            final(self).emitted() == old(self).emitted() + tape@.reverse(),
            final(self).pool() == old(self).pool(),
            final(self).failed() == old(self).failed(),
    {
        let mut i: usize = tape.len();
        proof {
            self.lemma_step_refl();
            assert(tape@.reverse().take(0) =~= Seq::<Op>::empty());
            assert(self.emitted() =~= self.emitted() + Seq::<Op>::empty());
        }
        while i > 0
            invariant
                0 <= i <= tape@.len(),
                all_reversible(tape@),
                old(self).step(self),
                self.emitted() == old(self).emitted() + tape@.reverse().take(
                    tape@.len() - i,
                ),
                self.pool() == old(self).pool(),
                self.failed() == old(self).failed(),
            decreases i,
        {
            i = i - 1;
            let op = tape[i];
            assert(is_reversible_op(tape@[i as int]));
            let ghost mid = *self;
            self.push_op(op);
            proof {
                Self::lemma_step_trans(old(self), &mid, self);
                assert(tape@.reverse().take(tape@.len() - i) =~= tape@.reverse().take(
                    tape@.len() - i - 1,
                ).push(op));
            }
        }
        proof {
            assert(tape@.reverse().take(tape@.len() as int) =~= tape@.reverse());
        }
    }

    /// Ends building and hands back the sink.
    pub fn finish_sink(self) -> (sink: S)
        requires
            self.wf(),
        ensures
            sink.emitted() == self.emitted(),
            sink.sink_inv(),
    {
        self.sink
    }
}

impl<S: OpSink> Builder<S> {
    /// The negation of a signal, folding constants and double negations.
    pub fn not(&mut self, signal: Signal) -> (r: Signal)
        ensures
            *final(self) == *old(self),
            forall|s: spec_fn(u64) -> bool| #[trigger] eval(r, s) == !eval(signal, s),
            support(r).subset_of(support(signal)),
            signal.0 matches SignalKind::Const(v) ==> r == Signal(SignalKind::Const(!v)),
    {
        match signal.0 {
            SignalKind::Const(value) => Signal::constant(!value),
            SignalKind::Expr(e) => {
                match &*e {
                    Expr::Not(inner) => {
                        let r = inner.dup();
                        proof {
                            assert(support(signal) == support(r));
                        }
                        r
                    },
                    _ => {
                        let inner = Signal::expr(e);
                        Signal::expr(Rc::new(Expr::Not(inner)))
                    },
                }
            },
            SignalKind::Qubit(q) => Signal::expr(Rc::new(Expr::Not(Signal::qubit(q)))),
        }
    }

    /// Whether two handles certainly denote the same signal.
    pub fn same_signal(left: &Signal, right: &Signal) -> (same: bool)
        ensures
            same_handles(*left, *right, same),
    {
        left.same_as(right)
    }

    /// The exclusive or of two signals, folding constants and equal operands.
    pub fn xor(&mut self, left: Signal, right: Signal) -> (r: Signal)
        ensures
            *final(self) == *old(self),
            forall|s: spec_fn(u64) -> bool| #[trigger] eval(r, s) == (eval(left, s) != eval(right, s)),
            support(r).subset_of(support(left) + support(right)),
    {
        match (&left.0, &right.0) {
            (SignalKind::Const(a), SignalKind::Const(b)) => {
                return Signal::constant(*a != *b);
            },
            _ => {},
        }
        if left.is_const(false) {
            return right;
        }
        if right.is_const(false) {
            return left;
        }
        if left.is_const(true) {
            return self.not(right);
        }
        if right.is_const(true) {
            return self.not(left);
        }
        if Self::same_signal(&left, &right) {
            return Signal::constant(false);
        }
        Signal::expr(Rc::new(Expr::Xor(left, right)))
    }

    /// The conjunction of two signals, folding constants and equal operands.
    pub fn and(&mut self, left: Signal, right: Signal) -> (r: Signal)
        ensures
            *final(self) == *old(self),
            forall|s: spec_fn(u64) -> bool| #[trigger] eval(r, s) == (eval(left, s) && eval(right, s)),
            support(r).subset_of(support(left) + support(right)),
    {
        match (&left.0, &right.0) {
            (SignalKind::Const(a), SignalKind::Const(b)) => {
                return Signal::constant(*a && *b);
            },
            _ => {},
        }
        if left.is_const(false) || right.is_const(false) {
            return Signal::constant(false);
        }
        if left.is_const(true) {
            return right;
        }
        if right.is_const(true) {
            return left;
        }
        if Self::same_signal(&left, &right) {
            return left;
        }
        Signal::expr(Rc::new(Expr::And(left, right)))
    }

    /// The disjunction of two signals, as `(l ^ r) ^ (l & r)`.
    pub fn or(&mut self, left: Signal, right: Signal) -> (r: Signal)
        ensures
            *final(self) == *old(self),
            forall|s: spec_fn(u64) -> bool| #[trigger] eval(r, s) == (eval(left, s) || eval(right, s)),
            support(r).subset_of(support(left) + support(right)),
    {
        let either = self.xor(left.dup(), right.dup());
        let both = self.and(left, right);
        self.xor(either, both)
    }

    /// The signal at `index`, or the constant false past the end.
    pub fn bit_at(bits: &[Signal], index: usize) -> (s: Signal)
        ensures
            s == bit_at_spec(bits@, index as int),
    {
        bit_at(bits, index)
    }

    /// The conjunction of all inputs (true for none).
    pub fn and_many(&mut self, inputs: &[Signal]) -> (r: Signal)
        ensures
            *final(self) == *old(self),
            forall|s: spec_fn(u64) -> bool| #[trigger] eval(r, s) == (forall|i: int|
                0 <= i < inputs@.len() ==> #[trigger] eval(inputs@[i], s)),
            support(r).subset_of(supports(inputs@)),
    {
        let mut acc = Signal::constant(true);
        let mut k: usize = 0;
        while k < inputs.len()
            invariant
                0 <= k <= inputs@.len(),
                *self == *old(self),
                forall|s: spec_fn(u64) -> bool| #[trigger] eval(acc, s) == (forall|i: int|
                    0 <= i < k ==> #[trigger] eval(inputs@[i], s)),
                support(acc).subset_of(supports(inputs@)),
            decreases inputs@.len() - k,
        {
            let input = inputs[k].dup();
            proof {
                assert forall|q: u64| support(input).contains(q) implies supports(inputs@).contains(q) by {
                    assert(support(inputs@[k as int]).contains(q));
                }
            }
            acc = self.and(acc, input);
            proof {
                assert forall|s: spec_fn(u64) -> bool| #[trigger] eval(acc, s) == (forall|i: int|
                    0 <= i < k + 1 ==> #[trigger] eval(inputs@[i], s)) by {
                    if (forall|i: int| 0 <= i < k + 1 ==> #[trigger] eval(inputs@[i], s)) {
                        assert(eval(inputs@[k as int], s));
                    }
                }
            }
            k = k + 1;
        }
        acc
    }

    /// Whether the two bit strings agree at every position below the longer
    /// length, missing bits reading false.
    pub fn eq_bits(&mut self, left: &[Signal], right: &[Signal]) -> (r: Signal)
        ensures
            *final(self) == *old(self),
            forall|s: spec_fn(u64) -> bool| #[trigger] eval(r, s) == (forall|i: int|
                0 <= i < vstd::math::max(left@.len() as int, right@.len() as int) ==> eval(
                    #[trigger] bit_at_spec(left@, i),
                    s,
                ) == eval(bit_at_spec(right@, i), s)),
            support(r).subset_of(supports(left@) + supports(right@)),
    {
        let width = if left.len() > right.len() {
            left.len()
        } else {
            right.len()
        };
        let mut terms: Vec<Signal> = Vec::new();
        let mut bit: usize = 0;
        while bit < width
            invariant
                0 <= bit <= width,
                width == vstd::math::max(left@.len() as int, right@.len() as int),
                *self == *old(self),
                terms@.len() == bit,
                forall|i: int, s: spec_fn(u64) -> bool|
                     0 <= i < bit ==> #[trigger] eval(terms@[i], s) == (eval(
                        bit_at_spec(left@, i),
                        s,
                    ) == eval(bit_at_spec(right@, i), s)),
                all_within(terms@, supports(left@) + supports(right@)),
            decreases width - bit,
        {
            let l = Self::bit_at(left, bit);
            let r = Self::bit_at(right, bit);
            proof {
                lemma_bit_at_within(left@, bit as int);
                lemma_bit_at_within(right@, bit as int);
            }
            let diff = self.xor(l, r);
            let same = self.not(diff);
            terms.push(same);
            bit = bit + 1;
        }
        let r = self.and_many(&terms);
        proof {
            crate::shor_oracle::signal::lemma_supports(terms@);
            assert forall|s: spec_fn(u64) -> bool| #[trigger] eval(r, s) == (forall|i: int|
                0 <= i < width ==> eval(#[trigger] bit_at_spec(left@, i), s) == eval(
                    bit_at_spec(right@, i),
                    s,
                )) by {
                if forall|i: int| 0 <= i < terms@.len() ==> #[trigger] eval(terms@[i], s) {
                    assert forall|i: int| 0 <= i < width implies eval(#[trigger] bit_at_spec(left@, i), s) == eval(
                        bit_at_spec(right@, i),
                        s,
                    ) by {
                        assert(eval(terms@[i], s));
                    }
                }
            }
        }
        r
    }

    /// Whether the bits spell the low bits of `value`.
    fn eq_const(&mut self, bits: &[Signal], value: u16) -> (r: Signal)
        requires
            bits@.len() <= 16,
        ensures
            *final(self) == *old(self),
            forall|s: spec_fn(u64) -> bool| #[trigger] eval(r, s) == (forall|i: int|
                0 <= i < bits@.len() ==> eval(#[trigger] bits@[i], s) == nat_bit(
                    value as nat,
                    i as nat,
                )),
            support(r).subset_of(supports(bits@)),
    {
        let mut terms: Vec<Signal> = Vec::new();
        let mut bit: usize = 0;
        while bit < bits.len()
            invariant
                0 <= bit <= bits@.len() <= 16,
                *self == *old(self),
                terms@.len() == bit,
                forall|i: int, s: spec_fn(u64) -> bool|
                     0 <= i < bit ==> #[trigger] eval(terms@[i], s) == (eval(
                        bits@[i],
                        s,
                    ) == nat_bit(value as nat, i as nat)),
                all_within(terms@, supports(bits@)),
            decreases bits@.len() - bit,
        {
            let shifted = value >> (bit as u16);
            proof {
                vstd::bits::lemma_u16_shr_is_div(value, bit as u16);
                assert(shifted & 1 == shifted % 2) by (bit_vector);
                lemma_bit_at_within(bits@, bit as int);
            }
            if (shifted & 1) != 0 {
                terms.push(bits[bit].dup());
            } else {
                let n = self.not(bits[bit].dup());
                terms.push(n);
            }
            bit = bit + 1;
        }
        let r = self.and_many(&terms);
        proof {
            crate::shor_oracle::signal::lemma_supports(terms@);
            assert forall|s: spec_fn(u64) -> bool| #[trigger] eval(r, s) == (forall|i: int|
                0 <= i < bits@.len() ==> eval(#[trigger] bits@[i], s) == nat_bit(
                    value as nat,
                    i as nat,
                )) by {
                if forall|i: int| 0 <= i < terms@.len() ==> #[trigger] eval(terms@[i], s) {
                    assert forall|i: int| 0 <= i < bits@.len() implies eval(#[trigger] bits@[i], s) == nat_bit(
                        value as nat,
                        i as nat,
                    ) by {
                        assert(eval(terms@[i], s));
                    }
                }
            }
        }
        r
    }

    /// Whether every bit is false.
    pub fn is_zero(&mut self, bits: &[Signal]) -> (r: Signal)
        requires
            bits@.len() <= 16,
        ensures
            *final(self) == *old(self),
            forall|s: spec_fn(u64) -> bool| #[trigger] eval(r, s) == (forall|i: int|
                0 <= i < bits@.len() ==> !eval(#[trigger] bits@[i], s)),
            support(r).subset_of(supports(bits@)),
    {
        let r = self.eq_const(bits, 0);
        proof {
            assert forall|i: nat| #[trigger] nat_bit(0, i) == false by {
                vstd::arithmetic::power2::lemma_pow2_pos(i);
            }
        }
        r
    }

    /// `when_true` where `selector` holds, else `when_false`.
    pub fn mux(&mut self, selector: Signal, when_true: Signal, when_false: Signal) -> (r: Signal)
        ensures
            *final(self) == *old(self),
            forall|s: spec_fn(u64) -> bool| #[trigger] eval(r, s) == if eval(selector, s) {
                eval(when_true, s)
            } else {
                eval(when_false, s)
            },
            support(r).subset_of(support(selector) + support(when_true) + support(when_false)),
            selector.0 == SignalKind::Const(true) ==> r == when_true,
            selector.0 == SignalKind::Const(false) ==> r == when_false,
    {
        if selector.is_const(true) {
            return when_true;
        }
        if selector.is_const(false) {
            return when_false;
        }
        if Self::same_signal(&when_true, &when_false) {
            return when_true;
        }
        let diff = self.xor(when_true, when_false.dup());
        let selected_diff = self.and(selector, diff);
        self.xor(when_false, selected_diff)
    }

    /// Bitwise `mux` over the longer of the two inputs.
    pub fn mux_bits(&mut self, selector: Signal, when_true: &[Signal], when_false: &[Signal]) -> (r:
        Vec<Signal>)
        ensures
            *final(self) == *old(self),
            r@.len() == vstd::math::max(when_true@.len() as int, when_false@.len() as int),
            forall|i: int, s: spec_fn(u64) -> bool|
                 0 <= i < r@.len() ==> #[trigger] eval(r@[i], s) == if eval(
                    selector,
                    s,
                ) {
                    eval(bit_at_spec(when_true@, i), s)
                } else {
                    eval(bit_at_spec(when_false@, i), s)
                },
            all_within(r@, support(selector) + supports(when_true@) + supports(when_false@)),
    {
        let width = if when_true.len() > when_false.len() {
            when_true.len()
        } else {
            when_false.len()
        };
        let mut out: Vec<Signal> = Vec::new();
        let mut bit: usize = 0;
        while bit < width
            invariant
                0 <= bit <= width,
                width == vstd::math::max(when_true@.len() as int, when_false@.len() as int),
                *self == *old(self),
                out@.len() == bit,
                forall|i: int, s: spec_fn(u64) -> bool|
                     0 <= i < bit ==> #[trigger] eval(out@[i], s) == if eval(
                        selector,
                        s,
                    ) {
                        eval(bit_at_spec(when_true@, i), s)
                    } else {
                        eval(bit_at_spec(when_false@, i), s)
                    },
                all_within(out@, support(selector) + supports(when_true@) + supports(when_false@)),
            decreases width - bit,
        {
            let t = Self::bit_at(when_true, bit);
            let f = Self::bit_at(when_false, bit);
            proof {
                lemma_bit_at_within(when_true@, bit as int);
                lemma_bit_at_within(when_false@, bit as int);
            }
            let m = self.mux(selector.dup(), t, f);
            out.push(m);
            bit = bit + 1;
        }
        out
    }
}

impl<S: OpSink> Builder<S> {
    /// The `width + 1`-bit sum of the low `width` bits of two unsigned
    /// numbers, by a ripple-carry adder.
    fn add_unsigned_bits(&mut self, left: &[Signal], right: &[Signal], width: usize) -> (out: Vec<
        Signal,
    >)
        requires
            width < usize::MAX,
        ensures
            *final(self) == *old(self),
            out@.len() == width + 1,
            forall|s: spec_fn(u64) -> bool| #[trigger] value_of(out@, (width + 1) as nat, s) == value_of(
                left@,
                width as nat,
                s,
            ) + value_of(right@, width as nat, s),
            all_within(out@, supports(left@) + supports(right@)),
    {
        let ghost x = supports(left@) + supports(right@);
        let mut out: Vec<Signal> = Vec::new();
        let mut carry = Signal::constant(false);
        let mut bit: usize = 0;
        while bit < width
            invariant
                0 <= bit <= width < usize::MAX,
                *self == *old(self),
                out@.len() == bit,
                x == supports(left@) + supports(right@),
                forall|s: spec_fn(u64) -> bool| #[trigger] value_of(out@, bit as nat, s) + bval(
                    eval(carry, s),
                ) * pow2(bit as nat) == value_of(left@, bit as nat, s) + value_of(
                    right@,
                    bit as nat,
                    s,
                ),
                all_within(out@, x),
                support(carry).subset_of(x),
            decreases width - bit,
        {
            let a = Self::bit_at(left, bit);
            let b = Self::bit_at(right, bit);
            proof {
                lemma_bit_at_within(left@, bit as int);
                lemma_bit_at_within(right@, bit as int);
            }
            let a_xor_b = self.xor(a.dup(), b.dup());
            let sum = self.xor(a_xor_b.dup(), carry.dup());
            let generate = self.and(a, b);
            let propagate = self.and(carry, a_xor_b);
            let ghost old_carry = carry;
            let ghost prev = out@;
            carry = self.xor(generate, propagate);
            out.push(sum);
            proof {
                assert(out@ == prev.push(sum));
                assert forall|s: spec_fn(u64) -> bool| #[trigger] value_of(out@, (bit + 1) as nat, s) + bval(
                    eval(carry, s),
                ) * pow2((bit + 1) as nat) == value_of(left@, (bit + 1) as nat, s) + value_of(
                    right@,
                    (bit + 1) as nat,
                    s,
                ) by {
                    lemma_value_of_push(prev, sum, s);
                    vstd::arithmetic::power2::lemma_pow2_unfold((bit + 1) as nat);
                    let ea = bval(eval(bit_at_spec(left@, bit as int), s));
                    let eb = bval(eval(bit_at_spec(right@, bit as int), s));
                    let ec = bval(eval(old_carry, s));
                    assert(bval(eval(sum, s)) + 2 * bval(eval(carry, s)) == ea + eb + ec);
                    let p = pow2(bit as nat);
                    assert(value_of(prev, bit as nat, s) + ec * p == value_of(left@, bit as nat, s)
                        + value_of(right@, bit as nat, s));
                    assert((bval(eval(sum, s)) + 2 * bval(eval(carry, s))) * p == (ea + eb + ec) * p);
                    assert(bval(eval(carry, s)) * (2 * p) == 2 * bval(eval(carry, s)) * p)
                        by (nonlinear_arith);
                    assert((bval(eval(sum, s)) + 2 * bval(eval(carry, s))) * p == bval(eval(sum, s)) * p + 2 * bval(eval(carry, s)) * p)
                        by (nonlinear_arith);
                    assert((ea + eb + ec) * p == ea * p + eb * p + ec * p) by (nonlinear_arith);
                }
                assert forall|i: int| 0 <= i < out@.len() implies #[trigger] support(out@[i]).subset_of(x) by {
                    if i < prev.len() {
                        assert(out@[i] == prev[i]);
                    }
                }
            }
            bit = bit + 1;
        }
        let ghost prev = out@;
        out.push(carry);
        proof {
            assert forall|s: spec_fn(u64) -> bool| #[trigger] value_of(out@, (width + 1) as nat, s) == value_of(
                left@,
                width as nat,
                s,
            ) + value_of(right@, width as nat, s) by {
                lemma_value_of_push(prev, carry, s);
            }
            assert forall|i: int| 0 <= i < out@.len() implies #[trigger] support(out@[i]).subset_of(x) by {
                if i < prev.len() {
                    assert(out@[i] == prev[i]);
                }
            }
        }
        out
    }
}

/// The result of adding two 5-bit values with the end-around reduction of the
/// modulus 31: their sum, less 31 when the sum reaches 31.
pub open spec fn add31(a: nat, b: nat) -> nat {
    if a + b >= 31 {
        (a + b - 31) as nat
    } else {
        a + b
    }
}

/// The first `n` signals of `v`, as another vector.
fn prefix_signals(v: &Vec<Signal>, n: usize) -> (out: Vec<Signal>)
    requires
        n <= v@.len(),
    ensures
        out@ == v@.subrange(0, n as int),
{
    let mut out: Vec<Signal> = Vec::new();
    let mut i: usize = 0;
    while i < n
        invariant
            0 <= i <= n <= v@.len(),
            out@ == v@.subrange(0, i as int),
        decreases n - i,
    {
        out.push(v[i].dup());
        proof {
            assert(out@ =~= v@.subrange(0, i + 1));
        }
        i = i + 1;
    }
    out
}

proof fn lemma_add_mod31_at(
    left: Seq<Signal>,
    right: Seq<Signal>,
    sum: Seq<Signal>,
    low: Seq<Signal>,
    subm: Seq<Signal>,
    sub_low: Seq<Signal>,
    out: Seq<Signal>,
    reduce: Signal,
    low_all_ones: Signal,
    s: spec_fn(u64) -> bool,
)
    requires
        sum.len() == 6,
        low.len() == 5,
        subm.len() == 6,
        sub_low.len() == 5,
        out.len() == 5,
        value_of(sum, 6, s) == value_of(left, 5, s) + value_of(right, 5, s),
        forall|i: int| 0 <= i < 5 ==> #[trigger] low[i] == sum[i],
        forall|i: int| 0 <= i < 5 ==> #[trigger] sub_low[i] == subm[i],
        eval(low_all_ones, s) == (forall|i: int| 0 <= i < low.len() ==> #[trigger] eval(low[i], s)),
        eval(reduce, s) == (eval(bit_at_spec(sum, 5), s) || eval(low_all_ones, s)),
        value_of(subm, 6, s) == (value_of(sum, 6, s) + 33) % 64,
        forall|i: int|
            0 <= i < 5 ==> eval(#[trigger] bit_at_spec(out, i), s) == if eval(reduce, s) {
                eval(bit_at_spec(sub_low, i), s)
            } else {
                eval(bit_at_spec(low, i), s)
            },
    ensures
        value_of(out, 5, s) == add31(value_of(left, 5, s), value_of(right, 5, s)),
{
    let a = value_of(left, 5, s);
    let b = value_of(right, 5, s);
    vstd::arithmetic::power2::lemma2_to64();
    crate::shor_oracle::signal::lemma_value_split(sum, 5, s);
    crate::shor_oracle::signal::lemma_value_split(subm, 5, s);
    crate::shor_oracle::signal::lemma_value_of_bound(left, 5, s);
    crate::shor_oracle::signal::lemma_value_of_bound(right, 5, s);
    assert forall|i: int| 0 <= i < 5 implies eval(#[trigger] bit_at_spec(low, i), s) == eval(bit_at_spec(sum, i), s) by {
        assert(low[i] == sum[i]);
    }
    crate::shor_oracle::signal::lemma_value_of_prefix(low, sum, 5, s);
    assert forall|i: int| 0 <= i < 5 implies eval(#[trigger] bit_at_spec(sub_low, i), s) == eval(bit_at_spec(subm, i), s) by {
        assert(sub_low[i] == subm[i]);
    }
    crate::shor_oracle::signal::lemma_value_of_prefix(sub_low, subm, 5, s);
    lemma_all_ones(low, s);
    if eval(reduce, s) {
        assert forall|i: int| 0 <= i < 5 implies eval(#[trigger] bit_at_spec(out, i), s) == eval(bit_at_spec(sub_low, i), s) by {}
        crate::shor_oracle::signal::lemma_value_of_prefix(out, sub_low, 5, s);
    } else {
        assert forall|i: int| 0 <= i < 5 implies eval(#[trigger] bit_at_spec(out, i), s) == eval(bit_at_spec(low, i), s) by {}
        crate::shor_oracle::signal::lemma_value_of_prefix(out, low, 5, s);
    }
    assert(eval(reduce, s) == (a + b >= 31));
    if a + b >= 31 {
        assert((a + b + 33) % 64 == a + b - 31);
        assert((a + b - 31) % 32 == a + b - 31);
    } else {
        assert((a + b) % 32 == a + b);
    }
}

/// Five bits are all set exactly when they spell 31.
proof fn lemma_all_ones(bits: Seq<Signal>, s: spec_fn(u64) -> bool)
    requires
        bits.len() == 5,
    ensures
        (forall|i: int| 0 <= i < bits.len() ==> #[trigger] eval(bits[i], s)) == (value_of(bits, 5, s) == 31),
{
    crate::shor_oracle::signal::lemma_value5(bits, s);
    assert(bit_at_spec(bits, 0) == bits[0]);
    assert(bit_at_spec(bits, 1) == bits[1]);
    assert(bit_at_spec(bits, 2) == bits[2]);
    assert(bit_at_spec(bits, 3) == bits[3]);
    assert(bit_at_spec(bits, 4) == bits[4]);
    if forall|i: int| 0 <= i < bits.len() ==> #[trigger] eval(bits[i], s) {
        assert(eval(bits[0], s) && eval(bits[1], s) && eval(bits[2], s) && eval(bits[3], s) && eval(bits[4], s));
    }
    if value_of(bits, 5, s) == 31 {
        assert forall|i: int| 0 <= i < bits.len() implies #[trigger] eval(bits[i], s) by {
            assert(i == 0 || i == 1 || i == 2 || i == 3 || i == 4);
        }
    }
}

impl<S: OpSink> Builder<S> {
    /// The low `width` bits of the sum of `bits` and `constant`.
    fn add_const_wrapping_bits(&mut self, bits: &[Signal], constant: u16, width: usize) -> (out:
        Vec<Signal>)
        requires
            width <= 16,
        ensures
            *final(self) == *old(self),
            out@.len() == width,
            forall|s: spec_fn(u64) -> bool| #[trigger] value_of(out@, width as nat, s) == (value_of(
                bits@,
                width as nat,
                s,
            ) + (constant as nat) % pow2(width as nat)) % pow2(width as nat),
            all_within(out@, supports(bits@)),
    {
        let constant_bits = const_bits(constant, width);
        let full = self.add_unsigned_bits(bits, &constant_bits, width);
        let out = prefix_signals(&full, width);
        proof {
            assert(supports(constant_bits@) =~= Set::empty()) by {
                assert forall|q: u64| !supports(constant_bits@).contains(q) by {
                    if supports(constant_bits@).contains(q) {
                        let i = choose|i: int| 0 <= i < constant_bits@.len() && #[trigger] support(constant_bits@[i]).contains(q);
                        assert(constant_bits@[i] == Signal(SignalKind::Const(nat_bit(constant as nat, i as nat))));
                    }
                }
            }
            assert(supports(bits@) + supports(constant_bits@) =~= supports(bits@));
            assert forall|i: int| 0 <= i < out@.len() implies #[trigger] support(out@[i]).subset_of(supports(bits@)) by {
                assert(out@[i] == full@[i]);
            }
            assert forall|s: spec_fn(u64) -> bool| #[trigger] value_of(out@, width as nat, s) == (value_of(
                bits@,
                width as nat,
                s,
            ) + (constant as nat) % pow2(width as nat)) % pow2(width as nat) by {
                assert forall|i: int| 0 <= i < width implies #[trigger] bit_at_spec(constant_bits@, i) == Signal(
                    SignalKind::Const(nat_bit(constant as nat, i as nat)),
                ) by {
                    assert(constant_bits@[i] == Signal(SignalKind::Const(nat_bit(constant as nat, i as nat))));
                }
                crate::shor_oracle::signal::lemma_const_bits_value(constant_bits@, constant as nat, width as nat, s);
                crate::shor_oracle::signal::lemma_value_split(full@, width as nat, s);
                assert forall|i: int| 0 <= i < width implies eval(#[trigger] bit_at_spec(out@, i), s) == eval(
                    bit_at_spec(full@, i),
                    s,
                ) by {
                    assert(out@[i] == full@[i]);
                }
                crate::shor_oracle::signal::lemma_value_of_prefix(out@, full@, width as nat, s);
            }
        }
        out
    }

    /// The sum of two 5-bit values reduced by the modulus 31 once: the carry
    /// out or an all-ones low part selects the sum less 31.
    pub(crate) fn add_mod31_bits(&mut self, left: &[Signal], right: &[Signal]) -> (out: Vec<Signal>)
        ensures
            *final(self) == *old(self),
            out@.len() == WIDTH,
            forall|s: spec_fn(u64) -> bool| #[trigger] value_of(out@, 5, s) == add31(
                value_of(left@, 5, s),
                value_of(right@, 5, s),
            ),
            all_within(out@, supports(left@) + supports(right@)),
    {
        let ghost x = supports(left@) + supports(right@);
        let sum = self.add_unsigned_bits(left, right, WIDTH);
        let low = prefix_signals(&sum, WIDTH);
        let low_all_ones = self.and_many(low.as_slice());
        let top = Self::bit_at(sum.as_slice(), WIDTH);
        let reduce = self.or(top, low_all_ones);
        let subtract_modulus = self.add_const_wrapping_bits(sum.as_slice(), 33, WIDTH + 1);
        let sub_low = prefix_signals(&subtract_modulus, WIDTH);
        let out = self.mux_bits(reduce, sub_low.as_slice(), low.as_slice());
        proof {
            crate::shor_oracle::signal::lemma_supports(sum@);
            crate::shor_oracle::signal::lemma_supports(low@);
            crate::shor_oracle::signal::lemma_supports(sub_low@);
            crate::shor_oracle::signal::lemma_supports(subtract_modulus@);
            assert(all_within(low@, x)) by {
                assert forall|i: int| 0 <= i < low@.len() implies #[trigger] support(low@[i]).subset_of(x) by {
                    assert(low@[i] == sum@[i]);
                }
            }
            assert(all_within(sub_low@, x)) by {
                assert forall|i: int| 0 <= i < sub_low@.len() implies #[trigger] support(sub_low@[i]).subset_of(x) by {
                    assert(sub_low@[i] == subtract_modulus@[i]);
                }
            }
            lemma_bit_at_within(sum@, WIDTH as int);
            assert(all_within(out@, x)) by {
                assert forall|i: int| 0 <= i < out@.len() implies #[trigger] support(out@[i]).subset_of(x) by {
                    assert(support(out@[i]).subset_of(support(reduce) + supports(sub_low@) + supports(low@)));
                }
            }
            assert forall|s: spec_fn(u64) -> bool| #[trigger] value_of(out@, 5, s) == add31(
                value_of(left@, 5, s),
                value_of(right@, 5, s),
            ) by {
                vstd::arithmetic::power2::lemma2_to64();
                assert(value_of(sum@, (WIDTH + 1) as nat, s) == value_of(left@, WIDTH as nat, s)
                    + value_of(right@, WIDTH as nat, s));
                assert(value_of(subtract_modulus@, (WIDTH + 1) as nat, s) == (value_of(sum@, (WIDTH + 1) as nat, s) + (33u16 as nat) % pow2((WIDTH + 1) as nat)) % pow2((WIDTH + 1) as nat));
                assert forall|i: int| 0 <= i < 5 implies eval(#[trigger] bit_at_spec(out@, i), s) == if eval(
                    reduce,
                    s,
                ) {
                    eval(bit_at_spec(sub_low@, i), s)
                } else {
                    eval(bit_at_spec(low@, i), s)
                } by {
                    assert(bit_at_spec(out@, i) == out@[i]);
                }
                lemma_add_mod31_at(left@, right@, sum@, low@, subtract_modulus@, sub_low@, out@, reduce, low_all_ones, s);
            }
        }
        out
    }

    /// The five-bit complement, `31 - v`.
    pub(crate) fn complement_field_bits(&mut self, bits: &[Signal]) -> (out: Vec<Signal>)
        ensures
            *final(self) == *old(self),
            out@.len() == WIDTH,
            forall|s: spec_fn(u64) -> bool| #[trigger] value_of(out@, 5, s) == 31 - value_of(bits@, 5, s),
            all_within(out@, supports(bits@)),
    {
        let mut out: Vec<Signal> = Vec::new();
        let mut bit: usize = 0;
        while bit < WIDTH
            invariant
                0 <= bit <= WIDTH,
                *self == *old(self),
                out@.len() == bit,
                forall|i: int, s: spec_fn(u64) -> bool|
                    0 <= i < bit ==> #[trigger] eval(out@[i], s) == !eval(bit_at_spec(bits@, i), s),
                all_within(out@, supports(bits@)),
            decreases WIDTH - bit,
        {
            let b = Self::bit_at(bits, bit);
            proof {
                lemma_bit_at_within(bits@, bit as int);
            }
            let n = self.not(b);
            out.push(n);
            bit = bit + 1;
        }
        proof {
            assert forall|s: spec_fn(u64) -> bool| #[trigger] value_of(out@, 5, s) == 31 - value_of(bits@, 5, s) by {
                crate::shor_oracle::signal::lemma_value5(out@, s);
                crate::shor_oracle::signal::lemma_value5(bits@, s);
                assert(eval(bit_at_spec(out@, 0), s) == !eval(bit_at_spec(bits@, 0), s));
                assert(eval(bit_at_spec(out@, 1), s) == !eval(bit_at_spec(bits@, 1), s));
                assert(eval(bit_at_spec(out@, 2), s) == !eval(bit_at_spec(bits@, 2), s));
                assert(eval(bit_at_spec(out@, 3), s) == !eval(bit_at_spec(bits@, 3), s));
                assert(eval(bit_at_spec(out@, 4), s) == !eval(bit_at_spec(bits@, 4), s));
            }
        }
        out
    }

    /// `left - right` modulo 31 by adding the complement of `right`.
    pub(crate) fn sub_mod31_bits(&mut self, left: &[Signal], right: &[Signal]) -> (out: Vec<Signal>)
        ensures
            *final(self) == *old(self),
            out@.len() == WIDTH,
            forall|s: spec_fn(u64) -> bool| #[trigger] value_of(out@, 5, s) == add31(
                value_of(left@, 5, s),
                (31 - value_of(right@, 5, s)) as nat,
            ),
            all_within(out@, supports(left@) + supports(right@)),
    {
        let right_complement = self.complement_field_bits(right);
        proof {
            crate::shor_oracle::signal::lemma_supports(right_complement@);
            assert forall|s: spec_fn(u64) -> bool| #[trigger] value_of(right@, 5, s) <= 31 by {
                crate::shor_oracle::signal::lemma_value5(right@, s);
            }
            assert(supports(right_complement@).subset_of(supports(right@)));
        }
        let out = self.add_mod31_bits(left, right_complement.as_slice());
        proof {
            assert forall|i: int| 0 <= i < out@.len() implies #[trigger] support(out@[i]).subset_of(
                supports(left@) + supports(right@),
            ) by {
                assert(support(out@[i]).subset_of(supports(left@) + supports(right_complement@)));
            }
        }
        out
    }

    /// `left - right` in F_31; the modulus must be 31.
    pub fn sub_mod(&mut self, left: &[Signal], right: &[Signal], modulus: u16) -> (out: Vec<Signal>)
        requires
            modulus == FIELD_MODULUS,
        ensures
            *final(self) == *old(self),
            out@.len() == WIDTH,
            forall|s: spec_fn(u64) -> bool| #[trigger] value_of(out@, 5, s) == add31(
                value_of(left@, 5, s),
                (31 - value_of(right@, 5, s)) as nat,
            ),
            all_within(out@, supports(left@) + supports(right@)),
    {
        self.sub_mod31_bits(left, right)
    }

    /// The five-bit value plus the one-bit `increment`, modulo 32.
    pub(crate) fn increment_by_signal_bits(&mut self, bits: &[Signal], increment: Signal) -> (out: Vec<Signal>)
        ensures
            *final(self) == *old(self),
            out@.len() == WIDTH,
            forall|s: spec_fn(u64) -> bool| #[trigger] value_of(out@, 5, s) == (value_of(bits@, 5, s)
                + bval(eval(increment, s))) % 32,
            all_within(out@, supports(bits@) + support(increment)),
    {
        let ghost x = supports(bits@) + support(increment);
        let mut carry = increment;
        let ghost inc = carry;
        let mut out: Vec<Signal> = Vec::new();
        let mut bit: usize = 0;
        proof {
            vstd::arithmetic::power2::lemma2_to64();
        }
        while bit < WIDTH
            invariant
                0 <= bit <= WIDTH,
                *self == *old(self),
                out@.len() == bit,
                x == supports(bits@) + support(inc),
                forall|s: spec_fn(u64) -> bool| #[trigger] value_of(out@, bit as nat, s) + bval(
                    eval(carry, s),
                ) * pow2(bit as nat) == value_of(bits@, bit as nat, s) + bval(eval(inc, s)),
                all_within(out@, x),
                support(carry).subset_of(x),
            decreases WIDTH - bit,
        {
            let input = Self::bit_at(bits, bit);
            proof {
                lemma_bit_at_within(bits@, bit as int);
            }
            let sum = self.xor(input.dup(), carry.dup());
            let ghost old_carry = carry;
            let ghost prev = out@;
            carry = self.and(input, carry);
            out.push(sum);
            proof {
                assert(out@ == prev.push(sum));
                assert forall|s: spec_fn(u64) -> bool| #[trigger] value_of(out@, (bit + 1) as nat, s) + bval(
                    eval(carry, s),
                ) * pow2((bit + 1) as nat) == value_of(bits@, (bit + 1) as nat, s) + bval(eval(inc, s)) by {
                    lemma_value_of_push(prev, sum, s);
                    vstd::arithmetic::power2::lemma_pow2_unfold((bit + 1) as nat);
                    let p = pow2(bit as nat);
                    let ea = bval(eval(bit_at_spec(bits@, bit as int), s));
                    let ec = bval(eval(old_carry, s));
                    assert(bval(eval(sum, s)) + 2 * bval(eval(carry, s)) == ea + ec);
                    assert((bval(eval(sum, s)) + 2 * bval(eval(carry, s))) * p == bval(eval(sum, s)) * p + bval(eval(carry, s)) * (2 * p))
                        by (nonlinear_arith);
                    assert((ea + ec) * p == ea * p + ec * p) by (nonlinear_arith);
                }
                assert forall|i: int| 0 <= i < out@.len() implies #[trigger] support(out@[i]).subset_of(x) by {
                    if i < prev.len() {
                        assert(out@[i] == prev[i]);
                    }
                }
            }
            bit = bit + 1;
        }
        proof {
            assert forall|s: spec_fn(u64) -> bool| #[trigger] value_of(out@, 5, s) == (value_of(bits@, 5, s)
                + bval(eval(inc, s))) % 32 by {
                vstd::arithmetic::power2::lemma2_to64();
                crate::shor_oracle::signal::lemma_value_of_bound(out@, 5, s);
                vstd::arithmetic::div_mod::lemma_fundamental_div_mod_converse(
                    (value_of(bits@, 5, s) + bval(eval(inc, s))) as int,
                    32,
                    bval(eval(carry, s)) as int,
                    value_of(out@, 5, s) as int,
                );
            }
        }
        out
    }
}

/// Multiplication by `2^k` in F_31 on five-bit encodings, where the all-ones
/// encoding of zero stays all ones.
pub open spec fn times_pow2_mod31(v: nat, k: nat) -> nat {
    if v == 31 {
        31
    } else {
        (v * pow2(k)) % 31
    }
}

/// The bit position that rotation by `k` moves to position `i`.
pub open spec fn rotate_source(i: int, k: int) -> int {
    (i + 5 - k % 5) % 5
}

/// Rotating five bits left by `k` multiplies their value by `2^k` modulo
/// `2^5 - 1`.
pub proof fn lemma_rotate_value(bits: Seq<Signal>, out: Seq<Signal>, k: nat, s: spec_fn(u64) -> bool)
    requires
        out.len() == 5,
        forall|i: int| 0 <= i < 5 ==> #[trigger] out[i] == bit_at_spec(bits, rotate_source(i, k as int)),
    ensures
        value_of(out, 5, s) == times_pow2_mod31(value_of(bits, 5, s), (k % 5) as nat),
{
    crate::shor_oracle::signal::lemma_value5(out, s);
    crate::shor_oracle::signal::lemma_value5(bits, s);
    vstd::arithmetic::power2::lemma2_to64();
    let b0 = bval(eval(bit_at_spec(bits, 0), s));
    let b1 = bval(eval(bit_at_spec(bits, 1), s));
    let b2 = bval(eval(bit_at_spec(bits, 2), s));
    let b3 = bval(eval(bit_at_spec(bits, 3), s));
    let b4 = bval(eval(bit_at_spec(bits, 4), s));
    let v = value_of(bits, 5, s);
    assert(v == b0 + 2 * b1 + 4 * b2 + 8 * b3 + 16 * b4);
    let m = k % 5;
    assert(bit_at_spec(out, 0) == out[0]);
    assert(bit_at_spec(out, 1) == out[1]);
    assert(bit_at_spec(out, 2) == out[2]);
    assert(bit_at_spec(out, 3) == out[3]);
    assert(bit_at_spec(out, 4) == out[4]);
    let r = value_of(out, 5, s);
    if m == 0 {
        assert(r == v);
        assert(v * pow2(0) == v);
        if v != 31 {
            assert(v % 31 == v);
        }
    } else if m == 1 {
        assert(r == b4 + 2 * b0 + 4 * b1 + 8 * b2 + 16 * b3);
        assert(v * pow2(1) == r + 31 * b4);
    } else if m == 2 {
        assert(r == b3 + 2 * b4 + 4 * b0 + 8 * b1 + 16 * b2);
        assert(v * pow2(2) == r + 31 * (b3 + 2 * b4));
    } else if m == 3 {
        assert(r == b2 + 2 * b3 + 4 * b4 + 8 * b0 + 16 * b1);
        assert(v * pow2(3) == r + 31 * (b2 + 2 * b3 + 4 * b4));
    } else {
        assert(m == 4);
        assert(r == b1 + 2 * b2 + 4 * b3 + 8 * b4 + 16 * b0);
        assert(v * pow2(4) == r + 31 * (b1 + 2 * b2 + 4 * b3 + 8 * b4));
    }
    if v != 31 {
        assert(r != 31);
        assert(r < 31);
        vstd::arithmetic::div_mod::lemma_fundamental_div_mod_converse(
            (v * pow2(m)) as int,
            31,
            ((v * pow2(m) - r) / 31) as int,
            r as int,
        );
    }
}

impl<S: OpSink> Builder<S> {
    /// The five bits rotated left by `shift`: bit `i` of the result is bit
    /// `i - shift` (mod 5) of the input.
    pub(crate) fn rotate_mod31_bits(bits: &[Signal], shift: usize) -> (out: Vec<Signal>)
        ensures
            out@.len() == WIDTH,
            forall|i: int|
                0 <= i < 5 ==> #[trigger] out@[i] == bit_at_spec(bits@, rotate_source(i, shift as int)),
            all_within(out@, supports(bits@)),
    {
        let k = shift % WIDTH;
        let mut out: Vec<Signal> = Vec::new();
        let mut out_bit: usize = 0;
        while out_bit < WIDTH
            invariant
                0 <= out_bit <= WIDTH,
                k == shift % 5,
                out@.len() == out_bit,
                forall|i: int|
                    0 <= i < out_bit ==> #[trigger] out@[i] == bit_at_spec(bits@, rotate_source(i, shift as int)),
                all_within(out@, supports(bits@)),
            decreases WIDTH - out_bit,
        {
            let src = (out_bit + WIDTH - k) % WIDTH;
            proof {
                lemma_bit_at_within(bits@, src as int);
            }
            out.push(Self::bit_at(bits, src));
            out_bit = out_bit + 1;
        }
        out
    }
}

/// One step of multiplying by a constant: adding the rotated input for a set
/// factor bit keeps the accumulator equal to the input times the factor bits
/// seen so far.
pub proof fn lemma_mul_const_step(v: nat, f: nat, k: nat, acc: nat, bit: bool)
    requires
        v <= 31,
        acc < 31,
        acc == (v * (f % pow2(k))) % 31,
        bit == nat_bit(f, k),
    ensures
        ({
            let next = if bit {
                add31(acc, times_pow2_mod31(v, k))
            } else {
                acc
            };
            next < 31 && next == (v * (f % pow2(k + 1))) % 31
        }),
{
    vstd::arithmetic::power2::lemma_pow2_pos(k);
    vstd::arithmetic::power2::lemma_pow2_unfold(k + 1);
    let p = pow2(k);
    vstd::arithmetic::div_mod::lemma_mod_breakdown(f as int, p as int, 2);
    assert(pow2(k + 1) == p * 2) by (nonlinear_arith)
        requires
            pow2(k + 1) == 2 * p,
    ;
    let lo = f % p;
    let hb = (f / p) % 2;
    assert(f % pow2(k + 1) == lo + p * hb);
    assert(v * (lo + p * hb) == v * lo + (v * p) * hb) by (nonlinear_arith);
    if v == 31 {
        assert((31 * lo) % 31 == 0) by {
            vstd::arithmetic::div_mod::lemma_mod_multiples_basic(lo as int, 31);
            assert(31 * lo == lo * 31) by (nonlinear_arith);
        }
        assert((31 * (lo + p * hb)) % 31 == 0) by {
            vstd::arithmetic::div_mod::lemma_mod_multiples_basic((lo + p * hb) as int, 31);
            assert(31 * (lo + p * hb) == (lo + p * hb) * 31) by (nonlinear_arith);
        }
    } else {
        let r = (v * p) % 31;
        if bit {
            assert(hb == 1);
            vstd::arithmetic::div_mod::lemma_add_mod_noop((v * lo) as int, (v * p) as int, 31);
            assert(add31(acc, r) == (acc + r) % 31);
        } else {
            assert(hb == 0);
        }
    }
}

impl<S: OpSink> Builder<S> {
    /// The product of a five-bit value and a constant in F_31, as a sum of
    /// rotated copies of the input, one for each set bit of the reduced
    /// factor.
    pub(crate) fn mul_const_mod31_bits(&mut self, input: &[Signal], factor: u16) -> (out: Vec<Signal>)
        ensures
            *final(self) == *old(self),
            out@.len() == WIDTH,
            forall|s: spec_fn(u64) -> bool| #[trigger] value_of(out@, 5, s) == (value_of(input@, 5, s)
                * ((factor as nat) % 31)) % 31,
            all_within(out@, supports(input@)),
    {
        let factor = factor % FIELD_MODULUS;
        let mut acc = const_bits(0, WIDTH);
        let mut shift: usize = 0;
        proof {
            vstd::arithmetic::power2::lemma2_to64();
            assert forall|s: spec_fn(u64) -> bool| #[trigger] value_of(acc@, 0, s) == 0 by {}
        }
        let ghost zero_acc = acc@;
        proof {
            assert forall|s: spec_fn(u64) -> bool| #[trigger] value_of(acc@, 5, s) == 0 by {
                assert forall|i: int| 0 <= i < 5 implies #[trigger] bit_at_spec(acc@, i) == Signal(
                    SignalKind::Const(nat_bit(0, i as nat)),
                ) by {
                    assert(acc@[i] == Signal(SignalKind::Const(nat_bit(0, i as nat))));
                }
                crate::shor_oracle::signal::lemma_const_bits_value(acc@, 0, 5, s);
            }
            assert forall|i: int| 0 <= i < acc@.len() implies #[trigger] support(acc@[i]).subset_of(supports(input@)) by {
                assert(acc@[i] == Signal(SignalKind::Const(nat_bit(0, i as nat))));
            }
            assert((factor as nat) % pow2(0) == 0);
            assert forall|s: spec_fn(u64) -> bool| #[trigger] value_of(acc@, 5, s) < 31 && value_of(acc@, 5, s) == (
                value_of(input@, 5, s) * ((factor as nat) % pow2(0))) % 31 by {
                assert(value_of(input@, 5, s) * 0 == 0);
            }
        }
        while shift < WIDTH
            invariant
                0 <= shift <= WIDTH,
                factor < 31,
                *self == *old(self),
                acc@.len() == 5,
                forall|s: spec_fn(u64) -> bool| #[trigger] value_of(acc@, 5, s) < 31 && value_of(acc@, 5, s) == (
                    value_of(input@, 5, s) * ((factor as nat) % pow2(shift as nat))) % 31,
                all_within(acc@, supports(input@)),
            decreases WIDTH - shift,
        {
            let shifted_factor = factor >> (shift as u16);
            proof {
                vstd::bits::lemma_u16_shr_is_div(factor, shift as u16);
                assert(shifted_factor & 1 == shifted_factor % 2) by (bit_vector);
            }
            let ghost old_acc = acc@;
            if (shifted_factor & 1) != 0 {
                let shifted = Self::rotate_mod31_bits(input, shift);
                acc = self.add_mod31_bits(acc.as_slice(), shifted.as_slice());
                proof {
                    crate::shor_oracle::signal::lemma_supports(shifted@);
                    crate::shor_oracle::signal::lemma_supports(old_acc);
                    assert forall|i: int| 0 <= i < acc@.len() implies #[trigger] support(acc@[i]).subset_of(supports(input@)) by {
                        assert(support(acc@[i]).subset_of(supports(old_acc) + supports(shifted@)));
                    }
                    assert forall|s: spec_fn(u64) -> bool| #[trigger] value_of(acc@, 5, s) < 31 && value_of(acc@, 5, s) == (
                        value_of(input@, 5, s) * ((factor as nat) % pow2((shift + 1) as nat))) % 31 by {
                        lemma_rotate_value(input@, shifted@, shift as nat, s);
                        crate::shor_oracle::signal::lemma_value5(input@, s);
                        assert(shift as nat % 5 == shift as nat);
                        lemma_mul_const_step(value_of(input@, 5, s), factor as nat, shift as nat, value_of(old_acc, 5, s), true);
                    }
                }
            } else {
                proof {
                    assert forall|s: spec_fn(u64) -> bool| #[trigger] value_of(acc@, 5, s) < 31 && value_of(acc@, 5, s) == (
                        value_of(input@, 5, s) * ((factor as nat) % pow2((shift + 1) as nat))) % 31 by {
                        crate::shor_oracle::signal::lemma_value5(input@, s);
                        lemma_mul_const_step(value_of(input@, 5, s), factor as nat, shift as nat, value_of(old_acc, 5, s), false);
                    }
                }
            }
            shift = shift + 1;
        }
        proof {
            assert forall|s: spec_fn(u64) -> bool| #[trigger] value_of(acc@, 5, s) == (value_of(input@, 5, s)
                * ((factor as nat) % 31)) % 31 by {
                vstd::arithmetic::power2::lemma2_to64();
                assert((factor as nat) % 32 == factor as nat);
            }
        }
        acc
    }
}

/// The signal at an index reads only qubits of the joint support.
pub proof fn lemma_bit_at_within(bits: Seq<Signal>, i: int)
    ensures
        support(bit_at_spec(bits, i)).subset_of(supports(bits)),
{
    crate::shor_oracle::signal::lemma_supports(bits);
    if 0 <= i < bits.len() {
        assert(support(bits[i]).subset_of(supports(bits)));
    }
}

/// A signal can be XORed into `t`: `t` and the signal's qubits are live, and
/// the signal does not read `t`.
pub open spec fn xor_target_ok(pool: Set<u64>, sig: Signal, t: u64) -> bool {
    &&& !pool.contains(t)
    &&& !support(sig).contains(t)
    &&& support(sig).disjoint(pool)
}

/// The assignment with qubit `q` set to `b`.
pub open spec fn set_wire(s: spec_fn(u64) -> bool, q: u64, b: bool) -> spec_fn(u64) -> bool {
    |x: u64|
        if x == q {
            b
        } else {
            s(x)
        }
}

pub proof fn lemma_effect_conseq(
    ops: Seq<Op>,
    p: Set<u64>,
    f: spec_fn(spec_fn(u64) -> bool) -> spec_fn(u64) -> bool,
    g: spec_fn(spec_fn(u64) -> bool) -> spec_fn(u64) -> bool,
)
    requires
        effect(ops, p, f),
        forall|s: spec_fn(u64) -> bool| zero_on(s, p) ==> #[trigger] f(s) == g(s),
    ensures
        effect(ops, p, g),
{
    assert forall|s: spec_fn(u64) -> bool| zero_on(s, p) implies #[trigger] run(ops, s) == g(s) by {
        assert(run(ops, s) == f(s));
        assert(f(s) == g(s));
    }
}

impl<S: OpSink> Builder<S> {
    proof fn lemma_live_present(&self, q: u64)
        requires
            self.wf(),
            !self.pool().contains(q),
        ensures
            q != NO_INDEX,
            q < self.next_qubit,
    {
    }

    /// XORs the value of `signal` into qubit `target`, through scratch qubits
    /// that are returned clean.
    pub fn xor_signal_into(&mut self, signal: &Signal, target: QubitId)
        requires
            old(self).wf(),
            !old(self).failed() ==> xor_target_ok(old(self).pool(), *signal, target.0),
        ensures
            old(self).pure_step(final(self), support(*signal).insert(target.0)),
            !final(self).failed() ==> effect(
                added(old(self).emitted(), final(self).emitted()),
                old(self).pool(),
                |s: spec_fn(u64) -> bool| flip(s, target.0, eval(*signal, s)),
            ),
        decreases height(*signal), 2nat,
    {
        let ghost p0 = self.pool();
        let ghost allowed = support(*signal).insert(target.0);
        proof {
            if !self.failed() {
                self.lemma_live_present(target.0);
            }
        }
        match &signal.0 {
            SignalKind::Const(false) => {
                proof {
                    self.lemma_step_refl();
                    assert(added(self.emitted(), self.emitted()) =~= Seq::<Op>::empty());
                    assert forall|s: spec_fn(u64) -> bool| zero_on(s, p0) implies #[trigger] run(
                        Seq::<Op>::empty(),
                        s,
                    ) == flip(s, target.0, eval(*signal, s)) by {
                        assert(flip(s, target.0, false) =~= s);
                    }
                }
            },
            SignalKind::Const(true) => {
                self.push_x(target);
            },
            SignalKind::Qubit(control) => {
                proof {
                    if !self.failed() {
                        assert(support(*signal).contains(control.0));
                        self.lemma_live_present(control.0);
                    }
                }
                self.push_cx(*control, target);
            },
            SignalKind::Expr(e) => {
                match &**e {
                    Expr::Not(input) => {
                        let ghost mid0 = *self;
                        self.push_x(target);
                        let ghost mid = *self;
                        proof {
                            assert(support(*signal) == support(*input));
                        }
                        self.xor_signal_into(input, target);
                        proof {
                            Self::lemma_step_trans(&mid0, &mid, self);
                            Self::lemma_pure_step_trans(&mid0, &mid, self, allowed);
                            if !self.failed() {
                                let a = added(mid0.emitted(), mid.emitted());
                                let b = added(mid.emitted(), self.emitted());
                                assert forall|s: spec_fn(u64) -> bool| zero_on(s, p0) implies #[trigger] run(
                                    a + b,
                                    s,
                                ) == flip(s, target.0, eval(*signal, s)) by {
                                    lemma_run_append(a, b, s);
                                    let s1 = flip(s, target.0, true);
                                    assert(run(a, s) == s1);
                                    assert(zero_on(s1, p0));
                                    assert(run(b, s1) == flip(s1, target.0, eval(*input, s1)));
                                    crate::shor_oracle::signal::lemma_eval_frame(*input, s1, s);
                                    assert(flip(s1, target.0, eval(*input, s1)) =~= flip(
                                        s,
                                        target.0,
                                        eval(*signal, s),
                                    ));
                                }
                            }
                        }
                    },
                    Expr::Xor(left, right) => {
                        let ghost mid0 = *self;
                        proof {
                            assert(support(*signal) == support(*left) + support(*right));
                        }
                        self.xor_signal_into(left, target);
                        let ghost mid = *self;
                        self.xor_signal_into(right, target);
                        proof {
                            Self::lemma_pure_step_widen(&mid0, &mid, support(*left).insert(target.0), allowed);
                            Self::lemma_pure_step_widen(&mid, self, support(*right).insert(target.0), allowed);
                            Self::lemma_step_trans(&mid0, &mid, self);
                            Self::lemma_pure_step_trans(&mid0, &mid, self, allowed);
                            if !self.failed() {
                                let a = added(mid0.emitted(), mid.emitted());
                                let b = added(mid.emitted(), self.emitted());
                                assert forall|s: spec_fn(u64) -> bool| zero_on(s, p0) implies #[trigger] run(
                                    a + b,
                                    s,
                                ) == flip(s, target.0, eval(*signal, s)) by {
                                    lemma_run_append(a, b, s);
                                    let s1 = flip(s, target.0, eval(*left, s));
                                    assert(run(a, s) == s1);
                                    assert(zero_on(s1, p0));
                                    assert(run(b, s1) == flip(s1, target.0, eval(*right, s1)));
                                    crate::shor_oracle::signal::lemma_eval_frame(*right, s1, s);
                                    assert(flip(s1, target.0, eval(*right, s1)) =~= flip(
                                        s,
                                        target.0,
                                        eval(*signal, s),
                                    ));
                                }
                            }
                        }
                    },
                    Expr::And(left, right) => {
                        proof {
                            assert(support(*signal) == support(*left) + support(*right));
                            assert(height(*left) < height(*signal));
                            assert(height(*right) < height(*signal));
                        }
                        self.xor_and_into(left, right, target);
                    },
                }
            },
        }
    }

    /// XORs the conjunction of two signals into qubit `target`, computing a
    /// compound operand into a scratch qubit and uncomputing it afterwards.
    pub(crate) fn xor_and_into(&mut self, left: &Signal, right: &Signal, target: QubitId)
        requires
            old(self).wf(),
            !old(self).failed() ==> xor_target_ok(old(self).pool(), *left, target.0)
                && xor_target_ok(old(self).pool(), *right, target.0),
        ensures
            old(self).pure_step(final(self), (support(*left) + support(*right)).insert(target.0)),
            !final(self).failed() ==> effect(
                added(old(self).emitted(), final(self).emitted()),
                old(self).pool(),
                |s: spec_fn(u64) -> bool| flip(s, target.0, eval(*left, s) && eval(*right, s)),
            ),
            left.0 == SignalKind::Const(false) || right.0 == SignalKind::Const(false) ==> *final(self) == *old(self),
            match (left.0, right.0) {
                (SignalKind::Qubit(a), SignalKind::Qubit(b)) => !old(self).failed() ==> !final(self).failed()
                    && final(self).emitted() == old(self).emitted().push(
                    if a == b {
                        Self::cx_gate(a, target)
                    } else {
                        Self::ccx_gate(a, b, target)
                    },
                ),
                _ => true,
            },
        decreases vstd::math::max(height(*left) as int, height(*right) as int) + 1, 1nat,
    {
        let ghost p0 = self.pool();
        let ghost allowed = (support(*left) + support(*right)).insert(target.0);
        let ghost want = |s: spec_fn(u64) -> bool| flip(s, target.0, eval(*left, s) && eval(*right, s));
        proof {
            if !self.failed() {
                self.lemma_live_present(target.0);
            }
        }
        if left.is_const(false) || right.is_const(false) {
            proof {
                self.lemma_step_refl();
                assert(added(self.emitted(), self.emitted()) =~= Seq::<Op>::empty());
                assert forall|s: spec_fn(u64) -> bool| zero_on(s, p0) implies #[trigger] run(
                    Seq::<Op>::empty(),
                    s,
                ) == want(s) by {
                    assert(flip(s, target.0, false) =~= s);
                }
            }
            return;
        }
        if left.is_const(true) {
            self.xor_signal_into(right, target);
            proof {
                if !self.failed() {
                    lemma_effect_conseq(
                        added(old(self).emitted(), self.emitted()),
                        p0,
                        |s: spec_fn(u64) -> bool| flip(s, target.0, eval(*right, s)),
                        want,
                    );
                    lemma_ops_within_mono(
                        added(old(self).emitted(), self.emitted()),
                        support(*right).insert(target.0) + p0,
                        allowed + p0,
                    );
                }
            }
            return;
        }
        if right.is_const(true) {
            self.xor_signal_into(left, target);
            proof {
                if !self.failed() {
                    lemma_effect_conseq(
                        added(old(self).emitted(), self.emitted()),
                        p0,
                        |s: spec_fn(u64) -> bool| flip(s, target.0, eval(*left, s)),
                        want,
                    );
                    lemma_ops_within_mono(
                        added(old(self).emitted(), self.emitted()),
                        support(*left).insert(target.0) + p0,
                        allowed + p0,
                    );
                }
            }
            return;
        }
        match (&left.0, &right.0) {
            (SignalKind::Qubit(a), SignalKind::Qubit(b)) => {
                proof {
                    if !self.failed() {
                        assert(support(*left).contains(a.0));
                        assert(support(*right).contains(b.0));
                        self.lemma_live_present(a.0);
                        self.lemma_live_present(b.0);
                    }
                }
                if a.0 == b.0 {
                    self.push_cx(*a, target);
                    proof {
                        if !self.failed() {
                            lemma_effect_conseq(
                                added(old(self).emitted(), self.emitted()),
                                Set::empty(),
                                |s: spec_fn(u64) -> bool| flip(s, target.0, s(a.0)),
                                want,
                            );
                            assert forall|s: spec_fn(u64) -> bool| zero_on(s, p0) implies #[trigger] run(
                                added(old(self).emitted(), self.emitted()),
                                s,
                            ) == want(s) by {
                                assert(zero_on(s, Set::empty()));
                            }
                        }
                    }
                } else {
                    self.push_ccx(*a, *b, target);
                    proof {
                        if !self.failed() {
                            assert forall|s: spec_fn(u64) -> bool| zero_on(s, p0) implies #[trigger] run(
                                added(old(self).emitted(), self.emitted()),
                                s,
                            ) == want(s) by {
                                assert(zero_on(s, Set::empty()));
                            }
                        }
                    }
                }
            },
            (SignalKind::Qubit(a), _) => {
                proof {
                    if !self.failed() {
                        assert(support(*left).contains(a.0));
                        self.lemma_live_present(a.0);
                    }
                }
                self.xor_and_qubit_into(*a, left, right, target);
            },
            (_, SignalKind::Qubit(a)) => {
                proof {
                    if !self.failed() {
                        assert(support(*right).contains(a.0));
                        self.lemma_live_present(a.0);
                    }
                }
                let ghost before = *self;
                self.xor_and_qubit_into(*a, right, left, target);
                proof {
                    if !self.failed() {
                        assert((support(*right) + support(*left)).insert(target.0) =~= allowed);
                        lemma_effect_conseq(
                            added(before.emitted(), self.emitted()),
                            p0,
                            |s: spec_fn(u64) -> bool| flip(s, target.0, eval(*right, s) && eval(*left, s)),
                            want,
                        );
                    }
                }
            },
            _ => {
                self.xor_and_compound_into(left, right, target);
            },
        }
    }
}

/// Running what three nested extensions add runs the two parts in turn.
pub proof fn lemma_run_steps(a: Seq<Op>, b: Seq<Op>, c: Seq<Op>, s: spec_fn(u64) -> bool)
    requires
        extends(a, b),
        extends(b, c),
    ensures
        run(added(a, c), s) == run(added(b, c), run(added(a, b), s)),
{
    lemma_extends_trans(a, b, c);
    lemma_run_append(added(a, b), added(b, c), s);
}

/// What an extension adds when it adds nothing.
pub proof fn lemma_added_none(a: Seq<Op>)
    ensures
        added(a, a) == Seq::<Op>::empty(),
        extends(a, a),
{
    assert(added(a, a) =~= Seq::<Op>::empty());
    assert(a.subrange(0, a.len() as int) =~= a);
}

/// The operands of two streams lie in a set when those of each do.
pub proof fn lemma_ops_within_concat(a: Seq<Op>, b: Seq<Op>, x: Set<u64>)
    requires
        ops_within(a, x),
        ops_within(b, x),
    ensures
        ops_within(a + b, x),
{
    assert forall|i: int| 0 <= i < (a + b).len() implies #[trigger] op_qubits((a + b)[i]).subset_of(x) by {
        if i < a.len() {
            assert((a + b)[i] == a[i]);
        } else {
            assert((a + b)[i] == b[i - a.len()]);
        }
    }
}

/// Widening the set keeps the operands within it.
pub proof fn lemma_ops_within_mono(a: Seq<Op>, x: Set<u64>, y: Set<u64>)
    requires
        ops_within(a, x),
        x.subset_of(y),
    ensures
        ops_within(a, y),
{
    assert forall|i: int| 0 <= i < a.len() implies #[trigger] op_qubits(a[i]).subset_of(y) by {
        assert(op_qubits(a[i]).subset_of(x));
    }
}

impl<S: OpSink> Builder<S> {
    /// XORs `q & other` into `target` for a qubit `q`: `other` is computed
    /// into a scratch qubit, used as the second control, and uncomputed.
    fn xor_and_qubit_into(&mut self, q: QubitId, qsig: &Signal, other: &Signal, target: QubitId)
        requires
            old(self).wf(),
            *qsig == Signal(SignalKind::Qubit(q)),
            !old(self).failed() ==> xor_target_ok(old(self).pool(), *qsig, target.0)
                && xor_target_ok(old(self).pool(), *other, target.0),
        ensures
            old(self).pure_step(final(self), (support(*qsig) + support(*other)).insert(target.0)),
            !final(self).failed() ==> effect(
                added(old(self).emitted(), final(self).emitted()),
                old(self).pool(),
                |s: spec_fn(u64) -> bool| flip(s, target.0, eval(*qsig, s) && eval(*other, s)),
            ),
        decreases vstd::math::max(height(*qsig) as int, height(*other) as int) + 1, 0nat,
    {
        let ghost p0 = self.pool();
        let ghost allowed = (support(*qsig) + support(*other)).insert(target.0);
        let ghost st0 = *self;
        proof {
            assert(support(*qsig) == set![q.0]);
            if !self.failed() {
                self.lemma_live_present(target.0);
                self.lemma_live_present(q.0);
            }
        }
        let scratch_q = self.scratch();
        let ghost st1 = *self;
        self.xor_signal_into(other, scratch_q);
        let ghost st2 = *self;
        self.push_ccx(q, scratch_q, target);
        let ghost st3 = *self;
        self.xor_signal_into(other, scratch_q);
        let ghost st4 = *self;
        self.release_scratch(scratch_q);
        proof {
            Self::lemma_step_trans(&st0, &st1, &st2);
            Self::lemma_step_trans(&st0, &st2, &st3);
            Self::lemma_step_trans(&st0, &st3, &st4);
            Self::lemma_step_trans(&st0, &st4, self);
            if !self.failed() {
                let sq = scratch_q.0;
                let p1 = p0.remove(sq);
                assert(st1.pool() == p1);
                assert(st4.pool() == p1);
                assert(self.pool() =~= p0);
                lemma_added_none(st0.emitted());
                lemma_added_none(st4.emitted());
                let a = added(st1.emitted(), st2.emitted());
                let b = added(st2.emitted(), st3.emitted());
                let c = added(st3.emitted(), st4.emitted());
                assert(added(st0.emitted(), self.emitted()) == a + b + c) by {
                    lemma_extends_trans(st0.emitted(), st1.emitted(), st2.emitted());
                    lemma_extends_trans(st0.emitted(), st2.emitted(), st3.emitted());
                    lemma_extends_trans(st0.emitted(), st3.emitted(), st4.emitted());
                    lemma_extends_trans(st0.emitted(), st4.emitted(), self.emitted());
                }
                assert(ops_within(a + b + c, allowed + p0)) by {
                    lemma_ops_within_mono(a, support(*other).insert(sq) + p1, allowed + p0);
                    lemma_ops_within_mono(b, set![q.0, sq, target.0], allowed + p0);
                    lemma_ops_within_mono(c, support(*other).insert(sq) + p1, allowed + p0);
                    lemma_ops_within_concat(a, b, allowed + p0);
                    lemma_ops_within_concat(a + b, c, allowed + p0);
                }
                assert forall|s: spec_fn(u64) -> bool| zero_on(s, p0) implies #[trigger] run(
                    added(st0.emitted(), self.emitted()),
                    s,
                ) == flip(s, target.0, eval(*qsig, s) && eval(*other, s)) by {
                    lemma_run_append(a + b, c, s);
                    lemma_run_append(a, b, s);
                    let o = eval(*other, s);
                    assert(zero_on(s, p1));
                    let s1 = run(a, s);
                    assert(s1 == flip(s, sq, eval(*other, s)));
                    let s2 = run(b, s1);
                    assert(s2 == flip(s1, target.0, s1(q.0) && s1(sq)));
                    assert(zero_on(s2, p1));
                    let s3 = run(c, s2);
                    assert(s3 == flip(s2, sq, eval(*other, s2)));
                    crate::shor_oracle::signal::lemma_eval_frame(*other, s2, s);
                    assert(s3 =~= flip(s, target.0, eval(*qsig, s) && o));
                }
            }
        }
    }

    /// XORs `left & right` into `target` for two compound signals: each is
    /// computed into a scratch qubit, the conjunction is applied, and both are
    /// uncomputed in reverse order.
    fn xor_and_compound_into(&mut self, left: &Signal, right: &Signal, target: QubitId)
        requires
            old(self).wf(),
            !old(self).failed() ==> xor_target_ok(old(self).pool(), *left, target.0)
                && xor_target_ok(old(self).pool(), *right, target.0),
        ensures
            old(self).pure_step(final(self), (support(*left) + support(*right)).insert(target.0)),
            !final(self).failed() ==> effect(
                added(old(self).emitted(), final(self).emitted()),
                old(self).pool(),
                |s: spec_fn(u64) -> bool| flip(s, target.0, eval(*left, s) && eval(*right, s)),
            ),
        decreases vstd::math::max(height(*left) as int, height(*right) as int) + 1, 0nat,
    {
        let ghost p0 = self.pool();
        let ghost allowed = (support(*left) + support(*right)).insert(target.0);
        let ghost st0 = *self;
        proof {
            if !self.failed() {
                self.lemma_live_present(target.0);
            }
        }
        let left_q = self.scratch();
        let ghost st1 = *self;
        self.xor_signal_into(left, left_q);
        let ghost st2 = *self;
        let right_q = self.scratch();
        let ghost st3 = *self;
        self.xor_signal_into(right, right_q);
        let ghost st4 = *self;
        self.push_ccx(left_q, right_q, target);
        let ghost st5 = *self;
        self.xor_signal_into(right, right_q);
        let ghost st6 = *self;
        self.release_scratch(right_q);
        let ghost st7 = *self;
        self.xor_signal_into(left, left_q);
        let ghost st8 = *self;
        self.release_scratch(left_q);
        proof {
            Self::lemma_step_trans(&st0, &st1, &st2);
            Self::lemma_step_trans(&st0, &st2, &st3);
            Self::lemma_step_trans(&st0, &st3, &st4);
            Self::lemma_step_trans(&st0, &st4, &st5);
            Self::lemma_step_trans(&st0, &st5, &st6);
            Self::lemma_step_trans(&st0, &st6, &st7);
            Self::lemma_step_trans(&st0, &st7, &st8);
            Self::lemma_step_trans(&st0, &st8, self);
            if !self.failed() {
                let lq = left_q.0;
                let rq = right_q.0;
                let p1 = p0.remove(lq);
                let p2 = p1.remove(rq);
                assert(st2.pool() == p1);
                assert(st3.pool() == p2);
                assert(st7.pool() =~= p1);
                assert(self.pool() =~= p0);
                lemma_added_none(st0.emitted());
                lemma_added_none(st2.emitted());
                lemma_added_none(st6.emitted());
                lemma_added_none(st8.emitted());
                let a = added(st1.emitted(), st2.emitted());
                let b = added(st3.emitted(), st4.emitted());
                let c = added(st4.emitted(), st5.emitted());
                let d = added(st5.emitted(), st6.emitted());
                let e = added(st7.emitted(), st8.emitted());
                assert(added(st0.emitted(), self.emitted()) == a + b + c + d + e) by {
                    lemma_extends_trans(st0.emitted(), st1.emitted(), st2.emitted());
                    lemma_extends_trans(st0.emitted(), st2.emitted(), st3.emitted());
                    lemma_extends_trans(st0.emitted(), st3.emitted(), st4.emitted());
                    lemma_extends_trans(st0.emitted(), st4.emitted(), st5.emitted());
                    lemma_extends_trans(st0.emitted(), st5.emitted(), st6.emitted());
                    lemma_extends_trans(st0.emitted(), st6.emitted(), st7.emitted());
                    lemma_extends_trans(st0.emitted(), st7.emitted(), st8.emitted());
                    lemma_extends_trans(st0.emitted(), st8.emitted(), self.emitted());
                }
                let x = allowed + p0;
                assert(ops_within(a + b + c + d + e, x)) by {
                    lemma_ops_within_mono(a, support(*left).insert(lq) + p1, x);
                    lemma_ops_within_mono(b, support(*right).insert(rq) + p2, x);
                    lemma_ops_within_mono(c, set![lq, rq, target.0], x);
                    lemma_ops_within_mono(d, support(*right).insert(rq) + p2, x);
                    lemma_ops_within_mono(e, support(*left).insert(lq) + p1, x);
                    lemma_ops_within_concat(a, b, x);
                    lemma_ops_within_concat(a + b, c, x);
                    lemma_ops_within_concat(a + b + c, d, x);
                    lemma_ops_within_concat(a + b + c + d, e, x);
                }
                assert forall|s: spec_fn(u64) -> bool| zero_on(s, p0) implies #[trigger] run(
                    added(st0.emitted(), self.emitted()),
                    s,
                ) == flip(s, target.0, eval(*left, s) && eval(*right, s)) by {
                    lemma_run_append(a + b + c + d, e, s);
                    lemma_run_append(a + b + c, d, s);
                    lemma_run_append(a + b, c, s);
                    lemma_run_append(a, b, s);
                    let l = eval(*left, s);
                    let r = eval(*right, s);
                    assert(zero_on(s, p1));
                    let s1 = run(a, s);
                    assert(s1 == flip(s, lq, l));
                    assert(zero_on(s1, p2));
                    let s2 = run(b, s1);
                    assert(s2 == flip(s1, rq, eval(*right, s1)));
                    crate::shor_oracle::signal::lemma_eval_frame(*right, s1, s);
                    let s3 = run(c, s2);
                    assert(s3 == flip(s2, target.0, s2(lq) && s2(rq)));
                    assert(zero_on(s3, p2));
                    let s4 = run(d, s3);
                    assert(s4 == flip(s3, rq, eval(*right, s3)));
                    crate::shor_oracle::signal::lemma_eval_frame(*right, s3, s);
                    assert(zero_on(s4, p1));
                    let s5 = run(e, s4);
                    assert(s5 == flip(s4, lq, eval(*left, s4)));
                    crate::shor_oracle::signal::lemma_eval_frame(*left, s4, s);
                    assert(s5 =~= flip(s, target.0, l && r));
                }
            }
        }
    }
}

impl<S: OpSink> Builder<S> {
    /// XORs the carry out of a full adder, `l&r ^ c&(l^r)`, into `target`.
    pub(crate) fn xor_carry_out_into(&mut self, left: &Signal, right: &Signal, carry_in: &Signal, target: QubitId)
        requires
            old(self).wf(),
            !old(self).failed() ==> xor_target_ok(old(self).pool(), *left, target.0)
                && xor_target_ok(old(self).pool(), *right, target.0) && xor_target_ok(
                old(self).pool(),
                *carry_in,
                target.0,
            ),
        ensures
            old(self).pure_step(
                final(self),
                (support(*left) + support(*right) + support(*carry_in)).insert(target.0),
            ),
            !final(self).failed() ==> effect(
                added(old(self).emitted(), final(self).emitted()),
                old(self).pool(),
                |s: spec_fn(u64) -> bool|
                    flip(
                        s,
                        target.0,
                        (eval(*left, s) && eval(*right, s)) != (eval(*carry_in, s) && (eval(*left, s)
                            != eval(*right, s))),
                    ),
            ),
    {
        let ghost p0 = self.pool();
        let ghost allowed = (support(*left) + support(*right) + support(*carry_in)).insert(target.0);
        let ghost st0 = *self;
        self.xor_and_into(left, right, target);
        let ghost st1 = *self;
        let left_xor_right = self.xor(left.dup(), right.dup());
        let ghost st2 = *self;
        self.xor_and_into(carry_in, &left_xor_right, target);
        proof {
            Self::lemma_pure_step_widen(&st0, &st1, (support(*left) + support(*right)).insert(target.0), allowed);
            Self::lemma_pure_step_widen(&st2, self, (support(*carry_in) + support(left_xor_right)).insert(target.0), allowed);
            Self::lemma_pure_step_trans(&st0, &st1, self, allowed);
            if !self.failed() {
                let a = added(st0.emitted(), st1.emitted());
                let b = added(st1.emitted(), self.emitted());
                assert forall|s: spec_fn(u64) -> bool| zero_on(s, p0) implies #[trigger] run(
                    added(st0.emitted(), self.emitted()),
                    s,
                ) == flip(
                    s,
                    target.0,
                    (eval(*left, s) && eval(*right, s)) != (eval(*carry_in, s) && (eval(*left, s)
                        != eval(*right, s))),
                ) by {
                    lemma_run_steps(st0.emitted(), st1.emitted(), self.emitted(), s);
                    let s1 = run(a, s);
                    assert(s1 == flip(s, target.0, eval(*left, s) && eval(*right, s)));
                    assert(zero_on(s1, p0));
                    crate::shor_oracle::signal::lemma_eval_frame(*carry_in, s1, s);
                    crate::shor_oracle::signal::lemma_eval_frame(*left, s1, s);
                    crate::shor_oracle::signal::lemma_eval_frame(*right, s1, s);
                    assert(run(b, s1) =~= flip(
                        s,
                        target.0,
                        (eval(*left, s) && eval(*right, s)) != (eval(*carry_in, s) && (eval(*left, s)
                            != eval(*right, s))),
                    ));
                }
            }
        }
    }

    /// XORs the sum bit of a full adder, `l ^ r ^ c`, into `target`.
    pub(crate) fn xor_sum_bit_into(&mut self, left: &Signal, right: &Signal, carry_in: &Signal, target: QubitId)
        requires
            old(self).wf(),
            !old(self).failed() ==> xor_target_ok(old(self).pool(), *left, target.0)
                && xor_target_ok(old(self).pool(), *right, target.0) && xor_target_ok(
                old(self).pool(),
                *carry_in,
                target.0,
            ),
        ensures
            old(self).pure_step(
                final(self),
                (support(*left) + support(*right) + support(*carry_in)).insert(target.0),
            ),
            !final(self).failed() ==> effect(
                added(old(self).emitted(), final(self).emitted()),
                old(self).pool(),
                |s: spec_fn(u64) -> bool|
                    flip(s, target.0, (eval(*left, s) != eval(*right, s)) != eval(*carry_in, s)),
            ),
    {
        let ghost p0 = self.pool();
        let ghost allowed = (support(*left) + support(*right) + support(*carry_in)).insert(target.0);
        let ghost st0 = *self;
        self.xor_signal_into(left, target);
        let ghost st1 = *self;
        self.xor_signal_into(right, target);
        let ghost st2 = *self;
        self.xor_signal_into(carry_in, target);
        proof {
            Self::lemma_pure_step_widen(&st0, &st1, support(*left).insert(target.0), allowed);
            Self::lemma_pure_step_widen(&st1, &st2, support(*right).insert(target.0), allowed);
            Self::lemma_pure_step_widen(&st2, self, support(*carry_in).insert(target.0), allowed);
            Self::lemma_pure_step_trans(&st0, &st1, &st2, allowed);
            Self::lemma_pure_step_trans(&st0, &st2, self, allowed);
            if !self.failed() {
                let a = added(st0.emitted(), st1.emitted());
                let b = added(st1.emitted(), st2.emitted());
                let c = added(st2.emitted(), self.emitted());
                assert forall|s: spec_fn(u64) -> bool| zero_on(s, p0) implies #[trigger] run(
                    added(st0.emitted(), self.emitted()),
                    s,
                ) == flip(s, target.0, (eval(*left, s) != eval(*right, s)) != eval(*carry_in, s)) by {
                    lemma_run_steps(st0.emitted(), st2.emitted(), self.emitted(), s);
                    lemma_run_steps(st0.emitted(), st1.emitted(), st2.emitted(), s);
                    let s1 = run(a, s);
                    assert(zero_on(s1, p0));
                    let s2 = run(b, s1);
                    assert(zero_on(s2, p0));
                    crate::shor_oracle::signal::lemma_eval_frame(*right, s1, s);
                    crate::shor_oracle::signal::lemma_eval_frame(*carry_in, s2, s);
                    assert(run(c, s2) =~= flip(
                        s,
                        target.0,
                        (eval(*left, s) != eval(*right, s)) != eval(*carry_in, s),
                    ));
                }
            }
        }
    }
}

/// `s` with `targets[i]` flipped by the value in `s` of `sigs[i]`, for each
/// `i < n`.
pub open spec fn xor_each(s: spec_fn(u64) -> bool, targets: Seq<QubitId>, sigs: Seq<Signal>, n: nat) -> spec_fn(
    u64,
) -> bool
    decreases n,
{
    if n == 0 {
        s
    } else {
        flip(xor_each(s, targets, sigs, (n - 1) as nat), targets[n - 1].0, eval(sigs[n - 1], s))
    }
}

/// `xor_each` changes only the first `n` targets.
pub proof fn lemma_xor_each_outside(s: spec_fn(u64) -> bool, targets: Seq<QubitId>, sigs: Seq<Signal>, n: nat, q: u64)
    requires
        forall|i: int| 0 <= i < n ==> (#[trigger] targets[i]).0 != q,
    ensures
        xor_each(s, targets, sigs, n)(q) == s(q),
    decreases n,
{
    if n > 0 {
        lemma_xor_each_outside(s, targets, sigs, (n - 1) as nat, q);
    }
}

/// With distinct targets, target `j < n` ends flipped by its signal.
pub proof fn lemma_xor_each_at(s: spec_fn(u64) -> bool, targets: Seq<QubitId>, sigs: Seq<Signal>, n: nat, j: int)
    requires
        0 <= j < n,
        n <= targets.len(),
        distinct_qubits(targets),
    ensures
        xor_each(s, targets, sigs, n)(targets[j].0) == (s(targets[j].0) != eval(sigs[j], s)),
    decreases n,
{
    if j < n - 1 {
        lemma_xor_each_at(s, targets, sigs, (n - 1) as nat, j);
        assert(targets[n - 1] != targets[j]);
    } else {
        assert forall|i: int| 0 <= i < n - 1 implies (#[trigger] targets[i]).0 != targets[j].0 by {
            assert(targets[i] != targets[j]);
        }
        lemma_xor_each_outside(s, targets, sigs, (n - 1) as nat, targets[j].0);
    }
}

/// Signals can be XORed into distinct live targets they do not read.
pub open spec fn xor_targets_ok(pool: Set<u64>, sigs: Seq<Signal>, targets: Seq<QubitId>, n: nat) -> bool {
    &&& n <= sigs.len()
    &&& n <= targets.len()
    &&& distinct_qubits(targets.subrange(0, n as int))
    &&& forall|i: int| 0 <= i < n ==> !pool.contains(#[trigger] targets[i].0)
    &&& forall|i: int, j: int| 0 <= i < n && 0 <= j < n ==> !support(#[trigger] sigs[i]).contains(#[trigger] targets[j].0)
    &&& forall|i: int| 0 <= i < n ==> support(#[trigger] sigs[i]).disjoint(pool)
}

impl<S: OpSink> Builder<S> {
    /// XORs each signal into the target at the same position, over the
    /// shorter of the two sequences.
    pub(crate) fn copy_bits_ops(&mut self, signals: &[Signal], targets: &[QubitId])
        requires
            old(self).wf(),
            !old(self).failed() ==> xor_targets_ok(
                old(self).pool(),
                signals@,
                targets@,
                vstd::math::min(signals@.len() as int, targets@.len() as int) as nat,
            ),
        ensures
            old(self).pure_step(final(self), supports(signals@) + qubit_set(targets@)),
            !final(self).failed() ==> effect(
                added(old(self).emitted(), final(self).emitted()),
                old(self).pool(),
                |s: spec_fn(u64) -> bool|
                    xor_each(
                        s,
                        targets@,
                        signals@,
                        vstd::math::min(signals@.len() as int, targets@.len() as int) as nat,
                    ),
            ),
    {
        let n = if signals.len() < targets.len() {
            signals.len()
        } else {
            targets.len()
        };
        let ghost p0 = self.pool();
        let ghost allowed = supports(signals@) + qubit_set(targets@);
        let ghost st0 = *self;
        let mut i: usize = 0;
        proof {
            self.lemma_step_refl();
            lemma_added_none(self.emitted());
        }
        while i < n
            invariant
                0 <= i <= n,
                n == vstd::math::min(signals@.len() as int, targets@.len() as int),
                st0 == *old(self),
                p0 == old(self).pool(),
                allowed == supports(signals@) + qubit_set(targets@),
                !old(self).failed() ==> xor_targets_ok(p0, signals@, targets@, n as nat),
                old(self).pure_step(self, allowed),
                !self.failed() ==> effect(
                    added(old(self).emitted(), self.emitted()),
                    p0,
                    |s: spec_fn(u64) -> bool| xor_each(s, targets@, signals@, i as nat),
                ),
            decreases n - i,
        {
            let ghost mid = *self;
            proof {
                if !self.failed() {
                    assert(!support(signals@[i as int]).contains(targets@[i as int].0));
                }
            }
            self.xor_signal_into(&signals[i], targets[i]);
            proof {
                assert(support(signals@[i as int]).subset_of(supports(signals@))) by {
                    crate::shor_oracle::signal::lemma_supports(signals@);
                }
                assert(qubit_set(targets@).contains(targets@[i as int].0));
                Self::lemma_pure_step_widen(&mid, self, support(signals@[i as int]).insert(targets@[i as int].0), allowed);
                Self::lemma_pure_step_trans(old(self), &mid, self, allowed);
                if !self.failed() {
                    let a = added(old(self).emitted(), mid.emitted());
                    let b = added(mid.emitted(), self.emitted());
                    assert forall|s: spec_fn(u64) -> bool| zero_on(s, p0) implies #[trigger] run(
                        added(old(self).emitted(), self.emitted()),
                        s,
                    ) == xor_each(s, targets@, signals@, (i + 1) as nat) by {
                        lemma_run_steps(old(self).emitted(), mid.emitted(), self.emitted(), s);
                        let s1 = run(a, s);
                        assert(s1 == xor_each(s, targets@, signals@, i as nat));
                        assert(zero_on(s1, p0)) by {
                            assert forall|q: u64| p0.contains(q) implies !s1(q) by {
                                lemma_xor_each_outside(s, targets@, signals@, i as nat, q);
                            }
                        }
                        assert forall|q: u64| support(signals@[i as int]).contains(q) implies s1(q) == s(q) by {
                            assert forall|j: int| 0 <= j < i implies (#[trigger] targets@[j]).0 != q by {
                                assert(!support(signals@[i as int]).contains(targets@[j].0));
                            }
                            lemma_xor_each_outside(s, targets@, signals@, i as nat, q);
                        }
                        crate::shor_oracle::signal::lemma_eval_frame(signals@[i as int], s1, s);
                    }
                }
            }
            i = i + 1;
        }
    }

    /// XORs each source qubit into the target qubit at the same position.
    pub fn xor_bits_into(&mut self, source: &[QubitId], target: &[QubitId])
        requires
            old(self).wf(),
        ensures
            old(self).step(final(self)),
            final(self).pool() == old(self).pool(),
            ops_within(added(old(self).emitted(), final(self).emitted()), qubit_set(source@) + qubit_set(target@)),
            !final(self).failed() && copy_qubits_ok(source@, target@) ==> effect(
                added(old(self).emitted(), final(self).emitted()),
                Set::empty(),
                |s: spec_fn(u64) -> bool| xor_qubits(s, source@, target@, copy_width(source@, target@)),
            ),
    {
        let n = if source.len() < target.len() {
            source.len()
        } else {
            target.len()
        };
        let mut i: usize = 0;
        proof {
            self.lemma_step_refl();
            lemma_added_none(self.emitted());
        }
        while i < n
            invariant
                0 <= i <= n,
                n == copy_width(source@, target@),
                n <= source@.len(),
                n <= target@.len(),
                old(self).step(self),
                self.pool() == old(self).pool(),
                ops_within(added(old(self).emitted(), self.emitted()), qubit_set(source@) + qubit_set(target@)),
                !self.failed() && copy_qubits_ok(source@, target@) ==> effect(
                    added(old(self).emitted(), self.emitted()),
                    Set::empty(),
                    |s: spec_fn(u64) -> bool| xor_qubits(s, source@, target@, i as nat),
                ),
            decreases n - i,
        {
            let ghost mid = *self;
            self.push_cx(source[i], target[i]);
            proof {
                Self::lemma_step_trans(old(self), &mid, self);
                assert(qubit_set(source@).contains(source@[i as int].0));
                assert(qubit_set(target@).contains(target@[i as int].0));
                lemma_ops_within_mono(added(mid.emitted(), self.emitted()), set![source@[i as int].0, target@[i as int].0], qubit_set(source@) + qubit_set(target@));
                lemma_ops_within_concat(added(old(self).emitted(), mid.emitted()), added(mid.emitted(), self.emitted()), qubit_set(source@) + qubit_set(target@));
                if !self.failed() && copy_qubits_ok(source@, target@) {
                    assert(source@[i as int] != target@[i as int]);
                    assert forall|s: spec_fn(u64) -> bool| zero_on(s, Set::empty()) implies #[trigger] run(
                        added(old(self).emitted(), self.emitted()),
                        s,
                    ) == xor_qubits(s, source@, target@, (i + 1) as nat) by {
                        lemma_run_steps(old(self).emitted(), mid.emitted(), self.emitted(), s);
                        let cur = xor_qubits(s, source@, target@, i as nat);
                        assert(run(added(old(self).emitted(), mid.emitted()), s) == cur);
                        assert forall|j: int| 0 <= j < i implies (#[trigger] target@[j]).0 != source@[i as int].0 by {
                            assert(source@[i as int] != target@[j]);
                        }
                        lemma_xor_qubits_outside(s, source@, target@, i as nat, source@[i as int].0);
                    }
                }
            }
            i = i + 1;
        }
    }
}

/// How many positions a copy between two qubit sequences covers.
pub open spec fn copy_width(source: Seq<QubitId>, target: Seq<QubitId>) -> nat {
    if source.len() < target.len() {
        source.len()
    } else {
        target.len()
    }
}

/// Over the copied positions, the targets are distinct and no source is a
/// target.
pub open spec fn copy_qubits_ok(source: Seq<QubitId>, target: Seq<QubitId>) -> bool {
    let n = copy_width(source, target) as int;
    &&& forall|i: int, j: int| 0 <= i < j < n ==> target[i] != target[j]
    &&& forall|i: int, j: int| 0 <= i < n && 0 <= j < n ==> source[i] != target[j]
}

/// `s` with `target[i]` flipped by the value in `s` of `source[i]`, for each
/// `i < n`.
pub open spec fn xor_qubits(s: spec_fn(u64) -> bool, source: Seq<QubitId>, target: Seq<QubitId>, n: nat) -> spec_fn(
    u64,
) -> bool
    decreases n,
{
    if n == 0 {
        s
    } else {
        flip(xor_qubits(s, source, target, (n - 1) as nat), target[n - 1].0, s(source[n - 1].0))
    }
}

/// `xor_qubits` changes only the first `n` targets.
pub proof fn lemma_xor_qubits_outside(s: spec_fn(u64) -> bool, source: Seq<QubitId>, target: Seq<QubitId>, n: nat, q: u64)
    requires
        forall|i: int| 0 <= i < n ==> (#[trigger] target[i]).0 != q,
    ensures
        xor_qubits(s, source, target, n)(q) == s(q),
    decreases n,
{
    if n > 0 {
        assert(target[n - 1].0 != q);
        lemma_xor_qubits_outside(s, source, target, (n - 1) as nat, q);
    }
}

/// Whether an operation is one a builder emits: a well-formed X, CX, CCX or
/// Swap gate, or a register declaration.
pub fn is_reversible(op: &Op) -> (r: bool)
    ensures
        r == is_reversible_op(*op),
{
    let kind_ok = match op.kind {
        OperationType::X | OperationType::CX | OperationType::CCX | OperationType::Swap
        | OperationType::AppendToRegister | OperationType::Register => true,
        _ => false,
    };
    kind_ok && op.is_valid()
}

/// No qubit occurs twice.
pub open spec fn distinct_qubits(qs: Seq<QubitId>) -> bool {
    forall|i: int, j: int| 0 <= i < j < qs.len() ==> qs[i] != qs[j]
}

/// The ids of a sequence of qubits.
pub open spec fn qubit_set(qs: Seq<QubitId>) -> Set<u64> {
    Set::new(|x: u64| exists|i: int| 0 <= i < qs.len() && (#[trigger] qs[i]).0 == x)
}

pub proof fn lemma_qubit_set_push(qs: Seq<QubitId>, q: QubitId)
    ensures
        qubit_set(qs.push(q)) == qubit_set(qs).insert(q.0),
{
    assert forall|x: u64| #[trigger] qubit_set(qs.push(q)).contains(x) == qubit_set(qs).insert(q.0).contains(x) by {
        if qubit_set(qs.push(q)).contains(x) {
            let i = choose|i: int| 0 <= i < qs.push(q).len() && (#[trigger] qs.push(q)[i]).0 == x;
            if i < qs.len() {
                assert(qs[i] == qs.push(q)[i]);
            }
        }
        if qubit_set(qs).contains(x) {
            let i = choose|i: int| 0 <= i < qs.len() && (#[trigger] qs[i]).0 == x;
            assert(qs.push(q)[i] == qs[i]);
        }
        if x == q.0 {
            assert(qs.push(q)[qs.len() as int] == q);
        }
    }
    assert(qubit_set(qs.push(q)) =~= qubit_set(qs).insert(q.0));
}

} // verus!
