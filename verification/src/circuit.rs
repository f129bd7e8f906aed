//! Primitive circuit operations: wire identifiers, operation kinds, the
//! operation record, its well-formedness rule, and the register layout that an
//! operation stream declares.
use vstd::prelude::*;

verus! {

/// The identifier value that marks an unused operand slot.
pub const NO_INDEX: u64 = 0xffff_ffff_ffff_ffff;

/// A qubit wire.
#[derive(Clone, Copy, Debug, PartialEq, Eq, Structural, Hash)]
pub struct QubitId(pub u64);

/// A classical bit wire.
#[derive(Clone, Copy, Debug, PartialEq, Eq, Structural, Hash)]
pub struct BitId(pub u64);

/// A register identifier.
#[derive(Clone, Copy, Debug, PartialEq, Eq, Structural, Hash)]
pub struct RegisterId(pub u64);

impl QubitId {
    /// The qubit operand that marks an unused slot.
    pub fn none() -> (q: QubitId)
        ensures
            q.0 == NO_INDEX,
    {
        QubitId(NO_INDEX)
    }
}

impl BitId {
    /// The bit operand that marks an unused slot.
    pub fn none() -> (b: BitId)
        ensures
            b.0 == NO_INDEX,
    {
        BitId(NO_INDEX)
    }
}

impl RegisterId {
    /// The register operand that marks an unused slot.
    pub fn none() -> (r: RegisterId)
        ensures
            r.0 == NO_INDEX,
    {
        RegisterId(NO_INDEX)
    }
}

/// One wire of a declared register.
#[derive(Clone, Copy, Debug, PartialEq, Eq, Structural)]
pub enum QubitOrBit {
    Qubit(QubitId),
    Bit(BitId),
}

/// The kinds of primitive operation.
#[derive(Clone, Copy, Debug, PartialEq, Eq, Structural, Hash)]
pub enum OperationType {
    Neg,
    Register,
    AppendToRegister,
    BitInvert,
    BitStore0,
    BitStore1,
    X,
    Z,
    CX,
    CZ,
    Swap,
    R,
    Hmr,
    CCX,
    CCZ,
    PushCondition,
    PopCondition,
    DebugPrint,
}

/// The wire code of each operation kind.
pub open spec fn kind_code_spec(kind: OperationType) -> u32 {
    match kind {
        OperationType::Neg => 0,
        OperationType::Register => 1,
        OperationType::AppendToRegister => 2,
        OperationType::BitInvert => 3,
        OperationType::BitStore0 => 4,
        OperationType::BitStore1 => 5,
        OperationType::X => 6,
        OperationType::Z => 7,
        OperationType::CX => 8,
        OperationType::CZ => 9,
        OperationType::Swap => 10,
        OperationType::R => 11,
        OperationType::Hmr => 12,
        OperationType::CCX => 13,
        OperationType::CCZ => 14,
        OperationType::PushCondition => 15,
        OperationType::PopCondition => 16,
        OperationType::DebugPrint => 17,
    }
}

/// Returns the wire code of an operation kind.
pub fn kind_code(kind: OperationType) -> (code: u32)
    ensures
        code == kind_code_spec(kind),
        code < 18,
{
    match kind {
        OperationType::Neg => 0,
        OperationType::Register => 1,
        OperationType::AppendToRegister => 2,
        OperationType::BitInvert => 3,
        OperationType::BitStore0 => 4,
        OperationType::BitStore1 => 5,
        OperationType::X => 6,
        OperationType::Z => 7,
        OperationType::CX => 8,
        OperationType::CZ => 9,
        OperationType::Swap => 10,
        OperationType::R => 11,
        OperationType::Hmr => 12,
        OperationType::CCX => 13,
        OperationType::CCZ => 14,
        OperationType::PushCondition => 15,
        OperationType::PopCondition => 16,
        OperationType::DebugPrint => 17,
    }
}

/// One primitive operation. Unused operand slots hold `NO_INDEX`.
#[derive(Clone, Copy, Debug, PartialEq, Eq, Structural)]
pub struct Op {
    pub kind: OperationType,
    pub q_control2: QubitId,
    pub q_control1: QubitId,
    pub q_target: QubitId,
    pub c_target: BitId,
    pub c_condition: BitId,
    pub r_target: RegisterId,
}

/// Whether an operand slot holds a wire.
pub open spec fn present(id: u64) -> bool {
    id != NO_INDEX
}

/// The operation in which every operand slot is unused (a debug no-op).
pub open spec fn empty_op() -> Op {
    Op {
        kind: OperationType::DebugPrint,
        q_control2: QubitId(NO_INDEX),
        q_control1: QubitId(NO_INDEX),
        q_target: QubitId(NO_INDEX),
        c_target: BitId(NO_INDEX),
        c_condition: BitId(NO_INDEX),
        r_target: RegisterId(NO_INDEX),
    }
}

/// An operation is well formed when every operand that its kind reads is
/// present and the qubits of a multi-qubit gate are pairwise distinct.
pub open spec fn op_valid(op: Op) -> bool {
    let t = op.q_target.0;
    let c1 = op.q_control1.0;
    let c2 = op.q_control2.0;
    match op.kind {
        OperationType::Neg | OperationType::PopCondition | OperationType::DebugPrint => true,
        OperationType::Register => present(op.r_target.0),
        OperationType::AppendToRegister => present(op.r_target.0) && (present(t) || present(
            op.c_target.0,
        )),
        OperationType::BitInvert | OperationType::BitStore0 | OperationType::BitStore1 => present(
            op.c_target.0,
        ),
        OperationType::X | OperationType::Z | OperationType::R => present(t),
        OperationType::CX | OperationType::CZ | OperationType::Swap => present(t) && present(c1)
            && t != c1,
        OperationType::Hmr => present(t) && present(op.c_target.0),
        OperationType::CCX | OperationType::CCZ => present(t) && present(c1) && present(c2) && t
            != c1 && t != c2 && c1 != c2,
        OperationType::PushCondition => present(op.c_condition.0),
    }
}

impl Op {
    /// The operation with every operand slot unused.
    pub fn empty() -> (op: Op)
        ensures
            op == empty_op(),
    {
        Op {
            kind: OperationType::DebugPrint,
            q_control2: QubitId(NO_INDEX),
            q_control1: QubitId(NO_INDEX),
            q_target: QubitId(NO_INDEX),
            c_target: BitId(NO_INDEX),
            c_condition: BitId(NO_INDEX),
            r_target: RegisterId(NO_INDEX),
        }
    }

    /// Checks the well-formedness rule of `op_valid`.
    pub fn is_valid(&self) -> (ok: bool)
        ensures
            ok == op_valid(*self),
    {
        let t = self.q_target.0;
        let c1 = self.q_control1.0;
        let c2 = self.q_control2.0;
        match self.kind {
            OperationType::Neg | OperationType::PopCondition | OperationType::DebugPrint => true,
            OperationType::Register => self.r_target.0 != NO_INDEX,
            OperationType::AppendToRegister => self.r_target.0 != NO_INDEX && (t != NO_INDEX
                || self.c_target.0 != NO_INDEX),
            OperationType::BitInvert | OperationType::BitStore0 | OperationType::BitStore1 => {
                self.c_target.0 != NO_INDEX
            },
            OperationType::X | OperationType::Z | OperationType::R => t != NO_INDEX,
            OperationType::CX | OperationType::CZ | OperationType::Swap => t != NO_INDEX && c1
                != NO_INDEX && t != c1,
            OperationType::Hmr => t != NO_INDEX && self.c_target.0 != NO_INDEX,
            OperationType::CCX | OperationType::CCZ => t != NO_INDEX && c1 != NO_INDEX && c2
                != NO_INDEX && t != c1 && t != c2 && c1 != c2,
            OperationType::PushCondition => self.c_condition.0 != NO_INDEX,
        }
    }
}

/// One more than the largest qubit operand of `op`, or 0 when it has none.
pub open spec fn op_qubit_bound(op: Op) -> nat {
    let a: nat = if present(op.q_control2.0) {
        (op.q_control2.0 + 1) as nat
    } else {
        0
    };
    let b: nat = if present(op.q_control1.0) {
        (op.q_control1.0 + 1) as nat
    } else {
        0
    };
    let c: nat = if present(op.q_target.0) {
        (op.q_target.0 + 1) as nat
    } else {
        0
    };
    vstd::math::max(vstd::math::max(a as int, b as int), c as int) as nat
}

/// One more than the largest bit operand of `op`, or 0 when it has none.
pub open spec fn op_bit_bound(op: Op) -> nat {
    let a: nat = if present(op.c_target.0) {
        (op.c_target.0 + 1) as nat
    } else {
        0
    };
    let b: nat = if present(op.c_condition.0) {
        (op.c_condition.0 + 1) as nat
    } else {
        0
    };
    vstd::math::max(a as int, b as int) as nat
}

/// The number of qubits an operation stream touches: one more than its
/// largest qubit operand, or 0.
pub open spec fn qubit_bound(ops: Seq<Op>) -> nat
    decreases ops.len(),
{
    if ops.len() == 0 {
        0
    } else {
        vstd::math::max(qubit_bound(ops.drop_last()) as int, op_qubit_bound(ops.last()) as int) as nat
    }
}

/// The number of classical bits an operation stream touches.
pub open spec fn bit_bound(ops: Seq<Op>) -> nat
    decreases ops.len(),
{
    if ops.len() == 0 {
        0
    } else {
        vstd::math::max(bit_bound(ops.drop_last()) as int, op_bit_bound(ops.last()) as int) as nat
    }
}

/// The wire that an `AppendToRegister` operation adds: its qubit target when
/// present, else its bit target.
pub open spec fn appended_wire(op: Op) -> QubitOrBit {
    if present(op.q_target.0) {
        QubitOrBit::Qubit(op.q_target)
    } else {
        QubitOrBit::Bit(op.c_target)
    }
}

/// The register layout that a stream declares: each `Register` operation closes
/// a register made of the wires appended since the previous `Register`
/// operation. Returns the closed registers and the wires still pending.
pub open spec fn register_layout(ops: Seq<Op>) -> (Seq<Seq<QubitOrBit>>, Seq<QubitOrBit>)
    decreases ops.len(),
{
    if ops.len() == 0 {
        (Seq::empty(), Seq::empty())
    } else {
        let (regs, pending) = register_layout(ops.drop_last());
        let op = ops.last();
        match op.kind {
            OperationType::AppendToRegister => (regs, pending.push(appended_wire(op))),
            OperationType::Register => (regs.push(pending), Seq::empty()),
            _ => (regs, pending),
        }
    }
}

/// Summarizes an operation stream: the number of qubits and bits it touches,
/// the number of registers it declares, and their wires in declaration order.
pub fn analyze_ops(ops: &[Op]) -> (res: (u64, u64, u64, Vec<Vec<QubitOrBit>>))
    ensures
        res.0 == qubit_bound(ops@),
        res.1 == bit_bound(ops@),
        res.2 == res.3.len(),
        res.3@.map_values(|r: Vec<QubitOrBit>| r@) == register_layout(ops@).0,
{
    let mut qubits: u64 = 0;
    let mut bits: u64 = 0;
    let mut regs: Vec<Vec<QubitOrBit>> = Vec::new();
    let mut pending: Vec<QubitOrBit> = Vec::new();
    let mut i: usize = 0;
    while i < ops.len()
        invariant
            0 <= i <= ops.len(),
            qubits == qubit_bound(ops@.take(i as int)),
            bits == bit_bound(ops@.take(i as int)),
            regs@.map_values(|r: Vec<QubitOrBit>| r@) == register_layout(ops@.take(i as int)).0,
            pending@ == register_layout(ops@.take(i as int)).1,
            regs.len() <= i,
        decreases ops.len() - i,
    {
        let op = ops[i];
        proof {
            assert(ops@.take(i + 1).drop_last() =~= ops@.take(i as int));
            assert(ops@.take(i + 1).last() == op);
        }
        let q2 = op.q_control2.0;
        let q1 = op.q_control1.0;
        let qt = op.q_target.0;
        if q2 != NO_INDEX && q2 + 1 > qubits {
            qubits = q2 + 1;
        }
        if q1 != NO_INDEX && q1 + 1 > qubits {
            qubits = q1 + 1;
        }
        if qt != NO_INDEX && qt + 1 > qubits {
            qubits = qt + 1;
        }
        let ct = op.c_target.0;
        let cc = op.c_condition.0;
        if ct != NO_INDEX && ct + 1 > bits {
            bits = ct + 1;
        }
        if cc != NO_INDEX && cc + 1 > bits {
            bits = cc + 1;
        }
        match op.kind {
            OperationType::AppendToRegister => {
                if qt != NO_INDEX {
                    pending.push(QubitOrBit::Qubit(op.q_target));
                } else {
                    pending.push(QubitOrBit::Bit(op.c_target));
                }
            },
            OperationType::Register => {
                let done = pending;
                pending = Vec::new();
                let ghost old_regs = regs@;
                regs.push(done);
                proof {
                    assert(regs@.map_values(|r: Vec<QubitOrBit>| r@) =~= old_regs.map_values(
                        |r: Vec<QubitOrBit>| r@,
                    ).push(done@));
                }
            },
            _ => {},
        }
        i = i + 1;
    }
    proof {
        assert(ops@.take(i as int) =~= ops@);
    }
    let n = regs.len() as u64;
    (qubits, bits, n, regs)
}

} // verus!
