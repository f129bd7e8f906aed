//! Operation sinks, operation statistics, and the binary artifact format
//! that carries an operation stream (raw or zstd-compressed).
use crate::circuit::{
    kind_code, kind_code_spec, op_qubit_bound, op_valid, present, qubit_bound, BitId, Op, OperationType,
    QubitId, RegisterId, NO_INDEX,
};
use vstd::prelude::*;

verus! {

/// Bytes per encoded operation.
pub const OP_BYTES: usize = 56;

/// Bytes of the artifact header: the magic and the little-endian op count.
pub const HEADER_BYTES: usize = 16;

/// The largest op count an artifact may declare.
pub const MAX_OPS: u64 = 4_000_000_000;

/// The zstd compression level of compressed artifacts.
pub const ZSTD_LEVEL: i32 = 3;

/// The two artifact encodings.
#[derive(Clone, Copy, Debug, PartialEq, Eq, Structural)]
pub enum ArtifactFormat {
    Raw,
    Zstd,
}

/// The magic of a raw artifact: the ASCII text `QECCOPS1`.
pub open spec fn raw_magic() -> Seq<u8> {
    seq![0x51u8, 0x45u8, 0x43u8, 0x43u8, 0x4fu8, 0x50u8, 0x53u8, 0x31u8]
}

/// The magic of a compressed artifact: the ASCII text `QECCOPSZ`.
pub open spec fn zstd_magic() -> Seq<u8> {
    seq![0x51u8, 0x45u8, 0x43u8, 0x43u8, 0x4fu8, 0x50u8, 0x53u8, 0x5au8]
}

pub open spec fn magic_of(format: ArtifactFormat) -> Seq<u8> {
    match format {
        ArtifactFormat::Raw => raw_magic(),
        ArtifactFormat::Zstd => zstd_magic(),
    }
}

impl ArtifactFormat {
    /// The eight magic bytes that open an artifact of this format.
    pub fn magic(self) -> (m: [u8; 8])
        ensures
            m@ == magic_of(self),
    {
        let m: [u8; 8] = match self {
            ArtifactFormat::Raw => [0x51u8, 0x45u8, 0x43u8, 0x43u8, 0x4fu8, 0x50u8, 0x53u8, 0x31u8],
            ArtifactFormat::Zstd => [0x51u8, 0x45u8, 0x43u8, 0x43u8, 0x4fu8, 0x50u8, 0x53u8, 0x5au8],
        };
        assert(m@ =~= magic_of(self));
        m
    }

    /// The printable name of this format, which is its magic as text.
    pub fn label(self) -> (s: &'static str)
        ensures
            self == ArtifactFormat::Raw ==> s@ == "QECCOPS1"@,
            self == ArtifactFormat::Zstd ==> s@ == "QECCOPSZ"@,
    {
        match self {
            ArtifactFormat::Raw => "QECCOPS1",
            ArtifactFormat::Zstd => "QECCOPSZ",
        }
    }
}

/// Running statistics of an operation stream.
#[derive(Clone, Copy, Debug, PartialEq, Eq)]
pub struct OpStats {
    pub ops: u64,
    pub ccx: u64,
    pub ccz: u64,
    pub max_qubit: Option<u64>,
}

impl Default for OpStats {
    fn default() -> (s: Self)
        ensures
            s == empty_stats(),
    {
        OpStats { ops: 0, ccx: 0, ccz: 0, max_qubit: None }
    }
}

/// The statistics of the empty stream.
pub open spec fn empty_stats() -> OpStats {
    OpStats { ops: 0, ccx: 0, ccz: 0, max_qubit: None }
}

/// One more than the largest recorded qubit, or 0.
pub open spec fn max_qubit_bound(m: Option<u64>) -> nat {
    match m {
        Some(q) => (q + 1) as nat,
        None => 0,
    }
}

/// The largest-qubit record whose bound is `b`.
pub open spec fn max_qubit_of_bound(b: nat) -> Option<u64> {
    if b == 0 {
        None
    } else {
        Some((b - 1) as u64)
    }
}

/// The statistics after observing one more operation.
pub open spec fn observe_spec(s: OpStats, op: Op) -> OpStats {
    OpStats {
        ops: (s.ops + 1) as u64,
        ccx: if op.kind == OperationType::CCX {
            (s.ccx + 1) as u64
        } else {
            s.ccx
        },
        ccz: if op.kind == OperationType::CCZ {
            (s.ccz + 1) as u64
        } else {
            s.ccz
        },
        max_qubit: max_qubit_of_bound(
            vstd::math::max(max_qubit_bound(s.max_qubit) as int, op_qubit_bound(op) as int) as nat,
        ),
    }
}

/// The statistics of a whole stream.
pub open spec fn stats_of(ops: Seq<Op>) -> OpStats
    decreases ops.len(),
{
    if ops.len() == 0 {
        empty_stats()
    } else {
        observe_spec(stats_of(ops.drop_last()), ops.last())
    }
}

/// The number of operations of kind `kind` in a stream.
pub open spec fn count_kind(ops: Seq<Op>, kind: OperationType) -> nat
    decreases ops.len(),
{
    if ops.len() == 0 {
        0
    } else {
        count_kind(ops.drop_last(), kind) + if ops.last().kind == kind {
            1nat
        } else {
            0nat
        }
    }
}

/// The statistics of a stream count its operations, its CCX and CCZ gates,
/// and record its qubit bound.
pub proof fn lemma_stats_of(ops: Seq<Op>)
    requires
        ops.len() <= u64::MAX,
    ensures
        stats_of(ops).ops == ops.len(),
        stats_of(ops).ccx == count_kind(ops, OperationType::CCX),
        stats_of(ops).ccz == count_kind(ops, OperationType::CCZ),
        max_qubit_bound(stats_of(ops).max_qubit) == qubit_bound(ops),
    decreases ops.len(),
{
    if ops.len() > 0 {
        lemma_stats_of(ops.drop_last());
        lemma_count_kind_le(ops.drop_last(), OperationType::CCX);
        lemma_count_kind_le(ops.drop_last(), OperationType::CCZ);
        lemma_qubit_bound_fits(ops);
    }
}

proof fn lemma_count_kind_le(ops: Seq<Op>, kind: OperationType)
    ensures
        count_kind(ops, kind) <= ops.len(),
    decreases ops.len(),
{
    if ops.len() > 0 {
        lemma_count_kind_le(ops.drop_last(), kind);
    }
}

proof fn lemma_qubit_bound_fits(ops: Seq<Op>)
    ensures
        qubit_bound(ops) <= u64::MAX,
    decreases ops.len(),
{
    if ops.len() > 0 {
        lemma_qubit_bound_fits(ops.drop_last());
    }
}

impl OpStats {
    /// Records one more operation.
    pub fn observe(&mut self, op: &Op)
        requires
            old(self).ops < u64::MAX,
            op.kind == OperationType::CCX ==> old(self).ccx < u64::MAX,
            op.kind == OperationType::CCZ ==> old(self).ccz < u64::MAX,
        ensures
            *final(self) == observe_spec(*old(self), *op),
            old(self).max_qubit != Some(NO_INDEX) ==> final(self).max_qubit != Some(NO_INDEX),
    {
        self.ops = self.ops + 1;
        match op.kind {
            OperationType::CCX => self.ccx = self.ccx + 1,
            OperationType::CCZ => self.ccz = self.ccz + 1,
            _ => {},
        }
        let qs = [op.q_control2.0, op.q_control1.0, op.q_target.0];
        let mut k: usize = 0;
        let ghost start = max_qubit_bound(self.max_qubit);
        let ghost counts = (self.ops, self.ccx, self.ccz);
        while k < 3
            invariant
                0 <= k <= 3,
                counts == (self.ops, self.ccx, self.ccz),
                qs@ == seq![op.q_control2.0, op.q_control1.0, op.q_target.0],
                old(self).max_qubit != Some(NO_INDEX) ==> self.max_qubit != Some(NO_INDEX),
                max_qubit_bound(self.max_qubit) == vstd::math::max(
                    start as int,
                    partial_bound(qs@, k as int) as int,
                ),
            decreases 3 - k,
        {
            let qubit = qs[k];
            if qubit != NO_INDEX {
                self.max_qubit = match self.max_qubit {
                    Some(m) => Some(if qubit > m {
                        qubit
                    } else {
                        m
                    }),
                    None => Some(qubit),
                };
            }
            k = k + 1;
        }
        proof {
            reveal_with_fuel(partial_bound, 4);
            assert(partial_bound(qs@, 3) == op_qubit_bound(*op));
            let b = vstd::math::max(start as int, op_qubit_bound(*op) as int) as nat;
            assert(max_qubit_bound(self.max_qubit) == b);
            assert(self.max_qubit == max_qubit_of_bound(b));
        }
    }

    /// The number of qubits the observed stream touches: one more than the
    /// largest observed qubit, or 0.
    pub fn qubits(self) -> (n: u64)
        requires
            self.max_qubit != Some(u64::MAX),
        ensures
            n == max_qubit_bound(self.max_qubit),
    {
        match self.max_qubit {
            Some(m) => m + 1,
            None => 0,
        }
    }
}

/// One more than the largest present id among the first `k` entries.
pub open spec fn partial_bound(qs: Seq<u64>, k: int) -> nat
    decreases k,
{
    if k <= 0 {
        0
    } else {
        let q = qs[k - 1];
        vstd::math::max(
            partial_bound(qs, k - 1) as int,
            if present(q) {
                q + 1
            } else {
                0
            },
        ) as nat
    }
}

/// A consumer of emitted operations.
pub trait OpSink {
    /// The operations received so far, in order.
    spec fn emitted(&self) -> Seq<Op>;

    /// The invariant the sink keeps between operations.
    spec fn sink_inv(&self) -> bool;

    /// Receives one more operation.
    fn push_op(&mut self, op: Op)
        requires
            old(self).sink_inv(),
        ensures
            final(self).sink_inv(),
            final(self).emitted() == old(self).emitted().push(op),
    ;
}

/// A sink that keeps every operation in memory along with its statistics.
pub struct VecOpSink {
    ops: Vec<Op>,
    stats: OpStats,
}

impl Default for VecOpSink {
    fn default() -> (s: Self)
        ensures
            s.emitted() == Seq::<Op>::empty(),
            s.sink_inv(),
    {
        VecOpSink { ops: Vec::new(), stats: OpStats { ops: 0, ccx: 0, ccz: 0, max_qubit: None } }
    }
}

impl VecOpSink {
    /// The operations received, in order.
    pub fn into_ops(self) -> (ops: Vec<Op>)
        ensures
            ops@ == self.emitted(),
    {
        self.ops
    }

    /// The statistics of the operations received.
    pub fn stats(&self) -> (s: OpStats)
        requires
            self.sink_inv(),
        ensures
            self.emitted().len() <= u64::MAX ==> s == stats_of(self.emitted()),
    {
        self.stats
    }
}

impl OpSink for VecOpSink {
    closed spec fn emitted(&self) -> Seq<Op> {
        self.ops@
    }

    /// The statistics describe the stream for as long as its length fits in
    /// the operation counter.
    closed spec fn sink_inv(&self) -> bool {
        &&& self.ops@.len() <= u64::MAX ==> self.stats == stats_of(self.ops@)
        &&& self.stats.max_qubit != Some(NO_INDEX)
        &&& self.ops@.len() >= u64::MAX ==> self.stats.ops == u64::MAX
    }

    fn push_op(&mut self, op: Op) {
        let ghost before = self.ops@;
        proof {
            if before.len() <= u64::MAX {
                lemma_stats_of(before);
            }
        }
        if self.stats.ops < u64::MAX {
            proof {
                lemma_count_kind_le(before, OperationType::CCX);
                lemma_count_kind_le(before, OperationType::CCZ);
            }
            self.stats.observe(&op);
        }
        self.ops.push(op);
        proof {
            assert(self.ops@.drop_last() =~= before);
            assert(self.ops@.last() == op);
            if self.ops@.len() <= u64::MAX {
                lemma_stats_of(self.ops@);
            }
        }
    }
}

// ---------------------------------------------------------------------------
// Byte encoding
// ---------------------------------------------------------------------------

/// The little-endian bytes of a 64-bit word.
pub open spec fn le64_bytes(x: u64) -> Seq<u8> {
    seq![
        (x & 0xff) as u8,
        ((x >> 8) & 0xff) as u8,
        ((x >> 16) & 0xff) as u8,
        ((x >> 24) & 0xff) as u8,
        ((x >> 32) & 0xff) as u8,
        ((x >> 40) & 0xff) as u8,
        ((x >> 48) & 0xff) as u8,
        ((x >> 56) & 0xff) as u8,
    ]
}

/// The little-endian bytes of a 32-bit word.
pub open spec fn le32_bytes(x: u32) -> Seq<u8> {
    seq![
        (x & 0xff) as u8,
        ((x >> 8) & 0xff) as u8,
        ((x >> 16) & 0xff) as u8,
        ((x >> 24) & 0xff) as u8,
    ]
}

/// The 64-bit word whose little-endian bytes are `b[0..8]`.
pub open spec fn le64_value(b: Seq<u8>) -> u64 {
    (b[0] as u64) | ((b[1] as u64) << 8) | ((b[2] as u64) << 16) | ((b[3] as u64) << 24) | ((
    b[4] as u64) << 32) | ((b[5] as u64) << 40) | ((b[6] as u64) << 48) | ((b[7] as u64) << 56)
}

/// The 32-bit word whose little-endian bytes are `b[0..4]`.
pub open spec fn le32_value(b: Seq<u8>) -> u32 {
    (b[0] as u32) | ((b[1] as u32) << 8) | ((b[2] as u32) << 16) | ((b[3] as u32) << 24)
}

/// The 56-byte record of one operation: its kind code (32 bits), four zero
/// bytes, then the six operand ids as 64-bit words in the order control 2,
/// control 1, qubit target, bit target, bit condition, register target.
#[verifier::opaque]
pub open spec fn op_record(op: Op) -> Seq<u8> {
    le32_bytes(kind_code_spec(op.kind)) + seq![0u8, 0u8, 0u8, 0u8] + le64_bytes(op.q_control2.0)
        + le64_bytes(op.q_control1.0) + le64_bytes(op.q_target.0) + le64_bytes(op.c_target.0)
        + le64_bytes(op.c_condition.0) + le64_bytes(op.r_target.0)
}

/// The operation kind of a wire code, if any.
pub open spec fn kind_of_code(v: u32) -> Option<OperationType> {
    if v == 0 {
        Some(OperationType::Neg)
    } else if v == 1 {
        Some(OperationType::Register)
    } else if v == 2 {
        Some(OperationType::AppendToRegister)
    } else if v == 3 {
        Some(OperationType::BitInvert)
    } else if v == 4 {
        Some(OperationType::BitStore0)
    } else if v == 5 {
        Some(OperationType::BitStore1)
    } else if v == 6 {
        Some(OperationType::X)
    } else if v == 7 {
        Some(OperationType::Z)
    } else if v == 8 {
        Some(OperationType::CX)
    } else if v == 9 {
        Some(OperationType::CZ)
    } else if v == 10 {
        Some(OperationType::Swap)
    } else if v == 11 {
        Some(OperationType::R)
    } else if v == 12 {
        Some(OperationType::Hmr)
    } else if v == 13 {
        Some(OperationType::CCX)
    } else if v == 14 {
        Some(OperationType::CCZ)
    } else if v == 15 {
        Some(OperationType::PushCondition)
    } else if v == 16 {
        Some(OperationType::PopCondition)
    } else if v == 17 {
        Some(OperationType::DebugPrint)
    } else {
        None
    }
}

/// Decodes the kind code of a record.
pub fn op_kind_from_u32(v: u32) -> (kind: Option<OperationType>)
    ensures
        kind == kind_of_code(v),
{
    if v == 0 {
        Some(OperationType::Neg)
    } else if v == 1 {
        Some(OperationType::Register)
    } else if v == 2 {
        Some(OperationType::AppendToRegister)
    } else if v == 3 {
        Some(OperationType::BitInvert)
    } else if v == 4 {
        Some(OperationType::BitStore0)
    } else if v == 5 {
        Some(OperationType::BitStore1)
    } else if v == 6 {
        Some(OperationType::X)
    } else if v == 7 {
        Some(OperationType::Z)
    } else if v == 8 {
        Some(OperationType::CX)
    } else if v == 9 {
        Some(OperationType::CZ)
    } else if v == 10 {
        Some(OperationType::Swap)
    } else if v == 11 {
        Some(OperationType::R)
    } else if v == 12 {
        Some(OperationType::Hmr)
    } else if v == 13 {
        Some(OperationType::CCX)
    } else if v == 14 {
        Some(OperationType::CCZ)
    } else if v == 15 {
        Some(OperationType::PushCondition)
    } else if v == 16 {
        Some(OperationType::PopCondition)
    } else if v == 17 {
        Some(OperationType::DebugPrint)
    } else {
        None
    }
}

/// The operation a 56-byte record describes, or `None` when its kind code is
/// unknown. The four padding bytes are not read.
#[verifier::opaque]
pub open spec fn decode_record(b: Seq<u8>) -> Option<Op> {
    match kind_of_code(le32_value(b.subrange(0, 4))) {
        Some(kind) => Some(
            Op {
                kind,
                q_control2: QubitId(le64_value(b.subrange(8, 16))),
                q_control1: QubitId(le64_value(b.subrange(16, 24))),
                q_target: QubitId(le64_value(b.subrange(24, 32))),
                c_target: BitId(le64_value(b.subrange(32, 40))),
                c_condition: BitId(le64_value(b.subrange(40, 48))),
                r_target: RegisterId(le64_value(b.subrange(48, 56))),
            },
        ),
        None => None,
    }
}

/// The fixed layout of a 56-byte record, field by field: bytes 0..4 the
/// kind code, 4..8 zero, then the little-endian words of the second control
/// (8..16), the first control (16..24), the target qubit (24..32), the
/// classical target (32..40), the classical condition (40..48) and the
/// register (48..56).
pub proof fn lemma_record_layout(op: Op)
    ensures
        op_record(op).len() == 56,
        op_record(op).subrange(0, 4) == le32_bytes(kind_code_spec(op.kind)),
        op_record(op).subrange(4, 8) == seq![0u8, 0u8, 0u8, 0u8],
        op_record(op).subrange(8, 16) == le64_bytes(op.q_control2.0),
        op_record(op).subrange(16, 24) == le64_bytes(op.q_control1.0),
        op_record(op).subrange(24, 32) == le64_bytes(op.q_target.0),
        op_record(op).subrange(32, 40) == le64_bytes(op.c_target.0),
        op_record(op).subrange(40, 48) == le64_bytes(op.c_condition.0),
        op_record(op).subrange(48, 56) == le64_bytes(op.r_target.0),
{
    reveal(op_record);
    let r = op_record(op);
    assert(r.subrange(0, 4) =~= le32_bytes(kind_code_spec(op.kind)));
    assert(r.subrange(4, 8) =~= seq![0u8, 0u8, 0u8, 0u8]);
    assert(r.subrange(8, 16) =~= le64_bytes(op.q_control2.0));
    assert(r.subrange(16, 24) =~= le64_bytes(op.q_control1.0));
    assert(r.subrange(24, 32) =~= le64_bytes(op.q_target.0));
    assert(r.subrange(32, 40) =~= le64_bytes(op.c_target.0));
    assert(r.subrange(40, 48) =~= le64_bytes(op.c_condition.0));
    assert(r.subrange(48, 56) =~= le64_bytes(op.r_target.0));
}

/// Decoding reads each field from its fixed place in the record: the
/// operands are the little-endian words at bytes 8, 16, 24 (the target
/// qubit), 32 (the classical target), 40 and 48, and bytes 4..8 are not read.
pub proof fn lemma_decode_layout(b: Seq<u8>)
    requires
        b.len() == 56,
    ensures
        decode_record(b) matches Some(op) ==> {
            &&& op.q_control2.0 == le64_value(b.subrange(8, 16))
            &&& op.q_control1.0 == le64_value(b.subrange(16, 24))
            &&& op.q_target.0 == le64_value(b.subrange(24, 32))
            &&& op.c_target.0 == le64_value(b.subrange(32, 40))
            &&& op.c_condition.0 == le64_value(b.subrange(40, 48))
            &&& op.r_target.0 == le64_value(b.subrange(48, 56))
            &&& kind_of_code(le32_value(b.subrange(0, 4))) == Some(op.kind)
        },
        decode_record(b) is None <==> kind_of_code(le32_value(b.subrange(0, 4))) is None,
{
    reveal(decode_record);
}

/// Reads the little-endian 64-bit word at `bytes[off..off + 8]`.
pub fn read_u64(bytes: &[u8], off: usize) -> (v: u64)
    requires
        off + 8 <= bytes@.len(),
    ensures
        v == le64_value(bytes@.subrange(off as int, off + 8)),
{
    (bytes[off] as u64) | ((bytes[off + 1] as u64) << 8) | ((bytes[off + 2] as u64) << 16) | ((
    bytes[off + 3] as u64) << 24) | ((bytes[off + 4] as u64) << 32) | ((bytes[off + 5] as u64)
        << 40) | ((bytes[off + 6] as u64) << 48) | ((bytes[off + 7] as u64) << 56)
}

/// Reads the little-endian 32-bit word at `bytes[off..off + 4]`.
pub fn read_u32(bytes: &[u8], off: usize) -> (v: u32)
    requires
        off + 4 <= bytes@.len(),
    ensures
        v == le32_value(bytes@.subrange(off as int, off + 4)),
{
    (bytes[off] as u32) | ((bytes[off + 1] as u32) << 8) | ((bytes[off + 2] as u32) << 16) | ((
    bytes[off + 3] as u32) << 24)
}

/// Decodes the record at `bytes[off..off + 56]`.
pub fn read_op(bytes: &[u8], off: usize) -> (op: Option<Op>)
    requires
        off + OP_BYTES <= bytes@.len(),
    ensures
        op == decode_record(bytes@.subrange(off as int, off + OP_BYTES)),
{
    let n = bytes.len();
    assert(n == bytes@.len());
    let ghost rec = bytes@.subrange(off as int, off + OP_BYTES);
    proof {
        reveal(decode_record);
        assert(rec.subrange(0, 4) =~= bytes@.subrange(off as int, off + 4));
        assert(rec.subrange(8, 16) =~= bytes@.subrange(off + 8, off + 16));
        assert(rec.subrange(16, 24) =~= bytes@.subrange(off + 16, off + 24));
        assert(rec.subrange(24, 32) =~= bytes@.subrange(off + 24, off + 32));
        assert(rec.subrange(32, 40) =~= bytes@.subrange(off + 32, off + 40));
        assert(rec.subrange(40, 48) =~= bytes@.subrange(off + 40, off + 48));
        assert(rec.subrange(48, 56) =~= bytes@.subrange(off + 48, off + 56));
    }
    let kind_raw = read_u32(bytes, off);
    match op_kind_from_u32(kind_raw) {
        Some(kind) => {
            let c2 = read_u64(bytes, off + 8);
            let c1 = read_u64(bytes, off + 16);
            let t = read_u64(bytes, off + 24);
            let ct = read_u64(bytes, off + 32);
            let cc = read_u64(bytes, off + 40);
            let r = read_u64(bytes, off + 48);
            Some(
                Op {
                    kind,
                    q_control2: QubitId(c2),
                    q_control1: QubitId(c1),
                    q_target: QubitId(t),
                    c_target: BitId(ct),
                    c_condition: BitId(cc),
                    r_target: RegisterId(r),
                },
            )
        },
        None => None,
    }
}

pub(crate) fn push_u64_le(out: &mut Vec<u8>, x: u64)
    ensures
        final(out)@ == old(out)@ + le64_bytes(x),
{
    let ghost start = out@;
    out.push((x & 0xff) as u8);
    out.push(((x >> 8) & 0xff) as u8);
    out.push(((x >> 16) & 0xff) as u8);
    out.push(((x >> 24) & 0xff) as u8);
    out.push(((x >> 32) & 0xff) as u8);
    out.push(((x >> 40) & 0xff) as u8);
    out.push(((x >> 48) & 0xff) as u8);
    out.push(((x >> 56) & 0xff) as u8);
    assert(out@ =~= start + le64_bytes(x));
}

/// Appends the 56-byte record of `op`.
pub fn write_op(out: &mut Vec<u8>, op: &Op)
    ensures
        final(out)@ == old(out)@ + op_record(*op),
{
    let ghost start = out@;
    let code = kind_code(op.kind);
    out.push((code & 0xff) as u8);
    out.push(((code >> 8) & 0xff) as u8);
    out.push(((code >> 16) & 0xff) as u8);
    out.push(((code >> 24) & 0xff) as u8);
    out.push(0u8);
    out.push(0u8);
    out.push(0u8);
    out.push(0u8);
    assert(out@ =~= start + le32_bytes(code) + seq![0u8, 0u8, 0u8, 0u8]);
    push_u64_le(out, op.q_control2.0);
    push_u64_le(out, op.q_control1.0);
    push_u64_le(out, op.q_target.0);
    push_u64_le(out, op.c_target.0);
    push_u64_le(out, op.c_condition.0);
    push_u64_le(out, op.r_target.0);
    reveal(op_record);
    assert(out@ =~= start + op_record(*op));
}

/// Reading a 64-bit word back from its little-endian bytes gives the word.
pub proof fn lemma_le64_roundtrip(x: u64)
    ensures
        le64_value(le64_bytes(x)) == x,
{
    let b = le64_bytes(x);
    assert(b[0] == (x & 0xff) as u8);
    assert(b[7] == ((x >> 56) & 0xff) as u8);
    assert(((x & 0xff) as u8 as u64) | ((((x >> 8) & 0xff) as u8 as u64) << 8) | ((((x >> 16)
        & 0xff) as u8 as u64) << 16) | ((((x >> 24) & 0xff) as u8 as u64) << 24) | ((((x >> 32)
        & 0xff) as u8 as u64) << 32) | ((((x >> 40) & 0xff) as u8 as u64) << 40) | ((((x >> 48)
        & 0xff) as u8 as u64) << 48) | ((((x >> 56) & 0xff) as u8 as u64) << 56) == x)
        by (bit_vector);
}

/// Reading a 32-bit word back from its little-endian bytes gives the word.
pub proof fn lemma_le32_roundtrip(x: u32)
    ensures
        le32_value(le32_bytes(x)) == x,
{
    assert(((x & 0xff) as u8 as u32) | ((((x >> 8) & 0xff) as u8 as u32) << 8) | ((((x >> 16)
        & 0xff) as u8 as u32) << 16) | ((((x >> 24) & 0xff) as u8 as u32) << 24) == x)
        by (bit_vector);
}

/// Decoding the record of an operation gives the operation back.
#[verifier::rlimit(50)]
pub proof fn lemma_record_roundtrip(op: Op)
    ensures
        op_record(op).len() == OP_BYTES,
        decode_record(op_record(op)) == Some(op),
{
    reveal(op_record);
    reveal(decode_record);
    let r = op_record(op);
    assert(r.len() == 56);
    assert(r.subrange(0, 4) =~= le32_bytes(kind_code_spec(op.kind)));
    assert(r.subrange(8, 16) =~= le64_bytes(op.q_control2.0));
    assert(r.subrange(16, 24) =~= le64_bytes(op.q_control1.0));
    assert(r.subrange(24, 32) =~= le64_bytes(op.q_target.0));
    assert(r.subrange(32, 40) =~= le64_bytes(op.c_target.0));
    assert(r.subrange(40, 48) =~= le64_bytes(op.c_condition.0));
    assert(r.subrange(48, 56) =~= le64_bytes(op.r_target.0));
    lemma_le32_roundtrip(kind_code_spec(op.kind));
    lemma_le64_roundtrip(op.q_control2.0);
    lemma_le64_roundtrip(op.q_control1.0);
    lemma_le64_roundtrip(op.q_target.0);
    lemma_le64_roundtrip(op.c_target.0);
    lemma_le64_roundtrip(op.c_condition.0);
    lemma_le64_roundtrip(op.r_target.0);
}


// ---------------------------------------------------------------------------
// Artifacts
// ---------------------------------------------------------------------------

/// Why an artifact could not be read.
#[derive(Clone, Copy, Debug, PartialEq, Eq, Structural)]
pub enum ArtifactError {
    /// Fewer than 8 bytes: no room for the magic.
    MissingMagic,
    /// Fewer than 16 bytes: no room for the op count.
    MissingCount,
    /// The declared op count is above `MAX_OPS`.
    CountExceedsCap(u64),
    /// A raw artifact whose length is not 16 plus 56 bytes per declared op.
    LengthMismatch { actual: u64, expected: u64, count: u64 },
    /// The magic is neither format's.
    BadMagic,
    /// No decoder could be made for the compressed payload.
    Decompress,
    /// The payload ends, or for a compressed payload cannot be decompressed,
    /// inside the record of this op.
    TruncatedOp(u64),
    /// The record of this op has an unknown kind code.
    UnknownKind { index: u64, raw: u32 },
    /// The record of this op decodes to an operation that is not well formed.
    InvalidOp(u64),
}

/// The concatenated records of a stream of operations.
pub open spec fn ops_records(ops: Seq<Op>) -> Seq<u8>
    decreases ops.len(),
{
    if ops.len() == 0 {
        Seq::empty()
    } else {
        ops_records(ops.drop_last()) + op_record(ops.last())
    }
}

/// Reads `count` consecutive records from the start of `payload`, stopping
/// at the first record that is missing, has an unknown kind, or is not well
/// formed. Bytes after the last record are not read.
pub open spec fn parse_records(payload: Seq<u8>, count: nat) -> Result<Seq<Op>, ArtifactError>
    decreases count,
{
    if count == 0 {
        Ok(Seq::empty())
    } else {
        match parse_records(payload, (count - 1) as nat) {
            Err(e) => Err(e),
            Ok(prev) => {
                let i = count - 1;
                let off = i * 56;
                if off + 56 > payload.len() {
                    Err(ArtifactError::TruncatedOp(i as u64))
                } else {
                    match decode_record(payload.subrange(off, off + 56)) {
                        None => Err(
                            ArtifactError::UnknownKind {
                                index: i as u64,
                                raw: le32_value(payload.subrange(off, off + 4)),
                            },
                        ),
                        Some(op) => if op_valid(op) {
                            Ok(prev.push(op))
                        } else {
                            Err(ArtifactError::InvalidOp(i as u64))
                        },
                    }
                }
            },
        }
    }
}

/// The bytes of the first `k` 56-byte records read one after another, each
/// with `read_exact`, from a zstd stream decoder over `data`; `None` when one
/// of those reads fails (the stream ends or is corrupt before them).
pub uninterp spec fn zstd_records_read(data: Seq<u8>, k: nat) -> Option<Seq<u8>>;

/// A zstd stream decoder over an in-memory buffer, held opaquely.
#[verifier::external_body]
struct ZstdBox<'a> {
    decoder: zstd::stream::read::Decoder<'a, std::io::BufReader<&'a [u8]>>,
}

/// Reads the records of a compressed payload in order; `data` is the payload
/// and `count` the number of records read so far (ghost bookkeeping).
struct ZstdRecordReader<'a> {
    inner: ZstdBox<'a>,
    data: Ghost<Seq<u8>>,
    count: Ghost<nat>,
}

/// Calls `zstd::stream::read::Decoder::new` on an in-memory buffer: a
/// decoder at the start of the decompressed stream, with no record read yet.
/// Making it can fail (the decoder context is allocated); when it does, the
/// result is `None` and nothing more is claimed.
#[verifier::external_body]
fn zstd_open<'a>(data: &'a [u8]) -> (out: Option<ZstdBox<'a>>)
    ensures
        out is Some ==> zstd_records_read(data@, 0) == Some(Seq::<u8>::empty()),
{
    match zstd::stream::read::Decoder::new(data) {
        Ok(decoder) => Some(ZstdBox { decoder }),
        Err(_) => None,
    }
}

/// Calls `std::io::Read::read_exact` on the decoder for the next 56-byte
/// record. Reads of a stream decoder come one after another: after `k`
/// records were read, this read succeeds exactly when reading `k + 1` records
/// does, and then the `k + 1` records' bytes are the first `k` followed by
/// the buffer.
#[verifier::external_body]
fn zstd_read_record(r: &mut ZstdRecordReader, buf: &mut [u8])
    -> (ok: bool)
    requires
        old(buf)@.len() == 56,
        zstd_records_read(old(r).data@, old(r).count@) is Some,
    ensures
        final(r).data == old(r).data,
        final(buf)@.len() == 56,
        ok == zstd_records_read(old(r).data@, old(r).count@ + 1) is Some,
        ok ==> final(r).count@ == old(r).count@ + 1,
        ok ==> zstd_records_read(old(r).data@, old(r).count@ + 1) == Some(
            zstd_records_read(old(r).data@, old(r).count@)->0 + final(buf)@,
        ),
{
    std::io::Read::read_exact(&mut r.inner.decoder, buf).is_ok()
}

/// Calls `zstd::stream::encode_all` on an in-memory buffer at the given
/// level. The contract states that zstd compression is lossless: when it
/// succeeds, reading whole 56-byte records back from a decoder over its output
/// gives the input's bytes in order. When and whether it fails (it can fail
/// inside the compressor) is left unsaid.
#[verifier::external_body]
fn zstd_compress(data: &[u8], level: i32) -> (out: Option<Vec<u8>>)
    ensures
        out matches Some(c) ==> forall|k: nat|
            56 * k <= data@.len() ==> #[trigger] zstd_records_read(c@, k) == Some(data@.take(56 * k as int)),
{
    zstd::stream::encode_all(data, level).ok()
}

/// The step of reading record `i`: its kind must be known and the decoded
/// operation well formed.
pub open spec fn record_step(prev: Seq<Op>, rec: Seq<u8>, i: nat) -> Result<Seq<Op>, ArtifactError> {
    match decode_record(rec) {
        None => Err(ArtifactError::UnknownKind { index: i as u64, raw: le32_value(rec.subrange(0, 4)) }),
        Some(op) => if op_valid(op) {
            Ok(prev.push(op))
        } else {
            Err(ArtifactError::InvalidOp(i as u64))
        },
    }
}

/// Reads `count` records from a compressed payload one after another,
/// stopping at the first record that cannot be read from the decoder, has
/// an unknown kind, or is not well formed. Nothing after the last record is
/// read.
pub open spec fn zstd_parse(data: Seq<u8>, count: nat) -> Result<Seq<Op>, ArtifactError>
    decreases count,
{
    if count == 0 {
        Ok(Seq::empty())
    } else {
        match zstd_parse(data, (count - 1) as nat) {
            Err(e) => Err(e),
            Ok(prev) => match zstd_records_read(data, count) {
                None => Err(ArtifactError::TruncatedOp((count - 1) as u64)),
                Some(bytes) => record_step(prev, bytes.subrange(56 * (count - 1), 56 * count as int), (count - 1) as nat),
            },
        }
    }
}

/// What reading an artifact gives: its operations, or the first problem in
/// the order magic, count, cap, format-specific framing, then the records.
pub open spec fn artifact_spec(bytes: Seq<u8>) -> Result<Seq<Op>, ArtifactError> {
    if bytes.len() < 8 {
        Err(ArtifactError::MissingMagic)
    } else if bytes.len() < 16 {
        Err(ArtifactError::MissingCount)
    } else {
        let count = le64_value(bytes.subrange(8, 16));
        let magic = bytes.subrange(0, 8);
        if count > MAX_OPS {
            Err(ArtifactError::CountExceedsCap(count))
        } else if magic == raw_magic() {
            let expected = 16 + count * 56;
            if bytes.len() != expected {
                Err(
                    ArtifactError::LengthMismatch {
                        actual: bytes.len() as u64,
                        expected: expected as u64,
                        count,
                    },
                )
            } else {
                parse_records(bytes.subrange(16, bytes.len() as int), count as nat)
            }
        } else if magic == zstd_magic() {
            zstd_parse(bytes.subrange(16, bytes.len() as int), count as nat)
        } else {
            Err(ArtifactError::BadMagic)
        }
    }
}

/// Once reading records fails, reading more of them fails the same way.
pub proof fn lemma_parse_records_err_persists(payload: Seq<u8>, a: nat, b: nat)
    requires
        a <= b,
        parse_records(payload, a) is Err,
    ensures
        parse_records(payload, b) == parse_records(payload, a),
    decreases b - a,
{
    if a < b {
        lemma_parse_records_err_persists(payload, a, (b - 1) as nat);
    }
}

/// Reads `count` records from the start of `payload`.
pub fn read_ops_from(payload: &[u8], count: u64) -> (res: Result<Vec<Op>, ArtifactError>)
    ensures
        match res {
            Ok(v) => parse_records(payload@, count as nat) == Ok::<Seq<Op>, ArtifactError>(v@),
            Err(e) => parse_records(payload@, count as nat) == Err::<Seq<Op>, ArtifactError>(e),
        },
{
    let n = payload.len();
    let mut ops: Vec<Op> = Vec::new();
    let mut i: u64 = 0;
    while i < count
        invariant
            0 <= i <= count,
            n == payload@.len(),
            parse_records(payload@, i as nat) == Ok::<Seq<Op>, ArtifactError>(ops@),
        decreases count - i,
    {
        let n64 = n as u64;
        if n64 < 56 || (n64 - 56) / 56 < i {
            proof {
                assert(i * 56 + 56 > payload@.len()) by (nonlinear_arith)
                    requires
                        n64 == payload@.len(),
                        n64 < 56 || (n64 - 56) / 56 < i,
                ;
            }
            proof {
                lemma_parse_records_err_persists(payload@, (i + 1) as nat, count as nat);
            }
            return Err(ArtifactError::TruncatedOp(i));
        }
        proof {
            assert(i * 56 + 56 <= payload@.len()) by (nonlinear_arith)
                requires
                    n64 == payload@.len(),
                    n64 >= 56,
                    (n64 - 56) / 56 >= i,
            ;
        }
        let off = (i as usize) * OP_BYTES;
        match read_op(payload, off) {
            None => {
                let raw = read_u32(payload, off);
                proof {
                    assert(payload@.subrange(off as int, off + 56).subrange(0, 4) =~= payload@.subrange(
                        off as int,
                        off + 4,
                    ));
                    lemma_parse_records_err_persists(payload@, (i + 1) as nat, count as nat);
                }
                return Err(ArtifactError::UnknownKind { index: i, raw });
            },
            Some(op) => {
                if !op.is_valid() {
                    proof {
                        lemma_parse_records_err_persists(payload@, (i + 1) as nat, count as nat);
                    }
                    return Err(ArtifactError::InvalidOp(i));
                }
                ops.push(op);
            },
        }
        i = i + 1;
    }
    Ok(ops)
}

/// A well-framed compressed artifact: the header is complete, the magic is
/// the compressed format's, and the count is within the cap. Only on such an
/// artifact is a decoder made, which can fail.
pub open spec fn zstd_framed(bytes: Seq<u8>) -> bool {
    &&& bytes.len() >= 16
    &&& bytes.subrange(0, 8) == zstd_magic()
    &&& le64_value(bytes.subrange(8, 16)) <= MAX_OPS
}

/// Once reading compressed records fails, reading more of them fails the
/// same way.
pub proof fn lemma_zstd_parse_err_persists(data: Seq<u8>, a: nat, b: nat)
    requires
        a <= b,
        zstd_parse(data, a) is Err,
    ensures
        zstd_parse(data, b) == zstd_parse(data, a),
    decreases b - a,
{
    if a < b {
        lemma_zstd_parse_err_persists(data, a, (b - 1) as nat);
    }
}

/// Reads `count` records from a compressed payload, one record at a time,
/// checking each as it is read.
fn read_ops_zstd(r: &mut ZstdRecordReader, count: u64) -> (res: Result<Vec<Op>, ArtifactError>)
    requires
        old(r).count@ == 0,
        zstd_records_read(old(r).data@, 0) == Some(Seq::<u8>::empty()),
    ensures
        match res {
            Ok(v) => zstd_parse(old(r).data@, count as nat) == Ok::<Seq<Op>, ArtifactError>(v@),
            Err(e) => zstd_parse(old(r).data@, count as nat) == Err::<Seq<Op>, ArtifactError>(e),
        },
{
    let ghost data = r.data@;
    let mut ops: Vec<Op> = Vec::new();
    let mut i: u64 = 0;
    while i < count
        invariant
            0 <= i <= count,
            r.data@ == data,
            data == old(r).data@,
            r.count@ == i,
            zstd_parse(data, i as nat) == Ok::<Seq<Op>, ArtifactError>(ops@),
            zstd_records_read(data, i as nat) matches Some(b) && b.len() == 56 * i,
        decreases count - i,
    {
        let ghost before = zstd_records_read(data, i as nat)->0;
        let mut buf: Vec<u8> = vec![0u8; OP_BYTES];
        let ok = zstd_read_record(r, buf.as_mut_slice());
        if !ok {
            proof {
                assert(zstd_records_read(data, (i + 1) as nat) is None);
                assert(zstd_parse(data, (i + 1) as nat) == Err::<Seq<Op>, ArtifactError>(ArtifactError::TruncatedOp(i)));
                lemma_zstd_parse_err_persists(data, (i + 1) as nat, count as nat);
            }
            return Err(ArtifactError::TruncatedOp(i));
        }
        let ghost rec = buf@;
        proof {
            let after = zstd_records_read(data, (i + 1) as nat)->0;
            assert(after == before + buf@);
            assert(after.subrange(56 * i, 56 * (i + 1)) =~= buf@);
            assert(buf@.subrange(0, 56) =~= buf@);
            assert(zstd_parse(data, (i + 1) as nat) == record_step(ops@, rec, i as nat));
        }
        match read_op(buf.as_slice(), 0) {
            None => {
                let raw = read_u32(buf.as_slice(), 0);
                proof {
                    lemma_zstd_parse_err_persists(data, (i + 1) as nat, count as nat);
                }
                return Err(ArtifactError::UnknownKind { index: i, raw });
            },
            Some(op) => {
                if !op.is_valid() {
                    proof {
                        lemma_zstd_parse_err_persists(data, (i + 1) as nat, count as nat);
                    }
                    return Err(ArtifactError::InvalidOp(i));
                }
                ops.push(op);
            },
        }
        i = i + 1;
    }
    Ok(ops)
}

/// Reads an artifact: checks the header, then reads the declared number of
/// records from the raw payload or from the decompressed payload.
pub fn parse_artifact(bytes: &[u8]) -> (res: Result<Vec<Op>, ArtifactError>)
    ensures
        match res {
            Ok(v) => artifact_spec(bytes@) == Ok::<Seq<Op>, ArtifactError>(v@),
            Err(e) => artifact_spec(bytes@) == Err::<Seq<Op>, ArtifactError>(e) || (e == ArtifactError::Decompress
                && zstd_framed(bytes@)),
        },
{
    let n = bytes.len();
    if n < 8 {
        return Err(ArtifactError::MissingMagic);
    }
    if n < HEADER_BYTES {
        return Err(ArtifactError::MissingCount);
    }
    let count = read_u64(bytes, 8);
    if count > MAX_OPS {
        return Err(ArtifactError::CountExceedsCap(count));
    }
    let raw = ArtifactFormat::Raw.magic();
    let zst = ArtifactFormat::Zstd.magic();
    let mut is_raw = true;
    let mut is_zstd = true;
    let mut k: usize = 0;
    while k < 8
        invariant
            0 <= k <= 8,
            n == bytes@.len(),
            n >= 16,
            raw@ == raw_magic(),
            zst@ == zstd_magic(),
            is_raw == (forall|j: int| 0 <= j < k ==> bytes@[j] == raw_magic()[j]),
            is_zstd == (forall|j: int| 0 <= j < k ==> bytes@[j] == zstd_magic()[j]),
        decreases 8 - k,
    {
        if bytes[k] != raw[k] {
            is_raw = false;
        }
        if bytes[k] != zst[k] {
            is_zstd = false;
        }
        k = k + 1;
    }
    proof {
        if is_raw {
            assert(bytes@.subrange(0, 8) =~= raw_magic());
        } else {
            assert(bytes@.subrange(0, 8) != raw_magic());
        }
        if is_zstd {
            assert(bytes@.subrange(0, 8) =~= zstd_magic());
        } else {
            assert(bytes@.subrange(0, 8) != zstd_magic());
        }
    }
    let payload = slice_from(bytes, HEADER_BYTES);
    if is_raw {
        let expected: u64 = 16 + count * 56;
        if n as u64 != expected {
            return Err(ArtifactError::LengthMismatch { actual: n as u64, expected, count });
        }
        read_ops_from(payload, count)
    } else if is_zstd {
        match zstd_open(payload) {
            None => Err(ArtifactError::Decompress),
            Some(inner) => {
                let mut r = ZstdRecordReader { inner, data: Ghost(payload@), count: Ghost(0) };
                read_ops_zstd(&mut r, count)
            },
        }
    } else {
        Err(ArtifactError::BadMagic)
    }
}

/// The bytes `s[start..]`.
fn slice_from(s: &[u8], start: usize) -> (out: &[u8])
    requires
        start <= s@.len(),
    ensures
        out@ == s@.subrange(start as int, s@.len() as int),
{
    let n = s.len();
    vstd::slice::slice_subrange(s, start, n)
}

/// The header of an artifact that declares `count` ops.
pub open spec fn header_spec(format: ArtifactFormat, count: u64) -> Seq<u8> {
    magic_of(format) + le64_bytes(count)
}

/// The 16-byte header of an artifact: the format's magic and the op count.
pub fn artifact_header(format: ArtifactFormat, count: u64) -> (h: Vec<u8>)
    ensures
        h@ == header_spec(format, count),
{
    let m = format.magic();
    let mut h: Vec<u8> = Vec::new();
    let mut k: usize = 0;
    while k < 8
        invariant
            0 <= k <= 8,
            m@ == magic_of(format),
            h@ == m@.subrange(0, k as int),
        decreases 8 - k,
    {
        proof {
            assert(m@.subrange(0, k + 1) =~= m@.subrange(0, k as int).push(m@[k as int]));
        }
        h.push(m[k]);
        k = k + 1;
    }
    assert(m@.subrange(0, 8) =~= m@);
    push_u64_le(&mut h, count);
    h
}

/// The concatenated 56-byte records of `ops`.
pub fn encode_records(ops: &[Op]) -> (out: Vec<u8>)
    ensures
        out@ == ops_records(ops@),
{
    let mut out: Vec<u8> = Vec::new();
    let mut i: usize = 0;
    while i < ops.len()
        invariant
            0 <= i <= ops.len(),
            out@ == ops_records(ops@.take(i as int)),
        decreases ops.len() - i,
    {
        proof {
            assert(ops@.take(i + 1).drop_last() =~= ops@.take(i as int));
        }
        write_op(&mut out, &ops[i]);
        i = i + 1;
    }
    assert(ops@.take(i as int) =~= ops@);
    out
}

/// Encodes a whole artifact: the header declaring `ops.len()` ops, then the
/// records, compressed at `ZSTD_LEVEL` for the compressed format. Returns
/// `None` only when the compressor fails.
pub fn encode_artifact(format: ArtifactFormat, ops: &[Op]) -> (out: Option<Vec<u8>>)
    requires
        ops@.len() <= u64::MAX,
    ensures
        format == ArtifactFormat::Raw ==> out is Some,
        out matches Some(v) ==> v@.len() >= 16 && v@.subrange(0, 16) == header_spec(format, ops@.len() as u64),
        format == ArtifactFormat::Raw ==> (out matches Some(v) && v@ == header_spec(
            format,
            ops@.len() as u64,
        ) + ops_records(ops@)),
        format == ArtifactFormat::Zstd ==> (out matches Some(v) ==> zstd_holds_records(
            v@.subrange(16, v@.len() as int),
            ops_records(ops@),
        )),
{
    let mut out = artifact_header(format, ops.len() as u64);
    let records = encode_records(ops);
    match format {
        ArtifactFormat::Raw => {
            let ghost h = out@;
            let mut rec = records;
            out.append(&mut rec);
            assert(out@.subrange(0, 16) =~= h);
            Some(out)
        },
        ArtifactFormat::Zstd => {
            match zstd_compress(records.as_slice(), ZSTD_LEVEL) {
                None => None,
                Some(c) => {
                    let ghost h = out@;
                    let ghost cv = c@;
                    let mut c = c;
                    out.append(&mut c);
                    assert(out@.subrange(0, 16) =~= h);
                    assert(out@.subrange(16, out@.len() as int) =~= cv);
                    Some(out)
                },
            }
        },
    }
}


/// The records of a stream are 56 bytes each, and record `i` sits at byte
/// `56 * i`.
pub proof fn lemma_ops_records_layout(ops: Seq<Op>)
    ensures
        ops_records(ops).len() == 56 * ops.len(),
        forall|i: int|
            0 <= i < ops.len() ==> #[trigger] ops_records(ops).subrange(56 * i, 56 * i + 56)
                == op_record(ops[i]),
    decreases ops.len(),
{
    if ops.len() > 0 {
        let prev = ops.drop_last();
        lemma_ops_records_layout(prev);
        lemma_record_roundtrip(ops.last());
        let all = ops_records(ops);
        assert forall|i: int| 0 <= i < ops.len() implies #[trigger] all.subrange(
            56 * i,
            56 * i + 56,
        ) == op_record(ops[i]) by {
            if i < ops.len() - 1 {
                assert(all.subrange(56 * i, 56 * i + 56) =~= ops_records(prev).subrange(
                    56 * i,
                    56 * i + 56,
                ));
                assert(prev[i] == ops[i]);
            } else {
                assert(all.subrange(56 * i, 56 * i + 56) =~= op_record(ops.last()));
            }
        }
    }
}

/// Reading the first `k` records of a stream of well-formed operations gives
/// its first `k` operations.
pub proof fn lemma_parse_records_of_ops(ops: Seq<Op>, k: nat)
    requires
        k <= ops.len(),
        forall|i: int| 0 <= i < ops.len() ==> op_valid(#[trigger] ops[i]),
    ensures
        parse_records(ops_records(ops), k) == Ok::<Seq<Op>, ArtifactError>(ops.take(k as int)),
    decreases k,
{
    lemma_ops_records_layout(ops);
    if k > 0 {
        lemma_parse_records_of_ops(ops, (k - 1) as nat);
        let i = (k - 1) as int;
        let p = ops_records(ops);
        assert(p.subrange(56 * i, 56 * i + 56) == op_record(ops[i]));
        assert(i * 56 == 56 * i);
        assert(56 * i + 56 <= 56 * ops.len()) by (nonlinear_arith)
            requires
                0 <= i < ops.len(),
        ;
        lemma_record_roundtrip(ops[i]);
        assert(op_valid(ops[i]));
        assert(decode_record(p.subrange(i * 56, i * 56 + 56)) == Some(ops[i]));
        assert(ops.take(k as int) =~= ops.take(i as int).push(ops[i as int]));
        assert(parse_records(p, k) == Ok::<Seq<Op>, ArtifactError>(
            ops.take(i as int).push(ops[i as int]),
        ));
    } else {
        assert(ops.take(0) =~= Seq::<Op>::empty());
    }
}

proof fn lemma_header_fields(format: ArtifactFormat, n: u64, bytes: Seq<u8>)
    requires
        bytes.len() >= 16,
        bytes.subrange(0, 16) == header_spec(format, n),
    ensures
        le64_value(bytes.subrange(8, 16)) == n,
        bytes.subrange(0, 8) == magic_of(format),
{
    let h = header_spec(format, n);
    assert(bytes.subrange(8, 16) =~= h.subrange(8, 16));
    assert(h.subrange(8, 16) =~= le64_bytes(n));
    lemma_le64_roundtrip(n);
    assert(bytes.subrange(0, 8) =~= h.subrange(0, 8));
    assert(h.subrange(0, 8) =~= magic_of(format));
}

/// Reading an artifact gives back the operations it was written from: the
/// header declares their number, and the payload holds their records, either
/// as they are or compressed so that they decompress back to the records.
pub proof fn lemma_artifact_roundtrip(format: ArtifactFormat, ops: Seq<Op>, bytes: Seq<u8>)
    requires
        ops.len() <= MAX_OPS,
        forall|i: int| 0 <= i < ops.len() ==> op_valid(#[trigger] ops[i]),
        bytes.len() >= 16,
        bytes.subrange(0, 16) == header_spec(format, ops.len() as u64),
        format == ArtifactFormat::Raw ==> bytes == header_spec(format, ops.len() as u64)
            + ops_records(ops),
        format == ArtifactFormat::Zstd ==> zstd_holds_records(bytes.subrange(16, bytes.len() as int), ops_records(ops)),
    ensures
        artifact_spec(bytes) == Ok::<Seq<Op>, ArtifactError>(ops),
{
    let n = ops.len() as u64;
    lemma_header_fields(format, n, bytes);
    assert(raw_magic() != zstd_magic()) by {
        assert(raw_magic()[7] != zstd_magic()[7]);
    }
    let recs = ops_records(ops);
    assert(recs.len() == 56 * ops.len()) by {
        lemma_ops_records_layout(ops);
    }
    assert(parse_records(recs, ops.len()) == Ok::<Seq<Op>, ArtifactError>(ops)) by {
        lemma_parse_records_of_ops(ops, ops.len());
        assert(ops.take(ops.len() as int) =~= ops);
    }
    if format == ArtifactFormat::Raw {
        assert(bytes.subrange(16, bytes.len() as int) =~= recs);
    } else {
        lemma_zstd_parse_of_records(bytes.subrange(16, bytes.len() as int), recs, ops.len());
    }
}

/// A compressed payload that yields `recs` record by record: reading whole
/// records from a decoder over it gives the bytes of `recs` in order.
pub open spec fn zstd_holds_records(c: Seq<u8>, recs: Seq<u8>) -> bool {
    forall|k: nat| 56 * k <= recs.len() ==> #[trigger] zstd_records_read(c, k) == Some(recs.take(56 * k as int))
}

/// Reading records from a compressed payload that yields `recs` is reading
/// them from `recs` itself.
pub proof fn lemma_zstd_parse_of_records(c: Seq<u8>, recs: Seq<u8>, i: nat)
    requires
        zstd_holds_records(c, recs),
        56 * i <= recs.len(),
    ensures
        zstd_parse(c, i) == parse_records(recs, i),
    decreases i,
{
    if i > 0 {
        let k = (i - 1) as nat;
        lemma_zstd_parse_of_records(c, recs, k);
        assert(zstd_records_read(c, i) == Some(recs.take(56 * i as int)));
        let off = (56 * k) as int;
        let rec = recs.take(56 * i as int).subrange(off, off + 56);
        assert(rec =~= recs.subrange(off, off + 56));
        assert(rec.subrange(0, 4) =~= recs.subrange(off, off + 4));
    }
}

} // verus!
