//! Evaluation of an oracle circuit: shot inputs drawn from a Fiat-Shamir
//! stream seeded by the circuit itself, batched simulation, and the checks
//! of the oracle output, input preservation, phase and ancilla cleanliness.
use crate::circuit::{kind_code, kind_code_spec, op_bit_bound, op_qubit_bound, op_valid, Op, QubitId, QubitOrBit, NO_INDEX};
use crate::curve::{
    checked_oracle_point, checked_scalar_mul, generator, generator_spec, infinity_point, ladder,
    ladder_defined, oracle_defined, oracle_point_spec, scalar_mul_spec, Point, GROUP_ORDER,
};
use crate::group::{lemma_oracle_on_multiples, lemma_scalar_mul_is_repeated_addition};
use crate::ops_io::{le64_bytes, push_u64_le};
use crate::sim::{
    bit_on, lemma_run_counts, machine_run, machine_start, ops_fit, reg_fits, reg_write, stats_after,
    stats_room, wire_word, xof_bytes, zero_stats, SimStats, Simulator, XofStream,
};
use vstd::arithmetic::power2::pow2;
use vstd::prelude::*;
use vstd::string::StringSliceAdditionalSpecFns;

verus! {

/// The number of shots an evaluation runs.
pub const NUM_TESTS: usize = 9024;

/// The number of shots simulated together.
pub const BATCH: usize = 64;

/// The number of registers of the oracle's interface.
pub const NUM_REGISTERS: usize = 8;

/// The bytes that open the Fiat-Shamir transcript.
pub open spec fn domain_tag() -> Seq<u8> {
    "ecdlp-shor-ecdlp-5bit-variable-q-oracle-fiat-shamir-v1".spec_bytes()
}

/// The transcript bytes of one operation: its kind code as one byte, then
/// its six operand ids as little-endian words.
pub open spec fn op_transcript(op: Op) -> Seq<u8> {
    seq![kind_code_spec(op.kind) as u8] + le64_bytes(op.q_control2.0) + le64_bytes(op.q_control1.0)
        + le64_bytes(op.q_target.0) + le64_bytes(op.c_target.0) + le64_bytes(op.c_condition.0)
        + le64_bytes(op.r_target.0)
}

/// The transcript bytes of a sequence of operations, in order.
pub open spec fn ops_transcript(ops: Seq<Op>) -> Seq<u8>
    decreases ops.len(),
{
    if ops.len() == 0 {
        Seq::empty()
    } else {
        ops_transcript(ops.drop_last()) + op_transcript(ops.last())
    }
}

/// The Fiat-Shamir transcript of a circuit: the domain tag, the number of
/// operations as a little-endian word, and each operation's bytes.
pub open spec fn transcript_spec(ops: Seq<Op>) -> Seq<u8> {
    domain_tag() + le64_bytes(ops.len() as u64) + ops_transcript(ops)
}

/// The Fiat-Shamir transcript of `ops`.
pub fn transcript(ops: &[Op]) -> (t: Vec<u8>)
    ensures
        t@ == transcript_spec(ops@),
{
    let mut t: Vec<u8> = Vec::new();
    let tag = "ecdlp-shor-ecdlp-5bit-variable-q-oracle-fiat-shamir-v1".as_bytes();
    let mut i: usize = 0;
    while i < tag.len()
        invariant
            0 <= i <= tag@.len(),
            t@ == tag@.subrange(0, i as int),
        decreases tag@.len() - i,
    {
        t.push(tag[i]);
        proof {
            assert(t@ =~= tag@.subrange(0, i + 1));
        }
        i = i + 1;
    }
    proof {
        assert(t@ =~= domain_tag());
    }
    push_u64_le(&mut t, ops.len() as u64);
    let ghost head = t@;
    let mut k: usize = 0;
    proof {
        assert(ops@.take(0) =~= Seq::<Op>::empty());
        assert(t@ =~= head + ops_transcript(ops@.take(0)));
    }
    while k < ops.len()
        invariant
            0 <= k <= ops@.len(),
            head == domain_tag() + le64_bytes(ops@.len() as u64),
            t@ == head + ops_transcript(ops@.take(k as int)),
        decreases ops@.len() - k,
    {
        let op = ops[k];
        let ghost before = t@;
        t.push(kind_code(op.kind) as u8);
        push_u64_le(&mut t, op.q_control2.0);
        push_u64_le(&mut t, op.q_control1.0);
        push_u64_le(&mut t, op.q_target.0);
        push_u64_le(&mut t, op.c_target.0);
        push_u64_le(&mut t, op.c_condition.0);
        push_u64_le(&mut t, op.r_target.0);
        proof {
            assert(ops@.take(k + 1).drop_last() =~= ops@.take(k as int));
            assert(ops@.take(k + 1).last() == op);
            assert(t@ =~= before + op_transcript(op));
        }
        k = k + 1;
    }
    proof {
        assert(ops@.take(ops@.len() as int) =~= ops@);
    }
    t
}

/// The Fiat-Shamir stream of a circuit: SHAKE256 of its transcript.
pub fn fiat_shamir_seed(ops: &[Op]) -> (x: XofStream)
    ensures
        x.seed() == transcript_spec(ops@),
        x.position() == 0,
{
    let t = transcript(ops);
    XofStream::from_seed(&t)
}

/// The inputs of one shot: the scalars `a` and `b`, and the point `Q`
/// with the multiple of the generator it was drawn as.
#[derive(Clone, Copy, Debug, PartialEq, Eq, Structural)]
pub struct ShotInput {
    pub a: u16,
    pub b: u16,
    pub q_scalar: u16,
    pub q: Point,
}

/// The shot drawn from three stream bytes: `a` and `b` are the low five
/// bits of the first two, and `Q = kG` for `k` the third modulo the group
/// order (the point at infinity should that ladder not be defined).
pub open spec fn shot_from_bytes(b0: u8, b1: u8, b2: u8) -> ShotInput {
    let k = (b2 % 21) as u16;
    ShotInput {
        a: (b0 & 31) as u16,
        b: (b1 & 31) as u16,
        q_scalar: k,
        q: if ladder_defined(k as nat, infinity_point(), generator_spec()) {
            ladder(k as nat, infinity_point(), generator_spec())
        } else {
            infinity_point()
        },
    }
}

/// The shot drawn from three stream bytes.
pub fn shot_input(b0: u8, b1: u8, b2: u8) -> (s: ShotInput)
    ensures
        s == shot_from_bytes(b0, b1, b2),
{
    let a = (b0 & 31) as u16;
    let b = (b1 & 31) as u16;
    let k = (b2 as u16) % GROUP_ORDER;
    let q = match checked_scalar_mul(k, generator()) {
        Some(p) => p,
        None => Point { x: 0, y: 0, infinity: true },
    };
    proof {
        assert(k % 21 == k);
    }
    ShotInput { a, b, q_scalar: k, q }
}

/// Whether a shot is one drawn from some three stream bytes.
pub open spec fn drawn(s: ShotInput) -> bool {
    exists|b0: u8, b1: u8, b2: u8| s == #[trigger] shot_from_bytes(b0, b1, b2)
}

/// Every drawn shot has `Q = kG` for its recorded `k`, the reference
/// arithmetic is defined on it, and its expected output is `(a + b k) G`:
/// no drawn shot fails for want of a reference point.
pub proof fn lemma_drawn_reference(s: ShotInput)
    requires
        drawn(s),
    ensures
        s.q == scalar_mul_spec(s.q_scalar as nat, generator_spec()),
        oracle_defined(s.a, s.b, s.q),
        oracle_point_spec(s.a, s.b, s.q) == scalar_mul_spec(
            (s.a + s.b * s.q_scalar) as nat,
            generator_spec(),
        ),
{
    let (b0, b1, b2) = choose|b0: u8, b1: u8, b2: u8| s == #[trigger] shot_from_bytes(b0, b1, b2);
    let k = s.q_scalar as nat;
    lemma_scalar_mul_is_repeated_addition(k, 1);
    crate::group::lemma_generator_order(1);
    assert(scalar_mul_spec(1, generator_spec()) == generator_spec()) by {
        assert(scalar_mul_spec(0, generator_spec()) == infinity_point());
    }
    assert(k % 21 == k);
    lemma_oracle_on_multiples(s.a, s.b, k);
}

/// The `n` shots drawn from the SHAKE256 output of `seed` from byte `pos`
/// on: shot `i` is made from bytes `pos + 3i`, `pos + 3i + 1` and
/// `pos + 3i + 2`.
pub open spec fn drawn_inputs(seed: Seq<u8>, pos: nat, n: nat) -> Seq<ShotInput> {
    Seq::new(
        n,
        |i: int|
            {
                let b = xof_bytes(seed, (pos + 3 * i) as nat, 3);
                shot_from_bytes(b[0], b[1], b[2])
            },
    )
}

/// Draws `n` shots from the stream, three bytes each.
pub fn draw_inputs(xof: &mut XofStream, n: usize) -> (inputs: Vec<ShotInput>)
    ensures
        inputs@ == drawn_inputs(old(xof).seed(), old(xof).position(), n as nat),
        final(xof).seed() == old(xof).seed(),
        final(xof).position() == old(xof).position() + 3 * n,
        forall|i: int| 0 <= i < n ==> drawn(#[trigger] inputs@[i]),
{
    let ghost seed = xof.seed();
    let ghost pos = xof.position();
    let mut inputs: Vec<ShotInput> = Vec::new();
    while inputs.len() < n
        invariant
            inputs@.len() <= n,
            seed == old(xof).seed(),
            pos == old(xof).position(),
            xof.seed() == seed,
            xof.position() == pos + 3 * inputs@.len(),
            inputs@ == drawn_inputs(seed, pos, inputs@.len() as nat),
            forall|i: int| 0 <= i < inputs@.len() ==> drawn(#[trigger] inputs@[i]),
        decreases n - inputs@.len(),
    {
        let ghost k = inputs@.len();
        let bytes = xof.next_bytes(3);
        let s = shot_input(bytes[0], bytes[1], bytes[2]);
        inputs.push(s);
        proof {
            assert(bytes@ == xof_bytes(seed, (pos + 3 * k) as nat, 3));
            assert(inputs@[inputs@.len() - 1] == shot_from_bytes(bytes@[0], bytes@[1], bytes@[2]));
            assert(drawn(inputs@[inputs@.len() - 1]));
            assert(inputs@ =~= drawn_inputs(seed, pos, inputs@.len() as nat));
        }
    }
    inputs
}

/// Why an evaluation failed: the first failing check it met.
#[derive(Clone, Copy, Debug, PartialEq, Eq, Structural)]
pub enum FailReason {
    /// An input register did not keep its value in this shot.
    InputMismatch {
        shot: usize,
        expected: ShotInput,
        got_a: u16,
        got_b: u16,
        got_x: u16,
        got_y: u16,
        got_inf: bool,
    },
    /// The output register did not hold `aG + bQ` in this shot;
    /// `reference` is `None` where the reference arithmetic is not defined.
    OracleMismatch { shot: usize, input: ShotInput, got: Point, reference: Option<Point> },
    /// A live shot of the batch ended with its phase flipped.
    PhaseGarbage { phase: u64, live_shots: usize },
    /// A qubit outside the registers ended set in a live shot.
    AncillaGarbage { qubit: u64, value: u64 },
}

/// The value that shot `shot` holds in the first `n` wires of a register,
/// least significant first.
pub open spec fn reg_value(q: Seq<u64>, b: Seq<u64>, reg: Seq<QubitOrBit>, shot: int, n: nat) -> nat
    decreases n,
{
    if n == 0 {
        0
    } else {
        reg_value(q, b, reg, shot, (n - 1) as nat) + if bit_on(wire_word(q, b, reg[n - 1]), shot) {
            pow2((n - 1) as nat)
        } else {
            0
        }
    }
}

/// The value that shot `shot` holds in a register.
pub open spec fn read_reg(q: Seq<u64>, b: Seq<u64>, reg: Seq<QubitOrBit>, shot: int) -> nat {
    reg_value(q, b, reg, shot, reg.len())
}

/// The register value of a shot.
pub fn register_value(sim: &Simulator, reg: &[QubitOrBit], shot: usize) -> (v: u16)
    requires
        sim.wf(),
        shot < 64,
        reg@.len() <= 16,
        reg_fits(reg@, sim.num_qubits as nat, sim.num_bits as nat),
    ensures
        v == read_reg(sim.qubits@, sim.bits@, reg@, shot as int),
{
    let w = sim.get_register(reg, shot);
    let mut v: u64 = 0;
    let mut i: usize = 0;
    proof {
        vstd::arithmetic::power2::lemma2_to64();
    }
    while i < reg.len()
        invariant
            0 <= i <= reg@.len() <= 16,
            shot < 64,
            v == reg_value(sim.qubits@, sim.bits@, reg@, shot as int, i as nat),
            v < pow2(i as nat),
            forall|j: int|
                0 <= j < 256 ==> #[trigger] crate::sim::word_bit(w, j) == (j < reg@.len() && bit_on(
                    wire_word(sim.qubits@, sim.bits@, reg@[j]),
                    shot as int,
                )),
        decreases reg@.len() - i,
    {
        proof {
            vstd::arithmetic::power2::lemma2_to64();
            vstd::bits::lemma_u64_pow2_no_overflow(i as nat);
            vstd::bits::lemma_u64_shl_is_mul(1, i as u64);
            vstd::arithmetic::power2::lemma_pow2_unfold((i + 1) as nat);
            assert(crate::sim::word_bit(w, i as int) == bit_on(w[0], i as int));
            assert(pow2(i as nat) <= 32768);
        }
        if (w[0] >> (i as u64)) & 1 != 0 {
            v = v + (1u64 << (i as u64));
        }
        i = i + 1;
    }
    proof {
        vstd::arithmetic::power2::lemma2_to64();
        if reg@.len() < 16 {
            vstd::arithmetic::power2::lemma_pow2_strictly_increases(reg@.len() as nat, 16);
        }
    }
    v as u16
}

/// The wires of each register.
pub open spec fn regs_of(layout: Seq<Vec<QubitOrBit>>) -> Seq<Seq<QubitOrBit>> {
    layout.map_values(|r: Vec<QubitOrBit>| r@)
}

/// The eight registers of the oracle interface are declared, each at most
/// sixteen wires wide and within the simulator.
pub open spec fn layout_ok(layout: Seq<Seq<QubitOrBit>>, num_qubits: nat, num_bits: nat) -> bool {
    &&& layout.len() == NUM_REGISTERS
    &&& forall|k: int| 0 <= k < layout.len() ==> (#[trigger] layout[k]).len() <= 16 && reg_fits(layout[k], num_qubits, num_bits)
}

/// Whether an output reads as the expected point.
pub open spec fn output_matches(got: Point, expected: Point) -> bool {
    if expected.infinity {
        got.infinity && got.x == 0 && got.y == 0
    } else {
        !got.infinity && got.x == expected.x && got.y == expected.y
    }
}

/// The verdict on one shot: `None` when its inputs are kept and its output
/// is `aG + bQ`, else the reason it failed.
pub open spec fn shot_result(q: Seq<u64>, b: Seq<u64>, layout: Seq<Seq<QubitOrBit>>, shot: int, index: usize, input: ShotInput) -> Option<FailReason> {
    let ra = read_reg(q, b, layout[0], shot) as u16;
    let rb = read_reg(q, b, layout[1], shot) as u16;
    let rx = read_reg(q, b, layout[2], shot) as u16;
    let ry = read_reg(q, b, layout[3], shot) as u16;
    let rinf = read_reg(q, b, layout[4], shot) != 0;
    if ra != input.a || rb != input.b || rx != input.q.x || ry != input.q.y || rinf != input.q.infinity {
        Some(FailReason::InputMismatch { shot: index, expected: input, got_a: ra, got_b: rb, got_x: rx, got_y: ry, got_inf: rinf })
    } else {
        let got = Point {
            x: read_reg(q, b, layout[5], shot) as u16,
            y: read_reg(q, b, layout[6], shot) as u16,
            infinity: read_reg(q, b, layout[7], shot) != 0,
        };
        if oracle_defined(input.a, input.b, input.q) {
            let e = oracle_point_spec(input.a, input.b, input.q);
            if output_matches(got, e) {
                None
            } else {
                Some(FailReason::OracleMismatch { shot: index, input, got, reference: Some(e) })
            }
        } else {
            Some(FailReason::OracleMismatch { shot: index, input, got, reference: None })
        }
    }
}

/// A shot fails as an input mismatch exactly when one of the five input
/// registers reads back differently from what was written: the scalars `a`
/// and `b`, the coordinates of `Q`, or its infinity flag (register 4, read
/// as set when nonzero). A shot whose inputs all read back is checked on its
/// output alone.
pub proof fn lemma_input_check(q: Seq<u64>, b: Seq<u64>, layout: Seq<Seq<QubitOrBit>>, shot: int, index: usize, input: ShotInput)
    ensures
        (shot_result(q, b, layout, shot, index, input) matches Some(FailReason::InputMismatch { .. })) <==> (
        read_reg(q, b, layout[0], shot) as u16 != input.a
            || read_reg(q, b, layout[1], shot) as u16 != input.b
            || read_reg(q, b, layout[2], shot) as u16 != input.q.x
            || read_reg(q, b, layout[3], shot) as u16 != input.q.y
            || (read_reg(q, b, layout[4], shot) != 0) != input.q.infinity),
        (read_reg(q, b, layout[4], shot) != 0) != input.q.infinity ==> shot_result(q, b, layout, shot, index, input)
            == Some(FailReason::InputMismatch {
            shot: index,
            expected: input,
            got_a: read_reg(q, b, layout[0], shot) as u16,
            got_b: read_reg(q, b, layout[1], shot) as u16,
            got_x: read_reg(q, b, layout[2], shot) as u16,
            got_y: read_reg(q, b, layout[3], shot) as u16,
            got_inf: !input.q.infinity,
        }),
{
}

/// A shot passes exactly when its five input registers read back what was
/// written and its output registers 5, 6 and 7 read back the encoding of
/// the reference `aG + bQ`: `(0, 0, set)` for the point at infinity, else its
/// coordinates with the flag clear. A shot whose reference is not defined
/// never passes.
pub proof fn lemma_shot_passes(q: Seq<u64>, b: Seq<u64>, layout: Seq<Seq<QubitOrBit>>, shot: int, index: usize, input: ShotInput)
    ensures
        shot_result(q, b, layout, shot, index, input) is None <==> {
            &&& read_reg(q, b, layout[0], shot) as u16 == input.a
            &&& read_reg(q, b, layout[1], shot) as u16 == input.b
            &&& read_reg(q, b, layout[2], shot) as u16 == input.q.x
            &&& read_reg(q, b, layout[3], shot) as u16 == input.q.y
            &&& (read_reg(q, b, layout[4], shot) != 0) == input.q.infinity
            &&& oracle_defined(input.a, input.b, input.q)
            &&& {
                let e = oracle_point_spec(input.a, input.b, input.q);
                (
                    read_reg(q, b, layout[5], shot) as u16,
                    read_reg(q, b, layout[6], shot) as u16,
                    read_reg(q, b, layout[7], shot) != 0,
                ) == (if e.infinity {
                    (0u16, 0u16, true)
                } else {
                    (e.x, e.y, false)
                })
            }
        },
{
}

/// Checks one shot of a simulated batch.
pub fn check_shot(sim: &Simulator, layout: &[Vec<QubitOrBit>], shot: usize, index: usize, input: ShotInput) -> (r: Option<FailReason>)
    requires
        sim.wf(),
        shot < 64,
        layout_ok(layout@.map_values(|r: Vec<QubitOrBit>| r@), sim.num_qubits as nat, sim.num_bits as nat),
    ensures
        r == shot_result(sim.qubits@, sim.bits@, layout@.map_values(|r: Vec<QubitOrBit>| r@), shot as int, index, input),
{
    let ghost regs = layout@.map_values(|r: Vec<QubitOrBit>| r@);
    proof {
        assert forall|k: int| 0 <= k < 8 implies #[trigger] layout@[k]@ == regs[k] by {}
        assert(layout@[0]@.len() <= 16 && reg_fits(layout@[0]@, sim.num_qubits as nat, sim.num_bits as nat));
    }
    let a_in = register_value(sim, &layout[0], shot);
    let b_in = register_value(sim, &layout[1], shot);
    let qx_in = register_value(sim, &layout[2], shot);
    let qy_in = register_value(sim, &layout[3], shot);
    let qinf_in = register_value(sim, &layout[4], shot) != 0;
    if a_in != input.a || b_in != input.b || qx_in != input.q.x || qy_in != input.q.y || qinf_in != input.q.infinity {
        return Some(FailReason::InputMismatch {
            shot: index,
            expected: input,
            got_a: a_in,
            got_b: b_in,
            got_x: qx_in,
            got_y: qy_in,
            got_inf: qinf_in,
        });
    }
    let got = Point {
        x: register_value(sim, &layout[5], shot),
        y: register_value(sim, &layout[6], shot),
        infinity: register_value(sim, &layout[7], shot) != 0,
    };
    match checked_oracle_point(input.a, input.b, input.q) {
        Some(e) => {
            let ok = if e.infinity {
                got.infinity && got.x == 0 && got.y == 0
            } else {
                !got.infinity && got.x == e.x && got.y == e.y
            };
            if ok {
                None
            } else {
                Some(FailReason::OracleMismatch { shot: index, input, got, reference: Some(e) })
            }
        },
        None => Some(FailReason::OracleMismatch { shot: index, input, got, reference: None }),
    }
}

/// Whether qubit `i` is a wire of one of the registers, counting register
/// `k` only up to its wire `j` and the registers after it not at all.
pub open spec fn in_regs(regs: Seq<Seq<QubitOrBit>>, k: int, j: int, i: int) -> bool {
    exists|k2: int, j2: int|
        0 <= k2 < regs.len() && 0 <= j2 < regs[k2].len() && (k2 < k || (k2 == k && j2 < j))
            && #[trigger] regs[k2][j2] == QubitOrBit::Qubit(QubitId(i as u64))
}

/// Whether qubit `i` is a wire of a register.
pub open spec fn in_layout(regs: Seq<Seq<QubitOrBit>>, i: int) -> bool {
    in_regs(regs, regs.len() as int, 0, i)
}

/// The qubit words with the wires of the registers so far cleared.
pub open spec fn cleared_upto(q: Seq<u64>, regs: Seq<Seq<QubitOrBit>>, k: int, j: int) -> Seq<u64> {
    Seq::new(q.len(), |i: int| if in_regs(regs, k, j, i) { 0u64 } else { q[i] })
}

/// The live shots of a batch of `bs` shots: its low `bs` bits.
pub open spec fn live_mask(bs: nat) -> u64 {
    if bs >= 64 {
        u64::MAX
    } else {
        ((1u64 << (bs as u64)) - 1) as u64
    }
}

/// The first qubit below `n` outside the registers that is set in a live
/// shot.
pub open spec fn first_garbage(q: Seq<u64>, regs: Seq<Seq<QubitOrBit>>, mask: u64, n: nat) -> Option<u64>
    decreases n,
{
    if n == 0 {
        None
    } else {
        match first_garbage(q, regs, mask, (n - 1) as nat) {
            Some(g) => Some(g),
            None => if !in_layout(regs, n - 1) && q[n - 1] & mask != 0 {
                Some((n - 1) as u64)
            } else {
                None
            },
        }
    }
}

/// The first failing shot of the batch among its first `n` shots.
pub open spec fn first_shot_failure(q: Seq<u64>, b: Seq<u64>, regs: Seq<Seq<QubitOrBit>>, inputs: Seq<ShotInput>, base: int, n: nat) -> Option<FailReason>
    decreases n,
{
    if n == 0 {
        None
    } else {
        match first_shot_failure(q, b, regs, inputs, base, (n - 1) as nat) {
            Some(r) => Some(r),
            None => shot_result(q, b, regs, n - 1, (base + n - 1) as usize, inputs[base + n - 1]),
        }
    }
}

/// How many of the first `n` shots of the batch fail on their inputs
/// (`inputs_kind`) or on their output.
pub open spec fn count_failures(q: Seq<u64>, b: Seq<u64>, regs: Seq<Seq<QubitOrBit>>, inputs: Seq<ShotInput>, base: int, n: nat, inputs_kind: bool) -> nat
    decreases n,
{
    if n == 0 {
        0
    } else {
        count_failures(q, b, regs, inputs, base, (n - 1) as nat, inputs_kind) + match shot_result(q, b, regs, n - 1, (base + n - 1) as usize, inputs[base + n - 1]) {
            Some(FailReason::InputMismatch { .. }) => if inputs_kind { 1nat } else { 0nat },
            Some(FailReason::OracleMismatch { .. }) => if inputs_kind { 0nat } else { 1nat },
            _ => 0nat,
        }
    }
}

/// The findings of one simulated batch.
#[derive(Clone, Copy, Debug, PartialEq, Eq, Structural)]
pub struct BatchVerdict {
    pub input_failures: usize,
    pub oracle_failures: usize,
    pub phase_garbage: bool,
    pub ancilla_garbage: bool,
    pub first_failure: Option<FailReason>,
}

/// The verdict on a batch of `bs` shots, the shots `base` on of `inputs`,
/// whose simulation ended with qubit words `q`, bit words `b` and phase
/// `phase`: each shot checked in order, then the phase of the live shots,
/// then the qubits outside the registers.
pub open spec fn batch_verdict(q: Seq<u64>, b: Seq<u64>, phase: u64, regs: Seq<Seq<QubitOrBit>>, inputs: Seq<ShotInput>, base: int, bs: nat) -> BatchVerdict {
    let mask = live_mask(bs);
    let garbage = first_garbage(q, regs, mask, q.len());
    BatchVerdict {
        input_failures: count_failures(q, b, regs, inputs, base, bs, true) as usize,
        oracle_failures: count_failures(q, b, regs, inputs, base, bs, false) as usize,
        phase_garbage: phase & mask != 0,
        ancilla_garbage: garbage is Some,
        first_failure: match first_shot_failure(q, b, regs, inputs, base, bs) {
            Some(r) => Some(r),
            None => if phase & mask != 0 {
                Some(FailReason::PhaseGarbage { phase: phase & mask, live_shots: bs as usize })
            } else {
                match garbage {
                    Some(g) => Some(FailReason::AncillaGarbage { qubit: g, value: q[g as int] & mask }),
                    None => None,
                }
            },
        },
    }
}

/// Checks a simulated batch: each shot, the phase of the live shots, and,
/// after clearing the register wires, every other qubit.
pub fn check_batch(sim: &mut Simulator, layout: &[Vec<QubitOrBit>], inputs: &[ShotInput], base: usize, bs: usize) -> (v: BatchVerdict)
    requires
        old(sim).wf(),
        1 <= bs <= 64,
        base + bs <= inputs@.len(),
        layout_ok(layout@.map_values(|r: Vec<QubitOrBit>| r@), old(sim).num_qubits as nat, old(sim).num_bits as nat),
    ensures
        v == batch_verdict(old(sim).qubits@, old(sim).bits@, old(sim).phase, layout@.map_values(|r: Vec<QubitOrBit>| r@), inputs@, base as int, bs as nat),
        final(sim).wf(),
        final(sim).num_qubits == old(sim).num_qubits,
        final(sim).num_bits == old(sim).num_bits,
        final(sim).stats == old(sim).stats,
        v.input_failures + v.oracle_failures <= bs,
{
    let ghost regs = layout@.map_values(|r: Vec<QubitOrBit>| r@);
    let ghost q0 = sim.qubits@;
    let mut input_failures: usize = 0;
    let mut oracle_failures: usize = 0;
    let mut first: Option<FailReason> = None;
    let mut shot: usize = 0;
    let n_inputs = inputs.len();
    while shot < bs
        invariant
            0 <= shot <= bs <= 64,
            n_inputs == inputs@.len(),
            base + bs <= inputs@.len(),
            sim.wf(),
            *sim == *old(sim),
            regs == layout@.map_values(|r: Vec<QubitOrBit>| r@),
            layout_ok(regs, sim.num_qubits as nat, sim.num_bits as nat),
            input_failures == count_failures(sim.qubits@, sim.bits@, regs, inputs@, base as int, shot as nat, true),
            oracle_failures == count_failures(sim.qubits@, sim.bits@, regs, inputs@, base as int, shot as nat, false),
            input_failures + oracle_failures <= shot,
            first == first_shot_failure(sim.qubits@, sim.bits@, regs, inputs@, base as int, shot as nat),
        decreases bs - shot,
    {
        let r = check_shot(sim, layout, shot, base + shot, inputs[base + shot]);
        match r {
            Some(FailReason::InputMismatch { .. }) => {
                input_failures = input_failures + 1;
            },
            Some(FailReason::OracleMismatch { .. }) => {
                oracle_failures = oracle_failures + 1;
            },
            _ => {},
        }
        if first.is_none() {
            first = r;
        }
        shot = shot + 1;
    }
    let mask: u64 = if bs == 64 {
        u64::MAX
    } else {
        proof {
            vstd::bits::lemma_u64_pow2_no_overflow(bs as nat);
            vstd::bits::lemma_u64_shl_is_mul(1, bs as u64);
            vstd::arithmetic::power2::lemma_pow2_pos(bs as nat);
        }
        (1u64 << (bs as u64)) - 1
    };
    let phase = sim.phase & mask;
    let phase_garbage = phase != 0;
    if first.is_none() && phase_garbage {
        first = Some(FailReason::PhaseGarbage { phase, live_shots: bs });
    }
    let ghost before_clear = *sim;
    let mut k: usize = 0;
    proof {
        assert(cleared_upto(q0, regs, 0, 0) =~= q0);
    }
    while k < layout.len()
        invariant
            0 <= k <= layout@.len(),
            layout@.len() == NUM_REGISTERS,
            regs == layout@.map_values(|r: Vec<QubitOrBit>| r@),
            layout_ok(regs, sim.num_qubits as nat, sim.num_bits as nat),
            sim.wf(),
            sim.num_qubits == old(sim).num_qubits,
            sim.num_bits == old(sim).num_bits,
            sim.stats == old(sim).stats,
            q0.len() == sim.num_qubits,
            sim.qubits@ == cleared_upto(q0, regs, k as int, 0),
        decreases layout@.len() - k,
    {
        let mut j: usize = 0;
        while j < layout[k].len()
            invariant
                0 <= k < layout@.len(),
                0 <= j <= layout@[k as int]@.len(),
                layout@.len() == NUM_REGISTERS,
                regs == layout@.map_values(|r: Vec<QubitOrBit>| r@),
                layout_ok(regs, sim.num_qubits as nat, sim.num_bits as nat),
                sim.wf(),
                sim.num_qubits == old(sim).num_qubits,
                sim.num_bits == old(sim).num_bits,
                sim.stats == old(sim).stats,
                q0.len() == sim.num_qubits,
                sim.qubits@ == cleared_upto(q0, regs, k as int, j as int),
            decreases layout@[k as int]@.len() - j,
        {
            let ghost cur = sim.qubits@;
            proof {
                assert(regs[k as int] == layout@[k as int]@);
                assert(reg_fits(regs[k as int], sim.num_qubits as nat, sim.num_bits as nat));
                assert(regs[k as int][j as int] == layout@[k as int]@[j as int]);
            }
            match layout[k][j] {
                QubitOrBit::Qubit(q) => {
                    *sim.qubit_mut(q) = 0;
                    proof {
                        assert forall|i: int| 0 <= i < q0.len() implies #[trigger] sim.qubits@[i] == cleared_upto(q0, regs, k as int, j + 1)[i] by {
                            if i == q.0 {
                                assert(in_regs(regs, k as int, j + 1, i));
                            } else if in_regs(regs, k as int, j + 1, i) {
                                let (k2, j2) = choose|k2: int, j2: int|
                                    0 <= k2 < regs.len() && 0 <= j2 < regs[k2].len() && (k2 < k || (k2 == k && j2 < j + 1))
                                        && #[trigger] regs[k2][j2] == QubitOrBit::Qubit(QubitId(i as u64));
                                if k2 == k && j2 == j {
                                    assert(false);
                                }
                                assert(in_regs(regs, k as int, j as int, i));
                            } else {
                                assert(!in_regs(regs, k as int, j as int, i));
                            }
                        }
                        assert(sim.qubits@ =~= cleared_upto(q0, regs, k as int, j + 1));
                    }
                },
                QubitOrBit::Bit(_) => {
                    proof {
                        assert forall|i: int| 0 <= i < q0.len() implies #[trigger] in_regs(regs, k as int, j + 1, i) == in_regs(regs, k as int, j as int, i) by {
                            if in_regs(regs, k as int, j + 1, i) {
                                let (k2, j2) = choose|k2: int, j2: int|
                                    0 <= k2 < regs.len() && 0 <= j2 < regs[k2].len() && (k2 < k || (k2 == k && j2 < j + 1))
                                        && #[trigger] regs[k2][j2] == QubitOrBit::Qubit(QubitId(i as u64));
                                if k2 == k && j2 == j {
                                    assert(false);
                                }
                            }
                        }
                        assert(sim.qubits@ =~= cleared_upto(q0, regs, k as int, j + 1));
                    }
                },
            }
            j = j + 1;
        }
        proof {
            assert forall|i: int| 0 <= i < q0.len() implies #[trigger] in_regs(regs, k + 1, 0, i) == in_regs(regs, k as int, layout@[k as int]@.len() as int, i) by {
                if in_regs(regs, k + 1, 0, i) {
                    let (k2, j2) = choose|k2: int, j2: int|
                        0 <= k2 < regs.len() && 0 <= j2 < regs[k2].len() && (k2 < k + 1 || (k2 == k + 1 && j2 < 0))
                            && #[trigger] regs[k2][j2] == QubitOrBit::Qubit(QubitId(i as u64));
                    assert(regs[k as int].len() == layout@[k as int]@.len());
                }
                if in_regs(regs, k as int, layout@[k as int]@.len() as int, i) {
                    let (k2, j2) = choose|k2: int, j2: int|
                        0 <= k2 < regs.len() && 0 <= j2 < regs[k2].len() && (k2 < k || (k2 == k && j2 < layout@[k as int]@.len()))
                            && #[trigger] regs[k2][j2] == QubitOrBit::Qubit(QubitId(i as u64));
                }
            }
            assert(sim.qubits@ =~= cleared_upto(q0, regs, k + 1, 0));
        }
        k = k + 1;
    }
    let mut garbage: Option<u64> = None;
    let n = sim.qubits.len();
    let mut qi: usize = 0;
    proof {
        assert(regs.len() == 8);
    }
    while qi < n
        invariant
            0 <= qi <= n,
            n == sim.qubits@.len(),
            n == q0.len(),
            sim.qubits@ == cleared_upto(q0, regs, regs.len() as int, 0),
            garbage == first_garbage(q0, regs, mask, qi as nat),
            garbage matches Some(g) ==> g < qi,
        decreases n - qi,
    {
        let value = sim.qubits[qi] & mask;
        proof {
            if in_layout(regs, qi as int) {
                assert(sim.qubits@[qi as int] == 0);
                assert(0u64 & mask == 0) by (bit_vector);
            }
        }
        if garbage.is_none() && value != 0 {
            garbage = Some(qi as u64);
        }
        qi = qi + 1;
    }
    let ancilla_garbage = garbage.is_some();
    if first.is_none() {
        if let Some(g) = garbage {
            let value = sim.qubits[g as usize] & mask;
            proof {
                assert(!in_layout(regs, g as int)) by {
                    lemma_first_garbage_outside(q0, regs, mask, q0.len(), g);
                }
            }
            first = Some(FailReason::AncillaGarbage { qubit: g, value });
        }
    }
    BatchVerdict { input_failures, oracle_failures, phase_garbage, ancilla_garbage, first_failure: first }
}

/// The first garbage qubit lies outside the registers.
pub proof fn lemma_first_garbage_outside(q: Seq<u64>, regs: Seq<Seq<QubitOrBit>>, mask: u64, n: nat, g: u64)
    requires
        first_garbage(q, regs, mask, n) == Some(g),
    ensures
        !in_layout(regs, g as int),
        g < n,
    decreases n,
{
    if n > 0 {
        if first_garbage(q, regs, mask, (n - 1) as nat) is Some {
            lemma_first_garbage_outside(q, regs, mask, (n - 1) as nat, g);
        }
    }
}

/// A value as a register word.
pub open spec fn word_of(v: u16) -> [u64; 4] {
    [v as u64, 0, 0, 0]
}

/// The wires after the inputs of one shot are written into the input
/// registers: a, b, Q's x, y and flag.
pub open spec fn write_shot(qb: (Seq<u64>, Seq<u64>), regs: Seq<Seq<QubitOrBit>>, input: ShotInput, shot: u64) -> (Seq<u64>, Seq<u64>) {
    let w0 = reg_write(qb.0, qb.1, regs[0], word_of(input.a), shot, regs[0].len());
    let w1 = reg_write(w0.0, w0.1, regs[1], word_of(input.b), shot, regs[1].len());
    let w2 = reg_write(w1.0, w1.1, regs[2], word_of(input.q.x), shot, regs[2].len());
    let w3 = reg_write(w2.0, w2.1, regs[3], word_of(input.q.y), shot, regs[3].len());
    reg_write(w3.0, w3.1, regs[4], word_of(if input.q.infinity { 1 } else { 0 }), shot, regs[4].len())
}

/// The wires after the first `n` shots of a batch are written, from
/// `qb`.
pub open spec fn write_batch(qb: (Seq<u64>, Seq<u64>), regs: Seq<Seq<QubitOrBit>>, inputs: Seq<ShotInput>, base: int, n: nat) -> (Seq<u64>, Seq<u64>)
    decreases n,
{
    if n == 0 {
        qb
    } else {
        write_shot(write_batch(qb, regs, inputs, base, (n - 1) as nat), regs, inputs[base + n - 1], (n - 1) as u64)
    }
}

/// All-zero words.
pub open spec fn zeros(n: nat) -> Seq<u64> {
    Seq::new(n, |i: int| 0u64)
}

/// A batch run: from cleared wires with the batch's inputs written, some
/// run of `ops` (the random draws of measurements being free) ends in the
/// state the verdict is given on, and adds its counts to the statistics.
pub open spec fn batch_run(
    v: BatchVerdict,
    s0: SimStats,
    s1: SimStats,
    ops: Seq<Op>,
    regs: Seq<Seq<QubitOrBit>>,
    inputs: Seq<ShotInput>,
    base: int,
    bs: nat,
    num_qubits: nat,
    num_bits: nat,
) -> bool {
    exists|rngs: Seq<u64>| #[trigger] batch_run_with(v, s0, s1, ops, regs, inputs, base, bs, num_qubits, num_bits, rngs)
}

/// A batch run with the random draws `rngs`.
pub open spec fn batch_run_with(
    v: BatchVerdict,
    s0: SimStats,
    s1: SimStats,
    ops: Seq<Op>,
    regs: Seq<Seq<QubitOrBit>>,
    inputs: Seq<ShotInput>,
    base: int,
    bs: nat,
    num_qubits: nat,
    num_bits: nat,
    rngs: Seq<u64>,
) -> bool {
    let w = write_batch((zeros(num_qubits), zeros(num_bits)), regs, inputs, base, bs);
    let m = machine_run(machine_start(0, w.0, w.1, u64::MAX), ops, rngs);
    &&& v == batch_verdict(m.qubits, m.bits, m.phase, regs, inputs, base, bs)
    &&& s1 == stats_after(s0, m, u64::MAX)
}

/// A register's wires fit a simulator of this shape.
proof fn lemma_layout_fits(regs: Seq<Seq<QubitOrBit>>, nq: nat, nb: nat, k: int)
    requires
        layout_ok(regs, nq, nb),
        0 <= k < NUM_REGISTERS,
    ensures
        reg_fits(regs[k], nq, nb),
        regs[k].len() <= 16,
{
}

/// Simulates one batch: clears the simulator, writes the inputs of shots
/// `base` to `base + bs` into the input registers, runs `ops` on every shot
/// and checks the batch.
pub fn run_batch(sim: &mut Simulator, ops: &[Op], layout: &[Vec<QubitOrBit>], inputs: &[ShotInput], base: usize, bs: usize) -> (v: BatchVerdict)
    requires
        old(sim).wf(),
        ops_fit(ops@, old(sim).num_qubits as nat, old(sim).num_bits as nat),
        stats_room(old(sim).stats, ops@.len()),
        1 <= bs <= 64,
        base + bs <= inputs@.len(),
        layout_ok(layout@.map_values(|r: Vec<QubitOrBit>| r@), old(sim).num_qubits as nat, old(sim).num_bits as nat),
    ensures
        batch_run(v, old(sim).stats, final(sim).stats, ops@, layout@.map_values(|r: Vec<QubitOrBit>| r@), inputs@, base as int, bs as nat, old(sim).num_qubits as nat, old(sim).num_bits as nat),
        v.input_failures + v.oracle_failures <= bs,
        final(sim).wf(),
        final(sim).num_qubits == old(sim).num_qubits,
        final(sim).num_bits == old(sim).num_bits,
{
    let ghost regs = layout@.map_values(|r: Vec<QubitOrBit>| r@);
    let ghost nq = sim.num_qubits as nat;
    let ghost nb = sim.num_bits as nat;
    sim.clear_for_shot();
    proof {
        assert(sim.qubits@ =~= zeros(nq));
        assert(sim.bits@ =~= zeros(nb));
        assert forall|k: int| 0 <= k < 8 implies #[trigger] layout@[k]@ == regs[k] by {}
        lemma_layout_fits(regs, nq, nb, 0);
        lemma_layout_fits(regs, nq, nb, 1);
        lemma_layout_fits(regs, nq, nb, 2);
        lemma_layout_fits(regs, nq, nb, 3);
        lemma_layout_fits(regs, nq, nb, 4);
    }
    let n_inputs = inputs.len();
    let mut shot: usize = 0;
    while shot < bs
        invariant
            0 <= shot <= bs <= 64,
            n_inputs == inputs@.len(),
            base + bs <= inputs@.len(),
            sim.wf(),
            sim.num_qubits == nq,
            sim.num_bits == nb,
            sim.phase == 0,
            sim.stats == old(sim).stats,
            regs == layout@.map_values(|r: Vec<QubitOrBit>| r@),
            layout@.len() == NUM_REGISTERS,
            forall|k: int| 0 <= k < 8 ==> #[trigger] layout@[k]@ == regs[k],
            layout_ok(regs, nq, nb),
            (sim.qubits@, sim.bits@) == write_batch((zeros(nq), zeros(nb)), regs, inputs@, base as int, shot as nat),
        decreases bs - shot,
    {
        let input = inputs[base + shot];
        proof {
            lemma_layout_fits(regs, nq, nb, 0);
            lemma_layout_fits(regs, nq, nb, 1);
            lemma_layout_fits(regs, nq, nb, 2);
            lemma_layout_fits(regs, nq, nb, 3);
            lemma_layout_fits(regs, nq, nb, 4);
        }
        let s = shot as u64;
        sim.set_register(&layout[0], [input.a as u64, 0, 0, 0], shot);
        sim.set_register(&layout[1], [input.b as u64, 0, 0, 0], shot);
        sim.set_register(&layout[2], [input.q.x as u64, 0, 0, 0], shot);
        sim.set_register(&layout[3], [input.q.y as u64, 0, 0, 0], shot);
        let inf: u64 = if input.q.infinity { 1 } else { 0 };
        sim.set_register(&layout[4], [inf, 0, 0, 0], shot);
        proof {
            assert(word_of(input.a) == [input.a as u64, 0u64, 0u64, 0u64]);
            assert(word_of(if input.q.infinity { 1 } else { 0 }) == [inf, 0u64, 0u64, 0u64]);
        }
        shot = shot + 1;
    }
    sim.apply_iter(ops);
    let v = check_batch(sim, layout, inputs, base, bs);
    proof {
        let w = write_batch((zeros(nq), zeros(nb)), regs, inputs@, base as int, bs as nat);
        let rngs = choose|rngs: Seq<u64>|
            #![trigger machine_run(machine_start(0, w.0, w.1, u64::MAX), ops@, rngs)]
            {
                let m = machine_run(machine_start(0, w.0, w.1, u64::MAX), ops@, rngs);
                &&& v == batch_verdict(m.qubits, m.bits, m.phase, regs, inputs@, base as int, bs as nat)
                &&& sim.stats == stats_after(old(sim).stats, m, u64::MAX)
            };
        assert(batch_run_with(v, old(sim).stats, sim.stats, ops@, regs, inputs@, base as int, bs as nat, nq, nb, rngs));
    }
    v
}

/// The result of an evaluation: whether every check passed, the summed gate
/// counts over all shots, the failure counts, and the first failure.
#[derive(Clone, Copy, Debug, PartialEq, Eq, Structural)]
pub struct SeedReport {
    pub ok: bool,
    pub tot_tof: u64,
    pub tot_ccx: u64,
    pub tot_ccz: u64,
    pub tot_cliff: u64,
    pub n_shots: usize,
    pub oracle_failures: usize,
    pub input_failures: usize,
    pub phase_garbage_batches: usize,
    pub ancilla_garbage_batches: usize,
    pub fail_reason: Option<FailReason>,
}

/// The number of batches for `n` shots.
pub open spec fn num_batches(n: nat) -> nat {
    (n + 63) / 64
}

/// The number of shots in batch `b` of `n` shots.
pub open spec fn batch_len(n: nat, b: nat) -> nat {
    if n >= 64 * b + 64 {
        64
    } else {
        (n - 64 * b) as nat
    }
}

/// Summed input failures of the batches.
pub open spec fn total_inputs(vs: Seq<BatchVerdict>) -> nat
    decreases vs.len(),
{
    if vs.len() == 0 { 0 } else { total_inputs(vs.drop_last()) + vs.last().input_failures as nat }
}

/// Summed oracle failures of the batches.
pub open spec fn total_oracle(vs: Seq<BatchVerdict>) -> nat
    decreases vs.len(),
{
    if vs.len() == 0 { 0 } else { total_oracle(vs.drop_last()) + vs.last().oracle_failures as nat }
}

/// The number of batches with phase garbage.
pub open spec fn phase_batches(vs: Seq<BatchVerdict>) -> nat
    decreases vs.len(),
{
    if vs.len() == 0 { 0 } else { phase_batches(vs.drop_last()) + if vs.last().phase_garbage { 1nat } else { 0nat } }
}

/// The number of batches with ancilla garbage.
pub open spec fn ancilla_batches(vs: Seq<BatchVerdict>) -> nat
    decreases vs.len(),
{
    if vs.len() == 0 { 0 } else { ancilla_batches(vs.drop_last()) + if vs.last().ancilla_garbage { 1nat } else { 0nat } }
}

/// The first failure over the batches in order.
pub open spec fn first_reason(vs: Seq<BatchVerdict>) -> Option<FailReason>
    decreases vs.len(),
{
    if vs.len() == 0 {
        None
    } else {
        match first_reason(vs.drop_last()) {
            Some(r) => Some(r),
            None => vs.last().first_failure,
        }
    }
}

/// The report of the batch verdicts `vs` of `n` shots whose simulation
/// ended with the counters `stats`.
pub open spec fn report_of(vs: Seq<BatchVerdict>, stats: SimStats, n: nat) -> SeedReport {
    SeedReport {
        ok: first_reason(vs) is None,
        tot_tof: stats.toffoli_gates,
        tot_ccx: stats.ccx_gates,
        tot_ccz: stats.ccz_gates,
        tot_cliff: stats.clifford_gates,
        n_shots: n as usize,
        oracle_failures: total_oracle(vs) as usize,
        input_failures: total_inputs(vs) as usize,
        phase_garbage_batches: phase_batches(vs) as usize,
        ancilla_garbage_batches: ancilla_batches(vs) as usize,
        fail_reason: first_reason(vs),
    }
}

/// `report` is the report of simulating the shots `inputs` batch by batch:
/// each batch a run of `ops` from its written inputs, the counters carried
/// from zero through the batches.
pub open spec fn shots_report(report: SeedReport, ops: Seq<Op>, regs: Seq<Seq<QubitOrBit>>, inputs: Seq<ShotInput>, nq: nat, nb: nat) -> bool {
    exists|vs: Seq<BatchVerdict>, ss: Seq<SimStats>| #[trigger] shots_report_with(report, ops, regs, inputs, nq, nb, vs, ss)
}

/// `shots_report` with its batch verdicts and counters.
pub open spec fn shots_report_with(
    report: SeedReport,
    ops: Seq<Op>,
    regs: Seq<Seq<QubitOrBit>>,
    inputs: Seq<ShotInput>,
    nq: nat,
    nb: nat,
    vs: Seq<BatchVerdict>,
    ss: Seq<SimStats>,
) -> bool {
    let n = inputs.len();
    &&& vs.len() == num_batches(n)
    &&& ss.len() == num_batches(n) + 1
    &&& ss[0] == zero_stats()
    &&& forall|b: int| 0 <= b < num_batches(n) ==> #[trigger] batch_run(vs[b], ss[b], ss[b + 1], ops, regs, inputs, 64 * b, batch_len(n, b as nat), nq, nb)
    &&& report == report_of(vs, ss[num_batches(n) as int], n)
}

/// The counters stay within `k` runs of `len` operations.
pub open spec fn stats_within(s: SimStats, k: int, len: int) -> bool {
    &&& s.clifford_gates <= k * 64 * len
    &&& s.toffoli_gates <= k * 64 * len
    &&& s.ccx_gates <= k * 64 * len
    &&& s.ccz_gates <= k * 64 * len
    &&& s.toffoli_depth <= k * 64 * len
}

/// Simulates the shots `inputs` in batches of 64 and checks every batch.
#[verifier::spinoff_prover]
pub fn run_shots(ops: &[Op], layout: &[Vec<QubitOrBit>], total_qubits: u64, num_bits: u64, xof: XofStream, inputs: &[ShotInput]) -> (report: SeedReport)
    requires
        total_qubits * 64 <= usize::MAX,
        num_bits * 64 <= usize::MAX,
        ops_fit(ops@, total_qubits as nat, num_bits as nat),
        layout_ok(layout@.map_values(|r: Vec<QubitOrBit>| r@), total_qubits as nat, num_bits as nat),
        num_batches(inputs@.len()) * 64 * ops@.len() <= u64::MAX,
        ops@.len() < u64::MAX,
    ensures
        shots_report(report, ops@, layout@.map_values(|r: Vec<QubitOrBit>| r@), inputs@, total_qubits as nat, num_bits as nat),
{
    let ghost regs = layout@.map_values(|r: Vec<QubitOrBit>| r@);
    let ghost nq = total_qubits as nat;
    let ghost nbits = num_bits as nat;
    let n = inputs.len();
    let mut sim = Simulator::new(total_qubits as usize, num_bits as usize, xof);
    let mut oracle_failures: usize = 0;
    let mut input_failures: usize = 0;
    let mut phase_garbage_batches: usize = 0;
    let mut ancilla_garbage_batches: usize = 0;
    let mut fail_reason: Option<FailReason> = None;
    let num_batches_exec = n / BATCH + if n % BATCH == 0 { 0 } else { 1 };
    proof {
        assert(num_batches_exec == num_batches(n as nat));
    }
    let ghost mut vs: Seq<BatchVerdict> = Seq::empty();
    let ghost mut ss: Seq<SimStats> = seq![zero_stats()];
    let mut batch: usize = 0;
    while batch < num_batches_exec
        invariant
            0 <= batch <= num_batches_exec,
            num_batches_exec == num_batches(n as nat),
            n == inputs@.len(),
            num_batches(n as nat) * 64 * ops@.len() <= u64::MAX,
            ops@.len() < u64::MAX,
            sim.wf(),
            sim.num_qubits == nq,
            sim.num_bits == nbits,
            ops_fit(ops@, nq, nbits),
            regs == layout@.map_values(|r: Vec<QubitOrBit>| r@),
            layout_ok(regs, nq, nbits),
            vs.len() == batch,
            ss.len() == batch + 1,
            ss[0] == zero_stats(),
            ss[batch as int] == sim.stats,
            stats_within(sim.stats, batch as int, ops@.len() as int),
            forall|b: int| 0 <= b < batch ==> #[trigger] batch_run(vs[b], ss[b], ss[b + 1], ops@, regs, inputs@, 64 * b, batch_len(n as nat, b as nat), nq, nbits),
            input_failures == total_inputs(vs),
            oracle_failures == total_oracle(vs),
            input_failures + oracle_failures <= 64 * batch,
            phase_garbage_batches == phase_batches(vs),
            ancilla_garbage_batches == ancilla_batches(vs),
            phase_garbage_batches <= batch,
            ancilla_garbage_batches <= batch,
            fail_reason == first_reason(vs),
        decreases num_batches_exec - batch,
    {
        let base = batch * BATCH;
        let bs = if n - base >= BATCH { BATCH } else { n - base };
        proof {
            assert(batch + 1 <= num_batches(n as nat));
            assert(batch * 64 + 64 <= num_batches(n as nat) * 64) by (nonlinear_arith)
                requires
                    batch + 1 <= num_batches(n as nat),
            ;
            assert((batch + 1) * 64 * ops@.len() <= num_batches(n as nat) * 64 * ops@.len()) by (nonlinear_arith)
                requires
                    batch + 1 <= num_batches(n as nat),
            ;
            assert(batch * 64 * ops@.len() + 64 * ops@.len() == (batch + 1) * 64 * ops@.len()) by (nonlinear_arith);
            assert(bs == batch_len(n as nat, batch as nat));
        }
        let ghost s0 = sim.stats;
        let v = run_batch(&mut sim, ops, layout, inputs, base, bs);
        proof {
            lemma_batch_counts(v, s0, sim.stats, ops@, regs, inputs@, base as int, bs as nat, nq, nbits, batch as int);
            lemma_extend_runs(vs, ss, v, sim.stats, ops@, regs, inputs@, n as nat, nq, nbits);
            vs = vs.push(v);
            ss = ss.push(sim.stats);
        }
        input_failures = input_failures + v.input_failures;
        oracle_failures = oracle_failures + v.oracle_failures;
        if v.phase_garbage {
            phase_garbage_batches = phase_garbage_batches + 1;
        }
        if v.ancilla_garbage {
            ancilla_garbage_batches = ancilla_garbage_batches + 1;
        }
        if fail_reason.is_none() {
            fail_reason = v.first_failure;
        }
        batch = batch + 1;
    }
    let report = SeedReport {
        ok: fail_reason.is_none(),
        tot_tof: sim.stats.toffoli_gates,
        tot_ccx: sim.stats.ccx_gates,
        tot_ccz: sim.stats.ccz_gates,
        tot_cliff: sim.stats.clifford_gates,
        n_shots: n,
        oracle_failures,
        input_failures,
        phase_garbage_batches,
        ancilla_garbage_batches,
        fail_reason,
    };
    proof {
        assert(shots_report_with(report, ops@, regs, inputs@, nq, nbits, vs, ss));
    }
    report
}

/// One more batch run extends the runs of the batches before it.
pub proof fn lemma_extend_runs(
    vs: Seq<BatchVerdict>,
    ss: Seq<SimStats>,
    v: BatchVerdict,
    s1: SimStats,
    ops: Seq<Op>,
    regs: Seq<Seq<QubitOrBit>>,
    inputs: Seq<ShotInput>,
    n: nat,
    nq: nat,
    nb: nat,
)
    requires
        ss.len() == vs.len() + 1,
        forall|b: int| 0 <= b < vs.len() ==> #[trigger] batch_run(vs[b], ss[b], ss[b + 1], ops, regs, inputs, 64 * b, batch_len(n, b as nat), nq, nb),
        batch_run(v, ss[vs.len() as int], s1, ops, regs, inputs, 64 * (vs.len() as int), batch_len(n, vs.len()), nq, nb),
    ensures
        ({
            let vs2 = vs.push(v);
            let ss2 = ss.push(s1);
            &&& vs2.drop_last() == vs
            &&& forall|b: int| 0 <= b < vs2.len() ==> #[trigger] batch_run(vs2[b], ss2[b], ss2[b + 1], ops, regs, inputs, 64 * b, batch_len(n, b as nat), nq, nb)
        }),
{
    let vs2 = vs.push(v);
    let ss2 = ss.push(s1);
    assert(vs2.drop_last() =~= vs);
    assert forall|b: int| 0 <= b < vs2.len() implies #[trigger] batch_run(vs2[b], ss2[b], ss2[b + 1], ops, regs, inputs, 64 * b, batch_len(n, b as nat), nq, nb) by {
        if b < vs.len() {
            assert(vs2[b] == vs[b]);
            assert(ss2[b] == ss[b]);
            assert(ss2[b + 1] == ss[b + 1]);
        } else {
            assert(ss2[b] == ss[b]);
        }
    }
}

/// A batch run adds at most `64` per operation to each counter.
pub proof fn lemma_batch_counts(
    v: BatchVerdict,
    s0: SimStats,
    s1: SimStats,
    ops: Seq<Op>,
    regs: Seq<Seq<QubitOrBit>>,
    inputs: Seq<ShotInput>,
    base: int,
    bs: nat,
    nq: nat,
    nb: nat,
    k: int,
)
    requires
        batch_run(v, s0, s1, ops, regs, inputs, base, bs, nq, nb),
        ops_fit(ops, nq, nb),
        layout_ok(regs, nq, nb),
        ops.len() < u64::MAX,
        0 <= k,
        stats_within(s0, k, ops.len() as int),
        stats_room(s0, ops.len()),
    ensures
        stats_within(s1, k + 1, ops.len() as int),
{
    let w = write_batch((zeros(nq), zeros(nb)), regs, inputs, base, bs);
    let rngs = choose|rngs: Seq<u64>| #[trigger] batch_run_with(v, s0, s1, ops, regs, inputs, base, bs, nq, nb, rngs);
    lemma_write_batch_len((zeros(nq), zeros(nb)), regs, inputs, base, bs);
    lemma_run_counts(0, w.0, w.1, u64::MAX, ops, rngs);
    assert(k * 64 * ops.len() + 64 * ops.len() == (k + 1) * 64 * ops.len()) by (nonlinear_arith);
}

/// Writing inputs keeps the number of qubit and bit words.
pub proof fn lemma_write_batch_len(qb: (Seq<u64>, Seq<u64>), regs: Seq<Seq<QubitOrBit>>, inputs: Seq<ShotInput>, base: int, n: nat)
    requires
        layout_ok(regs, qb.0.len(), qb.1.len()),
    ensures
        write_batch(qb, regs, inputs, base, n).0.len() == qb.0.len(),
        write_batch(qb, regs, inputs, base, n).1.len() == qb.1.len(),
    decreases n,
{
    if n > 0 {
        lemma_write_batch_len(qb, regs, inputs, base, (n - 1) as nat);
        let prev = write_batch(qb, regs, inputs, base, (n - 1) as nat);
        let input = inputs[base + n - 1];
        let shot = (n - 1) as u64;
        let w0 = reg_write(prev.0, prev.1, regs[0], word_of(input.a), shot, regs[0].len());
        let w1 = reg_write(w0.0, w0.1, regs[1], word_of(input.b), shot, regs[1].len());
        let w2 = reg_write(w1.0, w1.1, regs[2], word_of(input.q.x), shot, regs[2].len());
        let w3 = reg_write(w2.0, w2.1, regs[3], word_of(input.q.y), shot, regs[3].len());
        lemma_layout_fits(regs, qb.0.len(), qb.1.len(), 0);
        lemma_layout_fits(regs, qb.0.len(), qb.1.len(), 1);
        lemma_layout_fits(regs, qb.0.len(), qb.1.len(), 2);
        lemma_layout_fits(regs, qb.0.len(), qb.1.len(), 3);
        lemma_layout_fits(regs, qb.0.len(), qb.1.len(), 4);
        lemma_reg_write_len(prev.0, prev.1, regs[0], word_of(input.a), shot, regs[0].len());
        lemma_reg_write_len(w0.0, w0.1, regs[1], word_of(input.b), shot, regs[1].len());
        lemma_reg_write_len(w1.0, w1.1, regs[2], word_of(input.q.x), shot, regs[2].len());
        lemma_reg_write_len(w2.0, w2.1, regs[3], word_of(input.q.y), shot, regs[3].len());
        lemma_reg_write_len(w3.0, w3.1, regs[4], word_of(if input.q.infinity { 1 } else { 0 }), shot, regs[4].len());
    }
}

/// A register write keeps the number of qubit and bit words.
pub proof fn lemma_reg_write_len(q: Seq<u64>, b: Seq<u64>, reg: Seq<QubitOrBit>, val: [u64; 4], shot: u64, n: nat)
    requires
        n <= reg.len(),
        reg_fits(reg, q.len(), b.len()),
    ensures
        reg_write(q, b, reg, val, shot, n).0.len() == q.len(),
        reg_write(q, b, reg, val, shot, n).1.len() == b.len(),
    decreases n,
{
    if n > 0 {
        lemma_reg_write_len(q, b, reg, val, shot, (n - 1) as nat);
        assert(match reg[n - 1] {
            QubitOrBit::Qubit(id) => id.0 < q.len(),
            QubitOrBit::Bit(id) => id.0 < b.len(),
        });
    }
}

/// Runs an evaluation: draws `target_shots` shot inputs from the stream,
/// then simulates and checks them in batches, the stream going on to feed
/// the simulator's random draws.
pub fn run_tests(ops: &[Op], layout: &[Vec<QubitOrBit>], total_qubits: u64, num_bits: u64, xof: XofStream, target_shots: usize) -> (report: SeedReport)
    requires
        total_qubits * 64 <= usize::MAX,
        num_bits * 64 <= usize::MAX,
        ops_fit(ops@, total_qubits as nat, num_bits as nat),
        layout_ok(regs_of(layout@), total_qubits as nat, num_bits as nat),
        num_batches(target_shots as nat) * 64 * ops@.len() <= u64::MAX,
        ops@.len() < u64::MAX,
    ensures
        report.n_shots == target_shots,
        shots_report(
            report,
            ops@,
            regs_of(layout@),
            drawn_inputs(xof.seed(), xof.position(), target_shots as nat),
            total_qubits as nat,
            num_bits as nat,
        ),
{
    let mut xof = xof;
    let inputs = draw_inputs(&mut xof, target_shots);
    let report = run_shots(ops, layout, total_qubits, num_bits, xof, &inputs);
    proof {
        let vs_ss = choose|vs: Seq<BatchVerdict>, ss: Seq<SimStats>| #[trigger] shots_report_with(report, ops@, regs_of(layout@), inputs@, total_qubits as nat, num_bits as nat, vs, ss);
        assert(report.n_shots == target_shots);
    }
    report
}

/// Why a circuit's registers do not form the oracle interface.
#[derive(Clone, Copy, Debug, PartialEq, Eq, Structural)]
pub enum LayoutError {
    /// The circuit does not declare exactly eight registers.
    RegisterCount { got: usize },
    /// A register does not have its interface width.
    RegisterWidth { register: usize, expected: usize, got: usize },
    /// A register holds a classical bit.
    NotQubits { register: usize },
}

/// The width of interface register `i`: one for the two infinity flags,
/// five for the others.
pub open spec fn interface_width(i: int) -> nat {
    if i == 4 || i == 7 {
        1
    } else {
        5
    }
}

/// Whether a register holds qubits only.
pub open spec fn all_qubits(reg: Seq<QubitOrBit>) -> bool {
    forall|j: int| 0 <= j < reg.len() ==> (#[trigger] reg[j]) is Qubit
}

/// The first register, below `n`, that does not have its interface width or
/// holds a bit.
pub open spec fn first_layout_error(regs: Seq<Seq<QubitOrBit>>, n: nat) -> Option<LayoutError>
    decreases n,
{
    if n == 0 {
        None
    } else {
        match first_layout_error(regs, (n - 1) as nat) {
            Some(e) => Some(e),
            None => {
                let i = n - 1;
                if regs[i].len() != interface_width(i) {
                    Some(LayoutError::RegisterWidth { register: i as usize, expected: interface_width(i) as usize, got: regs[i].len() as usize })
                } else if !all_qubits(regs[i]) {
                    Some(LayoutError::NotQubits { register: i as usize })
                } else {
                    None
                }
            },
        }
    }
}

/// The verdict on a circuit's registers: eight registers, each of its
/// interface width and made of qubits, else the first violation.
pub open spec fn layout_check(regs: Seq<Seq<QubitOrBit>>) -> Result<(), LayoutError> {
    if regs.len() != NUM_REGISTERS {
        Err(LayoutError::RegisterCount { got: regs.len() as usize })
    } else {
        match first_layout_error(regs, NUM_REGISTERS as nat) {
            Some(e) => Err(e),
            None => Ok(()),
        }
    }
}

/// Checks that a circuit's registers form the oracle interface.
pub fn check_layout(layout: &[Vec<QubitOrBit>]) -> (r: Result<(), LayoutError>)
    ensures
        r == layout_check(regs_of(layout@)),
{
    let ghost regs = regs_of(layout@);
    if layout.len() != NUM_REGISTERS {
        return Err(LayoutError::RegisterCount { got: layout.len() });
    }
    let mut i: usize = 0;
    while i < NUM_REGISTERS
        invariant
            0 <= i <= NUM_REGISTERS,
            layout@.len() == NUM_REGISTERS,
            regs == regs_of(layout@),
            first_layout_error(regs, i as nat) is None,
        decreases NUM_REGISTERS - i,
    {
        let expected: usize = if i == 4 || i == 7 { 1 } else { 5 };
        proof {
            assert(regs[i as int] == layout@[i as int]@);
        }
        if layout[i].len() != expected {
            proof {
                lemma_first_error_persists(regs, (i + 1) as nat, NUM_REGISTERS as nat);
            }
            return Err(LayoutError::RegisterWidth { register: i, expected, got: layout[i].len() });
        }
        let mut j: usize = 0;
        while j < layout[i].len()
            invariant
                0 <= i < NUM_REGISTERS,
                layout@.len() == NUM_REGISTERS,
                regs == regs_of(layout@),
                regs[i as int] == layout@[i as int]@,
                regs.len() == NUM_REGISTERS,
                first_layout_error(regs, i as nat) is None,
                regs[i as int].len() == interface_width(i as int),
                0 <= j <= layout@[i as int]@.len(),
                forall|j2: int| 0 <= j2 < j ==> (#[trigger] layout@[i as int]@[j2]) is Qubit,
            decreases layout@[i as int]@.len() - j,
        {
            match layout[i][j] {
                QubitOrBit::Qubit(_) => {},
                QubitOrBit::Bit(_) => {
                    proof {
                        assert(regs[i as int][j as int] is Bit);
                        assert(!all_qubits(regs[i as int]));
                        lemma_first_error_persists(regs, (i + 1) as nat, NUM_REGISTERS as nat);
                    }
                    return Err(LayoutError::NotQubits { register: i });
                },
            }
            j = j + 1;
        }
        proof {
            assert(all_qubits(regs[i as int]));
        }
        i = i + 1;
    }
    Ok(())
}

/// Once a register fails the interface, later registers do not change the
/// first failure.
pub proof fn lemma_first_error_persists(regs: Seq<Seq<QubitOrBit>>, m: nat, n: nat)
    requires
        m <= n,
        first_layout_error(regs, m) is Some,
    ensures
        first_layout_error(regs, n) == first_layout_error(regs, m),
    decreases n,
{
    if n > m {
        lemma_first_error_persists(regs, m, (n - 1) as nat);
    }
}

/// The conditions under which `run_tests` evaluates a circuit: a simulator
/// of its size fits in memory, every operation is well formed and within
/// it, the registers are within it and at most sixteen wires wide, and the
/// gate counters cannot overflow.
pub open spec fn evaluable(ops: Seq<Op>, regs: Seq<Seq<QubitOrBit>>, total_qubits: u64, num_bits: u64, target_shots: usize) -> bool {
    &&& total_qubits * 64 <= usize::MAX
    &&& num_bits * 64 <= usize::MAX
    &&& ops_fit(ops, total_qubits as nat, num_bits as nat)
    &&& layout_ok(regs, total_qubits as nat, num_bits as nat)
    &&& num_batches(target_shots as nat) * 64 * ops.len() <= u64::MAX
    &&& ops.len() < u64::MAX
}

/// Decides `evaluable`.
pub fn is_evaluable(ops: &[Op], layout: &[Vec<QubitOrBit>], total_qubits: u64, num_bits: u64, target_shots: usize) -> (ok: bool)
    ensures
        ok == evaluable(ops@, regs_of(layout@), total_qubits, num_bits, target_shots),
{
    let ghost regs = regs_of(layout@);
    if total_qubits > (usize::MAX / 64) as u64 || num_bits > (usize::MAX / 64) as u64 {
        return false;
    }
    proof {
        let m = usize::MAX / 64;
        assert(total_qubits * 64 <= usize::MAX) by (nonlinear_arith)
            requires
                total_qubits <= m,
                m == usize::MAX / 64,
        ;
        assert(num_bits * 64 <= usize::MAX) by (nonlinear_arith)
            requires
                num_bits <= m,
                m == usize::MAX / 64,
        ;
    }
    let n = ops.len();
    if n as u64 == u64::MAX {
        return false;
    }
    let batches = (target_shots / BATCH + if target_shots % BATCH == 0 { 0 } else { 1 }) as u64;
    let ghost nbat = num_batches(target_shots as nat);
    proof {
        assert(batches == nbat);
        assert(nbat * 64 * n == nbat * (64 * n)) by (nonlinear_arith);
    }
    if batches > 0 && n > 0 {
        if n as u64 > u64::MAX / 64 {
            proof {
                assert(nbat * (64 * n) >= 64 * n) by (nonlinear_arith)
                    requires
                        nbat > 0,
                ;
            }
            return false;
        }
        let per_batch = (n as u64) * 64;
        if batches > u64::MAX / per_batch {
            proof {
                assert(batches * per_batch > u64::MAX) by (nonlinear_arith)
                    requires
                        per_batch > 0,
                        batches > u64::MAX / per_batch,
                ;
            }
            return false;
        }
        proof {
            if per_batch > 0 {
                assert(batches * per_batch <= u64::MAX) by (nonlinear_arith)
                    requires
                        per_batch > 0,
                        batches <= u64::MAX / per_batch,
                ;
            }
        }
    }
    let mut k: usize = 0;
    while k < n
        invariant
            0 <= k <= n,
            n == ops@.len(),
            forall|i: int| 0 <= i < k ==> crate::sim::op_fits(#[trigger] ops@[i], total_qubits as nat, num_bits as nat),
        decreases n - k,
    {
        let op = ops[k];
        if !op.is_valid() {
            return false;
        }
        let q2 = op.q_control2.0;
        let q1 = op.q_control1.0;
        let qt = op.q_target.0;
        let ct = op.c_target.0;
        let cc = op.c_condition.0;
        if (q2 != NO_INDEX && q2 >= total_qubits) || (q1 != NO_INDEX && q1 >= total_qubits) || (qt != NO_INDEX && qt >= total_qubits) {
            return false;
        }
        if (ct != NO_INDEX && ct >= num_bits) || (cc != NO_INDEX && cc >= num_bits) {
            return false;
        }
        k = k + 1;
    }
    if layout.len() != NUM_REGISTERS {
        return false;
    }
    let mut r: usize = 0;
    while r < NUM_REGISTERS
        invariant
            0 <= r <= NUM_REGISTERS,
            layout@.len() == NUM_REGISTERS,
            regs == regs_of(layout@),
            forall|i: int| 0 <= i < r ==> (#[trigger] regs[i]).len() <= 16 && reg_fits(regs[i], total_qubits as nat, num_bits as nat),
        decreases NUM_REGISTERS - r,
    {
        proof {
            assert(regs[r as int] == layout@[r as int]@);
        }
        if layout[r].len() > 16 {
            return false;
        }
        let mut j: usize = 0;
        while j < layout[r].len()
            invariant
                0 <= r < NUM_REGISTERS,
                layout@.len() == NUM_REGISTERS,
                regs == regs_of(layout@),
                regs[r as int] == layout@[r as int]@,
                0 <= j <= layout@[r as int]@.len(),
                forall|j2: int| 0 <= j2 < j ==> match #[trigger] regs[r as int][j2] {
                    QubitOrBit::Qubit(id) => id.0 < total_qubits,
                    QubitOrBit::Bit(id) => id.0 < num_bits,
                },
            decreases layout@[r as int]@.len() - j,
        {
            let fits = match layout[r][j] {
                QubitOrBit::Qubit(id) => id.0 < total_qubits,
                QubitOrBit::Bit(id) => id.0 < num_bits,
            };
            if !fits {
                proof {
                    assert(!reg_fits(regs[r as int], total_qubits as nat, num_bits as nat));
                }
                return false;
            }
            j = j + 1;
        }
        r = r + 1;
    }
    proof {
        assert(ops_fit(ops@, total_qubits as nat, num_bits as nat));
        assert(layout_ok(regs, total_qubits as nat, num_bits as nat));
        if batches == 0 || n == 0 {
            assert(nbat * (64 * n) == 0) by (nonlinear_arith)
                requires
                    nbat == 0 || n == 0,
            ;
        }
        assert(nbat * 64 * n <= u64::MAX);
    }
    true
}

} // verus!
