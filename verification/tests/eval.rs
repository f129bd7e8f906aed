use ecdlp_5_bit::circuit::{analyze_ops, BitId, Op, OperationType, QubitId, QubitOrBit};
use ecdlp_5_bit::curve::{checked_oracle_point, generator, scalar_mul, Point};
use ecdlp_5_bit::eval::{
    check_layout, draw_inputs, fiat_shamir_seed, is_evaluable, run_tests, shot_input, transcript, FailReason,
    LayoutError, ShotInput, NUM_TESTS,
};
use ecdlp_5_bit::ops_io::VecOpSink;
use ecdlp_5_bit::shor_oracle::builder::Builder;
use ecdlp_5_bit::sim::XofStream;

const DOMAIN: &[u8] = b"ecdlp-shor-ecdlp-5bit-variable-q-oracle-fiat-shamir-v1";

/// The eight interface registers on qubits 0 to 31, then `extra` more
/// qubits, and the gates `body` adds.
fn interface_circuit(extra: usize, body: impl Fn(&mut Builder<VecOpSink>, &[Vec<QubitId>], &[QubitId])) -> Vec<Op> {
    let mut builder = Builder::with_sink(VecOpSink::default());
    let widths = [5usize, 5, 5, 5, 1, 5, 5, 1];
    let regs: Vec<Vec<QubitId>> = widths.iter().map(|&w| builder.alloc_qubits(w)).collect();
    let anc = builder.alloc_qubits(extra);
    for reg in &regs {
        builder.declare_qubit_register(reg);
    }
    body(&mut builder, &regs, &anc);
    builder.finish_sink().into_ops()
}

fn evaluate(ops: &[Op], shots: usize) -> ecdlp_5_bit::eval::SeedReport {
    let (total_qubits, num_bits, _, regs) = analyze_ops(ops);
    assert_eq!(check_layout(&regs), Ok(()));
    assert!(is_evaluable(ops, &regs, total_qubits, num_bits, shots));
    run_tests(ops, &regs, total_qubits, num_bits, fiat_shamir_seed(ops), shots)
}

#[test]
fn transcript_starts_with_the_domain_and_count() {
    let t = transcript(&[]);
    assert_eq!(&t[..DOMAIN.len()], DOMAIN);
    assert_eq!(&t[DOMAIN.len()..], &[0u8; 8]);
    let mut op = Op::empty();
    op.kind = OperationType::CX;
    op.q_control1 = QubitId(3);
    op.q_target = QubitId(4);
    let t = transcript(&[op]);
    assert_eq!(t.len(), DOMAIN.len() + 8 + 49);
    assert_eq!(t[DOMAIN.len()], 1);
    assert_eq!(t[DOMAIN.len() + 8], 8);
    assert_eq!(t[DOMAIN.len() + 8 + 9], 3);
    assert_eq!(t[DOMAIN.len() + 8 + 17], 4);
}

#[test]
fn shots_come_from_three_bytes() {
    assert_eq!(
        shot_input(0xff, 0x20, 22),
        ShotInput { a: 31, b: 0, q_scalar: 1, q: generator() }
    );
    let s = shot_input(0x03, 0x44, 21);
    assert_eq!((s.a, s.b, s.q_scalar), (3, 4, 0));
    assert_eq!(s.q, Point { x: 0, y: 0, infinity: true });
}

#[test]
fn draws_are_deterministic() {
    let mut x1 = XofStream::from_seed(b"seed");
    let mut x2 = XofStream::from_seed(b"seed");
    let d1 = draw_inputs(&mut x1, 100);
    let d2 = draw_inputs(&mut x2, 100);
    assert_eq!(d1.len(), 100);
    assert_eq!(d1, d2);
    assert!(d1.iter().all(|s| s.a < 32 && s.b < 32 && s.q_scalar < 21));
}

#[test]
fn layout_errors_name_the_register() {
    let q = |i: u64| QubitOrBit::Qubit(QubitId(i));
    let good: Vec<Vec<QubitOrBit>> = [5u64, 5, 5, 5, 1, 5, 5, 1]
        .iter()
        .scan(0u64, |next, &w| {
            let r: Vec<QubitOrBit> = (0..w).map(|i| q(*next + i)).collect();
            *next += w;
            Some(r)
        })
        .collect();
    assert_eq!(check_layout(&good), Ok(()));
    assert_eq!(check_layout(&good[..7]), Err(LayoutError::RegisterCount { got: 7 }));
    let mut wide = good.clone();
    wide[4].push(q(40));
    assert_eq!(check_layout(&wide), Err(LayoutError::RegisterWidth { register: 4, expected: 1, got: 2 }));
    let mut bits = good.clone();
    bits[6][2] = QubitOrBit::Bit(BitId(0));
    assert_eq!(check_layout(&bits), Err(LayoutError::NotQubits { register: 6 }));
}

#[test]
fn registers_outside_the_circuit_are_not_evaluable() {
    let ops = interface_circuit(0, |_, _, _| {});
    let (total_qubits, num_bits, _, mut regs) = analyze_ops(&ops);
    assert!(is_evaluable(&ops, &regs, total_qubits, num_bits, NUM_TESTS));
    regs[5][0] = QubitOrBit::Qubit(QubitId(total_qubits));
    assert!(!is_evaluable(&ops, &regs, total_qubits, num_bits, NUM_TESTS));
}

#[test]
fn empty_oracle_fails_every_output() {
    let ops = interface_circuit(0, |_, _, _| {});
    let report = evaluate(&ops, 70);
    assert_eq!(report.n_shots, 70);
    assert!(!report.ok);
    assert_eq!(report.input_failures, 0);
    assert_eq!(report.oracle_failures, 70);
    assert_eq!(report.phase_garbage_batches, 0);
    assert_eq!(report.ancilla_garbage_batches, 0);
    assert!(matches!(report.fail_reason, Some(FailReason::OracleMismatch { shot: 0, .. })));
    assert_eq!(report.tot_tof, 0);
}

#[test]
fn changed_inputs_are_reported_first() {
    let ops = interface_circuit(0, |b, regs, _| b.toggle(regs[0][0]));
    let report = evaluate(&ops, 70);
    assert_eq!(report.input_failures, 70);
    assert_eq!(report.oracle_failures, 0);
    match report.fail_reason {
        Some(FailReason::InputMismatch { shot, expected, got_a, .. }) => {
            assert_eq!(shot, 0);
            assert_eq!(got_a, expected.a ^ 1);
        }
        other => panic!("unexpected {other:?}"),
    }
    assert_eq!(report.tot_cliff, 0);
}

#[test]
fn dirty_ancilla_and_phase_are_counted_per_batch() {
    let ops = interface_circuit(1, |b, _, anc| b.toggle(anc[0]));
    let report = evaluate(&ops, 70);
    assert_eq!(report.ancilla_garbage_batches, 2);
    assert_eq!(report.phase_garbage_batches, 0);

    let mut ops = interface_circuit(1, |b, _, anc| b.toggle(anc[0]));
    let mut z = Op::empty();
    z.kind = OperationType::Z;
    z.q_target = QubitId(32);
    ops.push(z);
    let mut x = Op::empty();
    x.kind = OperationType::X;
    x.q_target = QubitId(32);
    ops.push(x);
    let report = evaluate(&ops, 70);
    assert_eq!(report.phase_garbage_batches, 2);
    assert_eq!(report.ancilla_garbage_batches, 0);
}

#[test]
fn gate_counts_cover_all_shots_of_each_batch() {
    let ops = interface_circuit(2, |b, _, anc| {
        b.toggle(anc[0]);
        b.xor_qubit_into(anc[0], anc[1]);
        b.xor_qubit_into(anc[0], anc[1]);
        b.toggle(anc[0]);
    });
    let report = evaluate(&ops, 70);
    assert_eq!(report.tot_cliff, 2 * 2 * 64);
    assert_eq!(report.ancilla_garbage_batches, 0);
    let again = evaluate(&ops, 70);
    assert_eq!(report, again);
}

#[test]
fn drawn_shots_have_a_reference_point() {
    for b2 in 0..=255u8 {
        let shot = shot_input(0x27, 0xe3, b2);
        assert_eq!(shot.a, 7);
        assert_eq!(shot.b, 3);
        assert_eq!(shot.q_scalar, (b2 % 21) as u16);
        assert_eq!(shot.q, scalar_mul(shot.q_scalar, generator()));
        let expected = scalar_mul(((7 + 3 * shot.q_scalar as u32) % 21) as u16, generator());
        assert_eq!(checked_oracle_point(shot.a, shot.b, shot.q), Some(expected));
    }
}
