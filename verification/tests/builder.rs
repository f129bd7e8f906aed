use ecdlp_5_bit::circuit::{Op, OperationType, QubitId, RegisterId};
use ecdlp_5_bit::ops_io::VecOpSink;
use ecdlp_5_bit::shor_oracle::builder::Builder;
use ecdlp_5_bit::sim::{Simulator, XofStream};

#[test]
fn registers_are_declared_in_order() {
    let mut builder = Builder::with_sink(VecOpSink::default());
    let a = builder.alloc_qubits(2);
    let b = builder.alloc_qubit();
    assert_eq!(a, vec![QubitId(0), QubitId(1)]);
    assert_eq!(b, QubitId(2));
    builder.declare_qubit_register(&a);
    builder.declare_qubit_register(&[b]);
    let ops = builder.finish_sink().into_ops();
    let kinds: Vec<(OperationType, u64, u64)> = ops.iter().map(|op| (op.kind, op.q_target.0, op.r_target.0)).collect();
    assert_eq!(
        kinds,
        vec![
            (OperationType::AppendToRegister, 0, 0),
            (OperationType::AppendToRegister, 1, 0),
            (OperationType::Register, u64::MAX, 0),
            (OperationType::AppendToRegister, 2, 1),
            (OperationType::Register, u64::MAX, 1),
        ]
    );
    assert!(ops.iter().all(|op| op.r_target != RegisterId(u64::MAX)));
}

#[test]
fn released_qubits_are_reused() {
    let mut builder = Builder::with_sink(VecOpSink::default());
    let _live = builder.alloc_qubits(3);
    let held = builder.hold_qubits(2);
    assert_eq!(held, vec![QubitId(3), QubitId(4)]);
    builder.release_hold_qubits(held);
    let again = builder.hold_qubits(3);
    assert_eq!(again, vec![QubitId(4), QubitId(3), QubitId(5)]);
}

#[test]
fn a_reversed_tape_undoes_its_gates() {
    let mut builder = Builder::with_sink(VecOpSink::default());
    let q = builder.alloc_qubits(4);
    builder.begin_recording();
    builder.toggle(q[0]);
    builder.xor_qubit_into(q[0], q[1]);
    builder.swap(q[1], q[2]);
    builder.xor_qubit_into(q[3], q[0]);
    let tape = builder.end_recording();
    assert_eq!(tape.len(), 4);
    builder.append_reverse_tape(&tape);
    let ops: Vec<Op> = builder.finish_sink().into_ops();
    assert_eq!(ops.len(), 8);
    let mut sim = Simulator::new(4, 0, XofStream::from_seed(&[]));
    *sim.qubit_mut(q[3]) = 0b1010;
    *sim.qubit_mut(q[2]) = 0b0110;
    sim.apply_iter(&ops);
    assert_eq!(sim.qubit(q[0]), 0);
    assert_eq!(sim.qubit(q[1]), 0);
    assert_eq!(sim.qubit(q[2]), 0b0110);
    assert_eq!(sim.qubit(q[3]), 0b1010);
}
