use ecdlp_5_bit::circuit::{BitId, Op, OperationType, QubitId};
use ecdlp_5_bit::sim::{Simulator, XofStream};

fn simulator(num_qubits: usize, num_bits: usize) -> Simulator {
    Simulator::new(num_qubits, num_bits, XofStream::from_seed(b"sim-depth-test"))
}

fn three_qubit_op(kind: OperationType, q_control2: u64, q_control1: u64, q_target: u64) -> Op {
    let mut op = Op::empty();
    op.kind = kind;
    op.q_control2 = QubitId(q_control2);
    op.q_control1 = QubitId(q_control1);
    op.q_target = QubitId(q_target);
    op
}

fn cx_op(q_control1: u64, q_target: u64) -> Op {
    let mut op = Op::empty();
    op.kind = OperationType::CX;
    op.q_control1 = QubitId(q_control1);
    op.q_target = QubitId(q_target);
    op
}

fn bit_store(kind: OperationType, bit: u64) -> Op {
    let mut op = Op::empty();
    op.kind = kind;
    op.c_target = BitId(bit);
    op
}

fn condition_op(kind: OperationType, bit: u64) -> Op {
    let mut op = Op::empty();
    op.kind = kind;
    op.c_condition = BitId(bit);
    op
}

#[test]
fn disjoint_toffolis_share_a_depth_layer() {
    let ops = vec![
        three_qubit_op(OperationType::CCX, 0, 1, 2),
        three_qubit_op(OperationType::CCZ, 3, 4, 5),
    ];
    let mut sim = simulator(6, 0);
    sim.apply_iter_masked(&ops, 1);
    assert_eq!(sim.stats.toffoli_depth, 1);
}

#[test]
fn shared_qubit_toffolis_advance_depth() {
    let ops = vec![
        three_qubit_op(OperationType::CCX, 0, 1, 2),
        three_qubit_op(OperationType::CCX, 2, 3, 4),
    ];
    let mut sim = simulator(5, 0);
    sim.apply_iter_masked(&ops, 1);
    assert_eq!(sim.stats.toffoli_depth, 2);
}

#[test]
fn clifford_dependency_links_nonclifford_layers() {
    let ops = vec![
        three_qubit_op(OperationType::CCX, 0, 1, 2),
        cx_op(2, 3),
        three_qubit_op(OperationType::CCX, 3, 4, 5),
    ];
    let mut sim = simulator(6, 0);
    sim.apply_iter_masked(&ops, 1);
    assert_eq!(sim.stats.toffoli_depth, 2);
}

#[test]
fn false_condition_does_not_contribute_executed_depth() {
    let ops = vec![
        bit_store(OperationType::BitStore1, 0),
        condition_op(OperationType::PushCondition, 0),
        three_qubit_op(OperationType::CCX, 0, 1, 2),
        condition_op(OperationType::PopCondition, 0),
        bit_store(OperationType::BitStore0, 0),
        condition_op(OperationType::PushCondition, 0),
        three_qubit_op(OperationType::CCX, 3, 4, 5),
        condition_op(OperationType::PopCondition, 0),
    ];
    let mut sim = simulator(6, 1);
    sim.apply_iter_masked(&ops, 1);
    assert_eq!(sim.stats.toffoli_gates, 1);
    assert_eq!(sim.stats.toffoli_depth, 1);
}
