use ecdlp_5_bit::circuit::{Op, QubitId};
use ecdlp_5_bit::ops_io::VecOpSink;
use ecdlp_5_bit::shor_oracle::builder::{Builder, FIELD_MODULUS, WIDTH};
use ecdlp_5_bit::shor_oracle::field_circuits::{BinaryFieldOperation, UnaryFieldOperation};
use ecdlp_5_bit::sim::{Simulator, XofStream};

fn set_qubits(sim: &mut Simulator, bits: &[QubitId], value: u16) {
    for (bit, &qubit) in bits.iter().enumerate() {
        *sim.qubit_mut(qubit) = u64::from(((value >> bit) & 1) != 0);
    }
}

fn read_qubits(sim: &Simulator, bits: &[QubitId]) -> u16 {
    bits.iter()
        .enumerate()
        .fold(0u16, |acc, (bit, &qubit)| acc | (((sim.qubit(qubit) & 1) as u16) << bit))
}

fn assert_clean_ancilla(sim: &Simulator, public: &[QubitId], total_qubits: usize) {
    for qubit in 0..total_qubits {
        let qubit = QubitId(qubit as u64);
        if !public.contains(&qubit) {
            assert_eq!(sim.qubit(qubit), 0, "ancilla q{} was not cleaned", qubit.0);
        }
    }
}

fn total_qubits(ops: &[Op]) -> usize {
    ops.iter()
        .flat_map(|op| [op.q_target.0, op.q_control1.0, op.q_control2.0])
        .filter(|&qubit| qubit != u64::MAX)
        .max()
        .map(|qubit| qubit as usize + 1)
        .unwrap_or(0)
}

struct BinaryHarness {
    ops: Vec<Op>,
    left: Vec<QubitId>,
    right: Vec<QubitId>,
    target: Vec<QubitId>,
    total_qubits: usize,
}

impl BinaryHarness {
    fn new(operation: BinaryFieldOperation) -> Self {
        let mut builder = Builder::with_sink(VecOpSink::default());
        let left = builder.alloc_qubits(WIDTH);
        let right = builder.alloc_qubits(WIDTH);
        let target = builder.alloc_qubits(WIDTH);
        builder.xor_field_binary_into(operation, &left, &right, &target);
        let ops = builder.finish_sink().into_ops();
        let total_qubits = total_qubits(&ops);
        Self { ops, left, right, target, total_qubits }
    }

    fn run(&self, left_value: u16, right_value: u16) -> u16 {
        let xof = XofStream::from_seed(&[]);
        let mut sim = Simulator::new(self.total_qubits, 0, xof);
        set_qubits(&mut sim, &self.left, left_value);
        set_qubits(&mut sim, &self.right, right_value);
        sim.apply_iter_masked(&self.ops, 1);
        assert_eq!(read_qubits(&sim, &self.left), left_value);
        assert_eq!(read_qubits(&sim, &self.right), right_value);
        assert_clean_ancilla(
            &sim,
            &[self.left.clone(), self.right.clone(), self.target.clone()].concat(),
            sim.num_qubits,
        );
        read_qubits(&sim, &self.target)
    }
}

struct UnaryHarness {
    ops: Vec<Op>,
    input: Vec<QubitId>,
    target: Vec<QubitId>,
    total_qubits: usize,
}

impl UnaryHarness {
    fn new(operation: UnaryFieldOperation) -> Self {
        let mut builder = Builder::with_sink(VecOpSink::default());
        let input = builder.alloc_qubits(WIDTH);
        let target = builder.alloc_qubits(WIDTH);
        builder.xor_field_unary_into(operation, &input, &target);
        let ops = builder.finish_sink().into_ops();
        let total_qubits = total_qubits(&ops);
        Self { ops, input, target, total_qubits }
    }

    fn run(&self, input_value: u16) -> u16 {
        let xof = XofStream::from_seed(&[]);
        let mut sim = Simulator::new(self.total_qubits, 0, xof);
        set_qubits(&mut sim, &self.input, input_value);
        sim.apply_iter_masked(&self.ops, 1);
        assert_eq!(read_qubits(&sim, &self.input), input_value);
        assert_clean_ancilla(
            &sim,
            &[self.input.clone(), self.target.clone()].concat(),
            sim.num_qubits,
        );
        read_qubits(&sim, &self.target)
    }
}

fn inv_expected(value: u16) -> u16 {
    if value == 0 {
        return 0;
    }
    (1..FIELD_MODULUS)
        .find(|candidate| (value * candidate) % FIELD_MODULUS == 1)
        .unwrap()
}

#[test]
fn field_binary_circuits_match_f31_arithmetic() {
    let add = BinaryHarness::new(BinaryFieldOperation::Add);
    let sub = BinaryHarness::new(BinaryFieldOperation::Sub);
    let mul = BinaryHarness::new(BinaryFieldOperation::Mul);
    for left in 0..FIELD_MODULUS {
        for right in 0..FIELD_MODULUS {
            assert_eq!(add.run(left, right), (left + right) % FIELD_MODULUS);
            assert_eq!(sub.run(left, right), (left + FIELD_MODULUS - right) % FIELD_MODULUS);
            assert_eq!(mul.run(left, right), (left * right) % FIELD_MODULUS);
        }
    }
}

#[test]
fn field_unary_circuits_match_f31_arithmetic() {
    let mul3 = UnaryHarness::new(UnaryFieldOperation::MulConst(3));
    let inv = UnaryHarness::new(UnaryFieldOperation::Inv);
    for value in 0..FIELD_MODULUS {
        assert_eq!(mul3.run(value), (value * 3) % FIELD_MODULUS);
        assert_eq!(inv.run(value), inv_expected(value));
    }
}
