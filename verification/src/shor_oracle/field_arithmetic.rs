//! The choice of field kernels behind each field operation of the oracle.
//! Each function sees only its operands and targets.
use super::field_circuits::{
    binary_field_value, field_io_ok, unary_field_value, xor_value, BinaryFieldOperation,
    UnaryFieldOperation,
    FieldInput, FieldOutput,
};
use super::builder::{added, effect, qubit_set, Builder};
use super::signal::qubits_value;
use crate::ops_io::OpSink;
use vstd::prelude::*;

verus! {

/// XORs `left + right` in F_31 into `target`.
pub(crate) fn xor_add_mod_into<S: OpSink>(
    builder: &mut Builder<S>,
    left: FieldInput<'_>,
    right: FieldInput<'_>,
    target: FieldOutput<'_>,
)
    requires
        old(builder).wf(),
        !old(builder).failed() ==> field_io_ok(old(builder).pool(), qubit_set(left.bits@) + qubit_set(right.bits@), target.bits@),
    ensures
        old(builder).pure_step(final(builder), qubit_set(left.bits@) + qubit_set(right.bits@) + qubit_set(target.bits@)),
        !final(builder).failed() ==> effect(
            added(old(builder).emitted(), final(builder).emitted()),
            old(builder).pool(),
            |s: spec_fn(u64) -> bool|
                xor_value(s, target.bits@, binary_field_value(BinaryFieldOperation::Add, qubits_value(left.bits@, 5, s), qubits_value(right.bits@, 5, s))),
        ),
{
    builder.xor_binary_mod_into(BinaryFieldOperation::Add, left, right, target);
}

/// XORs `left - right` in F_31 into `target`.
pub(crate) fn xor_sub_mod_into<S: OpSink>(
    builder: &mut Builder<S>,
    left: FieldInput<'_>,
    right: FieldInput<'_>,
    target: FieldOutput<'_>,
)
    requires
        old(builder).wf(),
        !old(builder).failed() ==> field_io_ok(old(builder).pool(), qubit_set(left.bits@) + qubit_set(right.bits@), target.bits@),
    ensures
        old(builder).pure_step(final(builder), qubit_set(left.bits@) + qubit_set(right.bits@) + qubit_set(target.bits@)),
        !final(builder).failed() ==> effect(
            added(old(builder).emitted(), final(builder).emitted()),
            old(builder).pool(),
            |s: spec_fn(u64) -> bool|
                xor_value(s, target.bits@, binary_field_value(BinaryFieldOperation::Sub, qubits_value(left.bits@, 5, s), qubits_value(right.bits@, 5, s))),
        ),
{
    builder.xor_binary_mod_into(BinaryFieldOperation::Sub, left, right, target);
}

/// XORs `left * right` in F_31 into `target`.
pub(crate) fn xor_mul_mod_into<S: OpSink>(
    builder: &mut Builder<S>,
    left: FieldInput<'_>,
    right: FieldInput<'_>,
    target: FieldOutput<'_>,
)
    requires
        old(builder).wf(),
        right.bits@.len() > 0 ==> 5 <= left.bits@.len(),
        !old(builder).failed() ==> field_io_ok(old(builder).pool(), qubit_set(left.bits@) + qubit_set(right.bits@), target.bits@),
    ensures
        old(builder).pure_step(final(builder), qubit_set(left.bits@) + qubit_set(right.bits@) + qubit_set(target.bits@)),
        !final(builder).failed() ==> effect(
            added(old(builder).emitted(), final(builder).emitted()),
            old(builder).pool(),
            |s: spec_fn(u64) -> bool|
                xor_value(s, target.bits@, binary_field_value(BinaryFieldOperation::Mul, qubits_value(left.bits@, 5, s), qubits_value(right.bits@, 5, s))),
        ),
{
    builder.xor_binary_mod_into(BinaryFieldOperation::Mul, left, right, target);
}

/// XORs `input * factor` in F_31 into `target`.
pub(crate) fn xor_mul_const_mod_into<S: OpSink>(
    builder: &mut Builder<S>,
    input: FieldInput<'_>,
    factor: u16,
    target: FieldOutput<'_>,
)
    requires
        old(builder).wf(),
        !old(builder).failed() ==> field_io_ok(old(builder).pool(), qubit_set(input.bits@), target.bits@),
    ensures
        old(builder).pure_step(final(builder), qubit_set(input.bits@) + qubit_set(target.bits@)),
        !final(builder).failed() ==> effect(
            added(old(builder).emitted(), final(builder).emitted()),
            old(builder).pool(),
            |s: spec_fn(u64) -> bool|
                xor_value(s, target.bits@, unary_field_value(UnaryFieldOperation::MulConst(factor), qubits_value(input.bits@, 5, s))),
        ),
{
    builder.xor_unary_mod_into(UnaryFieldOperation::MulConst(factor), input, target);
}

/// XORs the inverse of `input` in F_31 (zero for zero) into `target`.
pub(crate) fn xor_inv_mod_into<S: OpSink>(
    builder: &mut Builder<S>,
    input: FieldInput<'_>,
    target: FieldOutput<'_>,
)
    requires
        old(builder).wf(),
        input.bits@.len() == 0 || 5 <= input.bits@.len(),
        !old(builder).failed() ==> field_io_ok(old(builder).pool(), qubit_set(input.bits@), target.bits@),
    ensures
        old(builder).pure_step(final(builder), qubit_set(input.bits@) + qubit_set(target.bits@)),
        !final(builder).failed() ==> effect(
            added(old(builder).emitted(), final(builder).emitted()),
            old(builder).pool(),
            |s: spec_fn(u64) -> bool|
                xor_value(s, target.bits@, unary_field_value(UnaryFieldOperation::Inv, qubits_value(input.bits@, 5, s))),
        ),
{
    builder.xor_unary_mod_into(UnaryFieldOperation::Inv, input, target);
}

} // verus!
