//! What the point-addition circuit computes, as F_31 values: the scratch
//! values in the order the kernels produce them, the case flags, and the
//! sum they select; and that this sum is the group law wherever the
//! reference arithmetic is defined.
use super::field_circuits::{binary_field_value, inv31, lemma_inv31, unary_field_value, BinaryFieldOperation, UnaryFieldOperation};
use crate::curve::{add_defined, field_inv, lemma_field_inv_unique, point_add, Point};
use vstd::arithmetic::div_mod::{
    lemma_add_mod_noop, lemma_mod_add_multiples_vanish, lemma_mul_mod_noop_left,
    lemma_mul_mod_noop_right, lemma_small_mod, lemma_sub_mod_noop,
};
use vstd::prelude::*;

verus! {

/// F_31 subtraction as the kernels compute it.
pub open spec fn fsub(a: nat, b: nat) -> nat {
    binary_field_value(BinaryFieldOperation::Sub, a, b)
}

/// F_31 multiplication as the kernels compute it.
pub open spec fn fmul(a: nat, b: nat) -> nat {
    binary_field_value(BinaryFieldOperation::Mul, a, b)
}

/// The scratch values of a point addition, block by block in the order
/// they are computed: the sum of the y coordinates; the chord slope's
/// numerator, denominator, inverse denominator and slope; the tangent
/// slope's `x^2`, `3x^2`, `2y`, its inverse and slope; the slope that
/// applies (the tangent's when `dbl`); and from it `lambda^2`,
/// `lambda^2 - x_l`, the sum's x, `x_l - x`, `lambda (x_l - x)` and the
/// sum's y.
#[verifier::opaque]
pub open spec fn add_block_values(xl: nat, yl: nat, xr: nat, yr: nat, dbl: bool) -> Seq<nat> {
    let v16 = binary_field_value(BinaryFieldOperation::Add, yl, yr);
    let v0 = fsub(yr, yl);
    let v1 = fsub(xr, xl);
    let v2 = unary_field_value(UnaryFieldOperation::Inv, v1);
    let v3 = fmul(v0, v2);
    let v4 = fmul(xl, xl);
    let v5 = unary_field_value(UnaryFieldOperation::MulConst(3), v4);
    let v6 = unary_field_value(UnaryFieldOperation::MulConst(2), yl);
    let v7 = unary_field_value(UnaryFieldOperation::Inv, v6);
    let v8 = fmul(v5, v7);
    let v9 = if dbl {
        v8
    } else {
        v3
    };
    let v10 = fmul(v9, v9);
    let v11 = fsub(v10, xl);
    let v12 = fsub(v11, xr);
    let v13 = fsub(xl, v12);
    let v14 = fmul(v9, v13);
    let v15 = fsub(v14, yl);
    seq![v16, v0, v1, v2, v3, v4, v5, v6, v7, v8, v9, v10, v11, v12, v13, v14, v15]
}

/// The scratch values one by one.
pub proof fn lemma_block_values(xl: nat, yl: nat, xr: nat, yr: nat, dbl: bool)
    ensures
        ({
            let v = add_block_values(xl, yl, xr, yr, dbl);
            &&& v.len() == 17
            &&& v[0] == binary_field_value(BinaryFieldOperation::Add, yl, yr)
            &&& v[1] == fsub(yr, yl)
            &&& v[2] == fsub(xr, xl)
            &&& v[3] == unary_field_value(UnaryFieldOperation::Inv, v[2])
            &&& v[4] == fmul(v[1], v[3])
            &&& v[5] == fmul(xl, xl)
            &&& v[6] == unary_field_value(UnaryFieldOperation::MulConst(3), v[5])
            &&& v[7] == unary_field_value(UnaryFieldOperation::MulConst(2), yl)
            &&& v[8] == unary_field_value(UnaryFieldOperation::Inv, v[7])
            &&& v[9] == fmul(v[6], v[8])
            &&& v[10] == (if dbl { v[9] } else { v[4] })
            &&& v[11] == fmul(v[10], v[10])
            &&& v[12] == fsub(v[11], xl)
            &&& v[13] == fsub(v[12], xr)
            &&& v[14] == fsub(xl, v[13])
            &&& v[15] == fmul(v[10], v[14])
            &&& v[16] == fsub(v[15], yl)
        }),
{
    reveal(add_block_values);
}

/// The chord slope as the kernels compute it is the group law's.
proof fn lemma_chord_slope(xl: nat, yl: nat, xr: nat, yr: nat)
    requires
        xl < 31,
        yl < 31,
        xr < 31,
        yr < 31,
        (xr - xl) % 31 != 0,
    ensures
        fmul(fsub(yr, yl), inv31(fsub(xr, xl))) == (yr - yl) * field_inv(xr - xl) % 31,
{
    lemma_fsub(xr, xl);
    lemma_fsub(yr, yl);
    lemma_kernel_inverse(fsub(xr, xl), xr - xl);
    lemma_mul_mod_noop_left(yr - yl, inv31(fsub(xr, xl)) as int, 31);
}

/// The tangent slope as the kernels compute it is the group law's.
proof fn lemma_tangent_slope(x: nat, y: nat)
    requires
        x < 31,
        0 < y < 31,
    ensures
        fmul(
            unary_field_value(UnaryFieldOperation::MulConst(3), fmul(x, x)),
            inv31(unary_field_value(UnaryFieldOperation::MulConst(2), y)),
        ) == (3 * x * x + crate::curve::CURVE_A) * field_inv(2 * y as int) % 31,
{
    let d = unary_field_value(UnaryFieldOperation::MulConst(2), y);
    assert(d == (y * 2) % 31);
    assert((y * 2) % 31 != 0) by {
        assert(2 <= y * 2 <= 60);
    }
    lemma_kernel_inverse(d, 2 * y as int);
    let w = inv31(d);
    let n = unary_field_value(UnaryFieldOperation::MulConst(3), fmul(x, x));
    assert(n == ((x * x) % 31 * 3) % 31);
    lemma_mul_mod_noop_left((x * x) as int, 3, 31);
    assert((x * x) * 3 == 3 * x * x) by (nonlinear_arith);
    lemma_mul_mod_noop_left((3 * x * x) as int, w as int, 31);
}

/// The circuit's flag of a point plus its negation: equal x, y summing to
/// zero in F_31, neither operand at infinity.
pub open spec fn inverse_flag(l: Point, r: Point) -> bool {
    &&& l.x == r.x
    &&& binary_field_value(BinaryFieldOperation::Add, l.y as nat, r.y as nat) == 0
    &&& !l.infinity
    &&& !r.infinity
}

/// The circuit's flag of doubling: equal coordinates, neither operand at
/// infinity.
pub open spec fn doubling_flag(l: Point, r: Point) -> bool {
    l.x == r.x && l.y == r.y && !l.infinity && !r.infinity
}

/// The scratch values of the addition of `l` and `r`.
pub open spec fn add_values(l: Point, r: Point) -> Seq<nat> {
    add_block_values(l.x as nat, l.y as nat, r.x as nat, r.y as nat, doubling_flag(l, r))
}

/// The point the addition circuit selects: the other operand when one is
/// at infinity, the point at infinity for a point plus its negation, and
/// otherwise the coordinates computed from the slope that applies.
pub open spec fn point_add_circuit(l: Point, r: Point) -> Point {
    if l.infinity {
        r
    } else if r.infinity {
        l
    } else if inverse_flag(l, r) {
        Point { x: 0, y: 0, infinity: true }
    } else {
        Point { x: add_values(l, r)[13] as u16, y: add_values(l, r)[16] as u16, infinity: false }
    }
}

/// The kernels' subtraction of reduced values is subtraction modulo 31.
proof fn lemma_fsub(a: nat, b: nat)
    requires
        b <= 31,
    ensures
        fsub(a, b) == (a - b) % 31,
{
    lemma_mod_add_multiples_vanish(a - b, 31);
}

/// An inverse computed by the kernel for a value that is not zero modulo
/// 31 is the field inverse of every value with that residue.
proof fn lemma_kernel_inverse(v: nat, d: int)
    requires
        v < 32,
        v == d % 31,
        v % 31 != 0,
    ensures
        inv31(v) == field_inv(d),
        inv31(v) < 31,
{
    lemma_inv31(v);
    lemma_small_mod(v, 31);
    lemma_mul_mod_noop_left(d, inv31(v) as int, 31);
    lemma_field_inv_unique(d, inv31(v) as int);
}

/// The slope of the group law: the tangent's for a point added to itself,
/// else the chord's.
pub open spec fn slope(l: Point, r: Point) -> int {
    if l == r {
        (3 * l.x * l.x + crate::curve::CURVE_A) * field_inv(2 * l.y) % 31
    } else {
        (r.y - l.y) * field_inv(r.x - l.x) % 31
    }
}

/// The slope the circuit selects is the group law's, for finite operands
/// that are not a point and its negation.
proof fn lemma_slope(l: Point, r: Point)
    requires
        l.x < 31,
        l.y < 31,
        r.x < 31,
        r.y < 31,
        !l.infinity,
        !r.infinity,
        !inverse_flag(l, r),
        add_defined(l, r),
    ensures
        add_values(l, r)[10] == slope(l, r),
{
    let xl = l.x as nat;
    let yl = l.y as nat;
    let xr = r.x as nat;
    let yr = r.y as nat;
    lemma_block_values(xl, yl, xr, yr, doubling_flag(l, r));
    lemma_small_mod(yl + yr, 31 * 2);
    assert(!(l.x == r.x && (l.y + r.y) % 31 == 0));
    if doubling_flag(l, r) {
        assert(l == r);
        assert(yl != 0) by {
            if yl == 0 {
                assert((l.y + r.y) % 31 == 0);
            }
        }
        lemma_tangent_slope(xl, yl);
    } else {
        assert(l != r);
        assert((r.x - l.x) % 31 != 0);
        lemma_chord_slope(xl, yl, xr, yr);
    }
}

/// The sum's coordinates from the slope: `x = lambda^2 - x_l - x_r` and
/// `y = lambda (x_l - x) - y_l`, computed as the kernels do.
proof fn lemma_coordinates(xl: nat, yl: nat, xr: nat, lam: nat)
    requires
        xl < 31,
        yl < 31,
        xr < 31,
        lam < 31,
    ensures
        ({
            let x3 = fsub(fsub(fmul(lam, lam), xl), xr);
            &&& x3 == (lam * lam - xl - xr) % 31
            &&& fsub(fmul(lam, fsub(xl, x3)), yl) == (lam * (xl - x3) - yl) % 31
        }),
{
    let v10 = fmul(lam, lam);
    lemma_fsub(v10, xl);
    lemma_small_mod(xl, 31);
    lemma_sub_mod_noop((lam * lam) as int, xl as int, 31);
    let v11 = fsub(v10, xl);
    assert(v11 == (lam * lam - xl) % 31);
    lemma_fsub(v11, xr);
    lemma_small_mod(xr, 31);
    lemma_sub_mod_noop(lam * lam - xl, xr as int, 31);
    let x3 = fsub(v11, xr);
    lemma_fsub(xl, x3);
    let v13 = fsub(xl, x3);
    lemma_mul_mod_noop_right(lam as int, xl - x3, 31);
    let v14 = fmul(lam, v13);
    assert(v14 == (lam * (xl - x3)) % 31);
    lemma_fsub(v14, yl);
    lemma_small_mod(yl, 31);
    lemma_sub_mod_noop(lam * (xl - x3), yl as int, 31);
}

/// Where the reference arithmetic is defined on reduced coordinates, the
/// addition circuit selects the sum of the group law.
pub proof fn lemma_circuit_sum(l: Point, r: Point)
    requires
        l.x < 31,
        l.y < 31,
        r.x < 31,
        r.y < 31,
        add_defined(l, r),
    ensures
        point_add_circuit(l, r) == point_add(l, r),
{
    if l.infinity || r.infinity {
        return;
    }
    lemma_small_mod(l.y as nat + r.y as nat, 31 * 2);
    if inverse_flag(l, r) {
        assert(l.x == r.x && (l.y + r.y) % 31 == 0);
        return;
    }
    assert(!(l.x == r.x && (l.y + r.y) % 31 == 0));
    lemma_slope(l, r);
    let v = add_values(l, r);
    let lam = v[10];
    assert(lam == slope(l, r));
    lemma_coordinates(l.x as nat, l.y as nat, r.x as nat, lam);
    lemma_block_values(l.x as nat, l.y as nat, r.x as nat, r.y as nat, doubling_flag(l, r));
    assert(v[13] == fsub(fsub(fmul(lam, lam), l.x as nat), r.x as nat));
    assert(v[16] == fsub(fmul(lam, fsub(l.x as nat, v[13])), l.y as nat));
}

/// The point the negation circuit XORs out: x and the flag copied, y
/// negated in F_31.
pub open spec fn point_neg_circuit(p: Point) -> Point {
    Point { x: p.x, y: fsub(0, p.y as nat) as u16, infinity: p.infinity }
}

/// On a curve point the negation circuit gives its inverse: the point plus
/// the circuit's negation is the point at infinity.
pub proof fn lemma_neg_circuit_inverse(p: Point)
    requires
        crate::curve::valid_point(p),
    ensures
        point_add(p, point_neg_circuit(p)) == crate::curve::infinity_point(),
{
    lemma_fsub(0, p.y as nat);
    if !p.infinity {
        let n = point_neg_circuit(p);
        lemma_mod_add_multiples_vanish(p.y - 0, 31);
        assert((p.y + n.y) % 31 == 0) by {
            lemma_small_mod(p.y as nat, 31);
            lemma_add_mod_noop(p.y as int, 0 - p.y, 31);
        }
    }
}

} // verus!
