//! The group generated by G: its 21 multiples, and what the reference
//! arithmetic of `curve` computes on them. Scalar multiplication by the
//! double-and-add ladder agrees with repeated addition, and the oracle's
//! `aG + bQ` is `(a + bq) G` when `Q = qG`.
use crate::curve::{
    add_defined, field_inv, generator_spec, infinity_point, ladder, ladder_defined,
    lemma_field_inv_unique, oracle_defined, oracle_point_spec, point_add, scalar_mul_spec, Point,
};
use crate::shor_oracle::point_arith::{lemma_circuit_sum, point_add_circuit, point_neg_circuit};
use vstd::arithmetic::div_mod::lemma_add_mod_noop;
use vstd::prelude::*;

verus! {

/// The multiple `i G` for `i` in `[0, 21)`, as listed by repeated addition
/// of the generator.
spec fn table_entry(i: int) -> Point {
    if i == 0 {
        Point { x: 0, y: 0, infinity: true }
    } else if i == 1 {
        Point { x: 1, y: 15, infinity: false }
    } else if i == 2 {
        Point { x: 7, y: 3, infinity: false }
    } else if i == 3 {
        Point { x: 27, y: 6, infinity: false }
    } else if i == 4 {
        Point { x: 5, y: 15, infinity: false }
    } else if i == 5 {
        Point { x: 25, y: 16, infinity: false }
    } else if i == 6 {
        Point { x: 24, y: 6, infinity: false }
    } else if i == 7 {
        Point { x: 0, y: 21, infinity: false }
    } else if i == 8 {
        Point { x: 4, y: 3, infinity: false }
    } else if i == 9 {
        Point { x: 11, y: 25, infinity: false }
    } else if i == 10 {
        Point { x: 20, y: 28, infinity: false }
    } else if i == 11 {
        Point { x: 20, y: 3, infinity: false }
    } else if i == 12 {
        Point { x: 11, y: 6, infinity: false }
    } else if i == 13 {
        Point { x: 4, y: 28, infinity: false }
    } else if i == 14 {
        Point { x: 0, y: 10, infinity: false }
    } else if i == 15 {
        Point { x: 24, y: 25, infinity: false }
    } else if i == 16 {
        Point { x: 25, y: 15, infinity: false }
    } else if i == 17 {
        Point { x: 5, y: 16, infinity: false }
    } else if i == 18 {
        Point { x: 27, y: 25, infinity: false }
    } else if i == 19 {
        Point { x: 7, y: 28, infinity: false }
    } else {
        Point { x: 1, y: 16, infinity: false }
    }
}

/// Both sums of `a G` and `c G` are the table's entry for `a + c`, and both
/// are additions on which `curve_add` returns.
spec fn sums_in_table(a: int, c: int) -> bool {
    &&& point_add(table_entry(a), table_entry(c)) == table_entry((a + c) % 21)
    &&& point_add(table_entry(c), table_entry(a)) == table_entry((a + c) % 21)
    &&& add_defined(table_entry(a), table_entry(c))
    &&& add_defined(table_entry(c), table_entry(a))
}

/// The inverses modulo 31 of the slope denominators that occur when two
/// multiples of the generator are added.
proof fn lemma_denominator_inverses()
    ensures
        field_inv(-27) == 8,
        field_inv(-26) == 25,
        field_inv(-25) == 26,
        field_inv(-24) == 9,
        field_inv(-23) == 4,
        field_inv(-22) == 7,
        field_inv(-21) == 28,
        field_inv(-20) == 17,
        field_inv(-19) == 13,
        field_inv(-18) == 12,
        field_inv(-17) == 20,
        field_inv(-16) == 29,
        field_inv(-15) == 2,
        field_inv(-14) == 11,
        field_inv(-13) == 19,
        field_inv(-11) == 14,
        field_inv(-10) == 3,
        field_inv(-9) == 24,
        field_inv(-7) == 22,
        field_inv(-6) == 5,
        field_inv(-5) == 6,
        field_inv(-4) == 23,
        field_inv(-3) == 10,
        field_inv(-2) == 15,
        field_inv(-1) == 30,
        field_inv(1) == 1,
        field_inv(2) == 16,
        field_inv(3) == 21,
        field_inv(4) == 8,
        field_inv(5) == 25,
        field_inv(6) == 26,
        field_inv(7) == 9,
        field_inv(9) == 7,
        field_inv(10) == 28,
        field_inv(11) == 17,
        field_inv(12) == 13,
        field_inv(13) == 12,
        field_inv(14) == 20,
        field_inv(15) == 29,
        field_inv(16) == 2,
        field_inv(17) == 11,
        field_inv(18) == 19,
        field_inv(19) == 18,
        field_inv(20) == 14,
        field_inv(21) == 3,
        field_inv(22) == 24,
        field_inv(23) == 27,
        field_inv(24) == 22,
        field_inv(25) == 5,
        field_inv(26) == 6,
        field_inv(27) == 23,
        field_inv(30) == 30,
        field_inv(32) == 1,
        field_inv(42) == 17,
        field_inv(50) == 18,
        field_inv(56) == 5,
{
    lemma_field_inv_unique(-27, 8);
    lemma_field_inv_unique(-26, 25);
    lemma_field_inv_unique(-25, 26);
    lemma_field_inv_unique(-24, 9);
    lemma_field_inv_unique(-23, 4);
    lemma_field_inv_unique(-22, 7);
    lemma_field_inv_unique(-21, 28);
    lemma_field_inv_unique(-20, 17);
    lemma_field_inv_unique(-19, 13);
    lemma_field_inv_unique(-18, 12);
    lemma_field_inv_unique(-17, 20);
    lemma_field_inv_unique(-16, 29);
    lemma_field_inv_unique(-15, 2);
    lemma_field_inv_unique(-14, 11);
    lemma_field_inv_unique(-13, 19);
    lemma_field_inv_unique(-11, 14);
    lemma_field_inv_unique(-10, 3);
    lemma_field_inv_unique(-9, 24);
    lemma_field_inv_unique(-7, 22);
    lemma_field_inv_unique(-6, 5);
    lemma_field_inv_unique(-5, 6);
    lemma_field_inv_unique(-4, 23);
    lemma_field_inv_unique(-3, 10);
    lemma_field_inv_unique(-2, 15);
    lemma_field_inv_unique(-1, 30);
    lemma_field_inv_unique(1, 1);
    lemma_field_inv_unique(2, 16);
    lemma_field_inv_unique(3, 21);
    lemma_field_inv_unique(4, 8);
    lemma_field_inv_unique(5, 25);
    lemma_field_inv_unique(6, 26);
    lemma_field_inv_unique(7, 9);
    lemma_field_inv_unique(9, 7);
    lemma_field_inv_unique(10, 28);
    lemma_field_inv_unique(11, 17);
    lemma_field_inv_unique(12, 13);
    lemma_field_inv_unique(13, 12);
    lemma_field_inv_unique(14, 20);
    lemma_field_inv_unique(15, 29);
    lemma_field_inv_unique(16, 2);
    lemma_field_inv_unique(17, 11);
    lemma_field_inv_unique(18, 19);
    lemma_field_inv_unique(19, 18);
    lemma_field_inv_unique(20, 14);
    lemma_field_inv_unique(21, 3);
    lemma_field_inv_unique(22, 24);
    lemma_field_inv_unique(23, 27);
    lemma_field_inv_unique(24, 22);
    lemma_field_inv_unique(25, 5);
    lemma_field_inv_unique(26, 6);
    lemma_field_inv_unique(27, 23);
    lemma_field_inv_unique(30, 30);
    lemma_field_inv_unique(32, 1);
    lemma_field_inv_unique(42, 17);
    lemma_field_inv_unique(50, 18);
    lemma_field_inv_unique(56, 5);
}

/// The sums of `1 G` with `c G` for `c` from 1 to 20, each checked
/// by computing its slope.
proof fn lemma_row_1()
    ensures
        forall|c: int| 1 <= c < 21 ==> #[trigger] sums_in_table(1, c),
{
    lemma_denominator_inverses();
    assert(sums_in_table(1, 1)) by (nonlinear_arith)
        requires field_inv(30) == 30;
    assert(sums_in_table(1, 2)) by (nonlinear_arith)
        requires field_inv(6) == 26, field_inv(-6) == 5;
    assert(sums_in_table(1, 3)) by (nonlinear_arith)
        requires field_inv(26) == 6, field_inv(-26) == 25;
    assert(sums_in_table(1, 4)) by (nonlinear_arith)
        requires field_inv(4) == 8, field_inv(-4) == 23;
    assert(sums_in_table(1, 5)) by (nonlinear_arith)
        requires field_inv(24) == 22, field_inv(-24) == 9;
    assert(sums_in_table(1, 6)) by (nonlinear_arith)
        requires field_inv(23) == 27, field_inv(-23) == 4;
    assert(sums_in_table(1, 7)) by (nonlinear_arith)
        requires field_inv(-1) == 30, field_inv(1) == 1;
    assert(sums_in_table(1, 8)) by (nonlinear_arith)
        requires field_inv(3) == 21, field_inv(-3) == 10;
    assert(sums_in_table(1, 9)) by (nonlinear_arith)
        requires field_inv(10) == 28, field_inv(-10) == 3;
    assert(sums_in_table(1, 10)) by (nonlinear_arith)
        requires field_inv(19) == 18, field_inv(-19) == 13;
    assert(sums_in_table(1, 11)) by (nonlinear_arith)
        requires field_inv(19) == 18, field_inv(-19) == 13;
    assert(sums_in_table(1, 12)) by (nonlinear_arith)
        requires field_inv(10) == 28, field_inv(-10) == 3;
    assert(sums_in_table(1, 13)) by (nonlinear_arith)
        requires field_inv(3) == 21, field_inv(-3) == 10;
    assert(sums_in_table(1, 14)) by (nonlinear_arith)
        requires field_inv(-1) == 30, field_inv(1) == 1;
    assert(sums_in_table(1, 15)) by (nonlinear_arith)
        requires field_inv(23) == 27, field_inv(-23) == 4;
    assert(sums_in_table(1, 16)) by (nonlinear_arith)
        requires field_inv(24) == 22, field_inv(-24) == 9;
    assert(sums_in_table(1, 17)) by (nonlinear_arith)
        requires field_inv(4) == 8, field_inv(-4) == 23;
    assert(sums_in_table(1, 18)) by (nonlinear_arith)
        requires field_inv(26) == 6, field_inv(-26) == 25;
    assert(sums_in_table(1, 19)) by (nonlinear_arith)
        requires field_inv(6) == 26, field_inv(-6) == 5;
    assert(sums_in_table(1, 20));
    assert forall|c: int| 1 <= c < 21 implies #[trigger] sums_in_table(1, c) by {
        assert(c == 1 || c == 2 || c == 3 || c == 4 || c == 5 || c == 6 || c == 7 || c == 8 || c == 9 || c == 10 || c == 11 || c == 12 || c == 13 || c == 14 || c == 15 || c == 16 || c == 17 || c == 18 || c == 19 || c == 20);
    }
}

/// The sums of `2 G` with `c G` for `c` from 2 to 20, each checked
/// by computing its slope.
proof fn lemma_row_2()
    ensures
        forall|c: int| 2 <= c < 21 ==> #[trigger] sums_in_table(2, c),
{
    lemma_denominator_inverses();
    assert(sums_in_table(2, 2)) by (nonlinear_arith)
        requires field_inv(6) == 26;
    assert(sums_in_table(2, 3)) by (nonlinear_arith)
        requires field_inv(20) == 14, field_inv(-20) == 17;
    assert(sums_in_table(2, 4)) by (nonlinear_arith)
        requires field_inv(-2) == 15, field_inv(2) == 16;
    assert(sums_in_table(2, 5)) by (nonlinear_arith)
        requires field_inv(18) == 19, field_inv(-18) == 12;
    assert(sums_in_table(2, 6)) by (nonlinear_arith)
        requires field_inv(17) == 11, field_inv(-17) == 20;
    assert(sums_in_table(2, 7)) by (nonlinear_arith)
        requires field_inv(-7) == 22, field_inv(7) == 9;
    assert(sums_in_table(2, 8)) by (nonlinear_arith)
        requires field_inv(-3) == 10, field_inv(3) == 21;
    assert(sums_in_table(2, 9)) by (nonlinear_arith)
        requires field_inv(4) == 8, field_inv(-4) == 23;
    assert(sums_in_table(2, 10)) by (nonlinear_arith)
        requires field_inv(13) == 12, field_inv(-13) == 19;
    assert(sums_in_table(2, 11)) by (nonlinear_arith)
        requires field_inv(13) == 12, field_inv(-13) == 19;
    assert(sums_in_table(2, 12)) by (nonlinear_arith)
        requires field_inv(4) == 8, field_inv(-4) == 23;
    assert(sums_in_table(2, 13)) by (nonlinear_arith)
        requires field_inv(-3) == 10, field_inv(3) == 21;
    assert(sums_in_table(2, 14)) by (nonlinear_arith)
        requires field_inv(-7) == 22, field_inv(7) == 9;
    assert(sums_in_table(2, 15)) by (nonlinear_arith)
        requires field_inv(17) == 11, field_inv(-17) == 20;
    assert(sums_in_table(2, 16)) by (nonlinear_arith)
        requires field_inv(18) == 19, field_inv(-18) == 12;
    assert(sums_in_table(2, 17)) by (nonlinear_arith)
        requires field_inv(-2) == 15, field_inv(2) == 16;
    assert(sums_in_table(2, 18)) by (nonlinear_arith)
        requires field_inv(20) == 14, field_inv(-20) == 17;
    assert(sums_in_table(2, 19));
    assert(sums_in_table(2, 20)) by (nonlinear_arith)
        requires field_inv(-6) == 5, field_inv(6) == 26;
    assert forall|c: int| 2 <= c < 21 implies #[trigger] sums_in_table(2, c) by {
        assert(c == 2 || c == 3 || c == 4 || c == 5 || c == 6 || c == 7 || c == 8 || c == 9 || c == 10 || c == 11 || c == 12 || c == 13 || c == 14 || c == 15 || c == 16 || c == 17 || c == 18 || c == 19 || c == 20);
    }
}

/// The sums of `3 G` with `c G` for `c` from 3 to 20, each checked
/// by computing its slope.
proof fn lemma_row_3()
    ensures
        forall|c: int| 3 <= c < 21 ==> #[trigger] sums_in_table(3, c),
{
    lemma_denominator_inverses();
    assert(sums_in_table(3, 3)) by (nonlinear_arith)
        requires field_inv(12) == 13;
    assert(sums_in_table(3, 4)) by (nonlinear_arith)
        requires field_inv(-22) == 7, field_inv(22) == 24;
    assert(sums_in_table(3, 5)) by (nonlinear_arith)
        requires field_inv(-2) == 15, field_inv(2) == 16;
    assert(sums_in_table(3, 6)) by (nonlinear_arith)
        requires field_inv(-3) == 10, field_inv(3) == 21;
    assert(sums_in_table(3, 7)) by (nonlinear_arith)
        requires field_inv(-27) == 8, field_inv(27) == 23;
    assert(sums_in_table(3, 8)) by (nonlinear_arith)
        requires field_inv(-23) == 4, field_inv(23) == 27;
    assert(sums_in_table(3, 9)) by (nonlinear_arith)
        requires field_inv(-16) == 29, field_inv(16) == 2;
    assert(sums_in_table(3, 10)) by (nonlinear_arith)
        requires field_inv(-7) == 22, field_inv(7) == 9;
    assert(sums_in_table(3, 11)) by (nonlinear_arith)
        requires field_inv(-7) == 22, field_inv(7) == 9;
    assert(sums_in_table(3, 12)) by (nonlinear_arith)
        requires field_inv(-16) == 29, field_inv(16) == 2;
    assert(sums_in_table(3, 13)) by (nonlinear_arith)
        requires field_inv(-23) == 4, field_inv(23) == 27;
    assert(sums_in_table(3, 14)) by (nonlinear_arith)
        requires field_inv(-27) == 8, field_inv(27) == 23;
    assert(sums_in_table(3, 15)) by (nonlinear_arith)
        requires field_inv(-3) == 10, field_inv(3) == 21;
    assert(sums_in_table(3, 16)) by (nonlinear_arith)
        requires field_inv(-2) == 15, field_inv(2) == 16;
    assert(sums_in_table(3, 17)) by (nonlinear_arith)
        requires field_inv(-22) == 7, field_inv(22) == 24;
    assert(sums_in_table(3, 18));
    assert(sums_in_table(3, 19)) by (nonlinear_arith)
        requires field_inv(-20) == 17, field_inv(20) == 14;
    assert(sums_in_table(3, 20)) by (nonlinear_arith)
        requires field_inv(-26) == 25, field_inv(26) == 6;
    assert forall|c: int| 3 <= c < 21 implies #[trigger] sums_in_table(3, c) by {
        assert(c == 3 || c == 4 || c == 5 || c == 6 || c == 7 || c == 8 || c == 9 || c == 10 || c == 11 || c == 12 || c == 13 || c == 14 || c == 15 || c == 16 || c == 17 || c == 18 || c == 19 || c == 20);
    }
}

/// The sums of `4 G` with `c G` for `c` from 4 to 20, each checked
/// by computing its slope.
proof fn lemma_row_4()
    ensures
        forall|c: int| 4 <= c < 21 ==> #[trigger] sums_in_table(4, c),
{
    lemma_denominator_inverses();
    assert(sums_in_table(4, 4)) by (nonlinear_arith)
        requires field_inv(30) == 30;
    assert(sums_in_table(4, 5)) by (nonlinear_arith)
        requires field_inv(20) == 14, field_inv(-20) == 17;
    assert(sums_in_table(4, 6)) by (nonlinear_arith)
        requires field_inv(19) == 18, field_inv(-19) == 13;
    assert(sums_in_table(4, 7)) by (nonlinear_arith)
        requires field_inv(-5) == 6, field_inv(5) == 25;
    assert(sums_in_table(4, 8)) by (nonlinear_arith)
        requires field_inv(-1) == 30, field_inv(1) == 1;
    assert(sums_in_table(4, 9)) by (nonlinear_arith)
        requires field_inv(6) == 26, field_inv(-6) == 5;
    assert(sums_in_table(4, 10)) by (nonlinear_arith)
        requires field_inv(15) == 29, field_inv(-15) == 2;
    assert(sums_in_table(4, 11)) by (nonlinear_arith)
        requires field_inv(15) == 29, field_inv(-15) == 2;
    assert(sums_in_table(4, 12)) by (nonlinear_arith)
        requires field_inv(6) == 26, field_inv(-6) == 5;
    assert(sums_in_table(4, 13)) by (nonlinear_arith)
        requires field_inv(-1) == 30, field_inv(1) == 1;
    assert(sums_in_table(4, 14)) by (nonlinear_arith)
        requires field_inv(-5) == 6, field_inv(5) == 25;
    assert(sums_in_table(4, 15)) by (nonlinear_arith)
        requires field_inv(19) == 18, field_inv(-19) == 13;
    assert(sums_in_table(4, 16)) by (nonlinear_arith)
        requires field_inv(20) == 14, field_inv(-20) == 17;
    assert(sums_in_table(4, 17));
    assert(sums_in_table(4, 18)) by (nonlinear_arith)
        requires field_inv(22) == 24, field_inv(-22) == 7;
    assert(sums_in_table(4, 19)) by (nonlinear_arith)
        requires field_inv(2) == 16, field_inv(-2) == 15;
    assert(sums_in_table(4, 20)) by (nonlinear_arith)
        requires field_inv(-4) == 23, field_inv(4) == 8;
    assert forall|c: int| 4 <= c < 21 implies #[trigger] sums_in_table(4, c) by {
        assert(c == 4 || c == 5 || c == 6 || c == 7 || c == 8 || c == 9 || c == 10 || c == 11 || c == 12 || c == 13 || c == 14 || c == 15 || c == 16 || c == 17 || c == 18 || c == 19 || c == 20);
    }
}

/// The sums of `5 G` with `c G` for `c` from 5 to 20, each checked
/// by computing its slope.
proof fn lemma_row_5()
    ensures
        forall|c: int| 5 <= c < 21 ==> #[trigger] sums_in_table(5, c),
{
    lemma_denominator_inverses();
    assert(sums_in_table(5, 5)) by (nonlinear_arith)
        requires field_inv(32) == 1;
    assert(sums_in_table(5, 6)) by (nonlinear_arith)
        requires field_inv(-1) == 30, field_inv(1) == 1;
    assert(sums_in_table(5, 7)) by (nonlinear_arith)
        requires field_inv(-25) == 26, field_inv(25) == 5;
    assert(sums_in_table(5, 8)) by (nonlinear_arith)
        requires field_inv(-21) == 28, field_inv(21) == 3;
    assert(sums_in_table(5, 9)) by (nonlinear_arith)
        requires field_inv(-14) == 11, field_inv(14) == 20;
    assert(sums_in_table(5, 10)) by (nonlinear_arith)
        requires field_inv(-5) == 6, field_inv(5) == 25;
    assert(sums_in_table(5, 11)) by (nonlinear_arith)
        requires field_inv(-5) == 6, field_inv(5) == 25;
    assert(sums_in_table(5, 12)) by (nonlinear_arith)
        requires field_inv(-14) == 11, field_inv(14) == 20;
    assert(sums_in_table(5, 13)) by (nonlinear_arith)
        requires field_inv(-21) == 28, field_inv(21) == 3;
    assert(sums_in_table(5, 14)) by (nonlinear_arith)
        requires field_inv(-25) == 26, field_inv(25) == 5;
    assert(sums_in_table(5, 15)) by (nonlinear_arith)
        requires field_inv(-1) == 30, field_inv(1) == 1;
    assert(sums_in_table(5, 16));
    assert(sums_in_table(5, 17)) by (nonlinear_arith)
        requires field_inv(-20) == 17, field_inv(20) == 14;
    assert(sums_in_table(5, 18)) by (nonlinear_arith)
        requires field_inv(2) == 16, field_inv(-2) == 15;
    assert(sums_in_table(5, 19)) by (nonlinear_arith)
        requires field_inv(-18) == 12, field_inv(18) == 19;
    assert(sums_in_table(5, 20)) by (nonlinear_arith)
        requires field_inv(-24) == 9, field_inv(24) == 22;
    assert forall|c: int| 5 <= c < 21 implies #[trigger] sums_in_table(5, c) by {
        assert(c == 5 || c == 6 || c == 7 || c == 8 || c == 9 || c == 10 || c == 11 || c == 12 || c == 13 || c == 14 || c == 15 || c == 16 || c == 17 || c == 18 || c == 19 || c == 20);
    }
}

/// The sums of `6 G` with `c G` for `c` from 6 to 20, each checked
/// by computing its slope.
proof fn lemma_row_6()
    ensures
        forall|c: int| 6 <= c < 21 ==> #[trigger] sums_in_table(6, c),
{
    lemma_denominator_inverses();
    assert(sums_in_table(6, 6)) by (nonlinear_arith)
        requires field_inv(12) == 13;
    assert(sums_in_table(6, 7)) by (nonlinear_arith)
        requires field_inv(-24) == 9, field_inv(24) == 22;
    assert(sums_in_table(6, 8)) by (nonlinear_arith)
        requires field_inv(-20) == 17, field_inv(20) == 14;
    assert(sums_in_table(6, 9)) by (nonlinear_arith)
        requires field_inv(-13) == 19, field_inv(13) == 12;
    assert(sums_in_table(6, 10)) by (nonlinear_arith)
        requires field_inv(-4) == 23, field_inv(4) == 8;
    assert(sums_in_table(6, 11)) by (nonlinear_arith)
        requires field_inv(-4) == 23, field_inv(4) == 8;
    assert(sums_in_table(6, 12)) by (nonlinear_arith)
        requires field_inv(-13) == 19, field_inv(13) == 12;
    assert(sums_in_table(6, 13)) by (nonlinear_arith)
        requires field_inv(-20) == 17, field_inv(20) == 14;
    assert(sums_in_table(6, 14)) by (nonlinear_arith)
        requires field_inv(-24) == 9, field_inv(24) == 22;
    assert(sums_in_table(6, 15));
    assert(sums_in_table(6, 16)) by (nonlinear_arith)
        requires field_inv(1) == 1, field_inv(-1) == 30;
    assert(sums_in_table(6, 17)) by (nonlinear_arith)
        requires field_inv(-19) == 13, field_inv(19) == 18;
    assert(sums_in_table(6, 18)) by (nonlinear_arith)
        requires field_inv(3) == 21, field_inv(-3) == 10;
    assert(sums_in_table(6, 19)) by (nonlinear_arith)
        requires field_inv(-17) == 20, field_inv(17) == 11;
    assert(sums_in_table(6, 20)) by (nonlinear_arith)
        requires field_inv(-23) == 4, field_inv(23) == 27;
    assert forall|c: int| 6 <= c < 21 implies #[trigger] sums_in_table(6, c) by {
        assert(c == 6 || c == 7 || c == 8 || c == 9 || c == 10 || c == 11 || c == 12 || c == 13 || c == 14 || c == 15 || c == 16 || c == 17 || c == 18 || c == 19 || c == 20);
    }
}

/// The sums of `7 G` with `c G` for `c` from 7 to 20, each checked
/// by computing its slope.
proof fn lemma_row_7()
    ensures
        forall|c: int| 7 <= c < 21 ==> #[trigger] sums_in_table(7, c),
{
    lemma_denominator_inverses();
    assert(sums_in_table(7, 7)) by (nonlinear_arith)
        requires field_inv(42) == 17;
    assert(sums_in_table(7, 8)) by (nonlinear_arith)
        requires field_inv(4) == 8, field_inv(-4) == 23;
    assert(sums_in_table(7, 9)) by (nonlinear_arith)
        requires field_inv(11) == 17, field_inv(-11) == 14;
    assert(sums_in_table(7, 10)) by (nonlinear_arith)
        requires field_inv(20) == 14, field_inv(-20) == 17;
    assert(sums_in_table(7, 11)) by (nonlinear_arith)
        requires field_inv(20) == 14, field_inv(-20) == 17;
    assert(sums_in_table(7, 12)) by (nonlinear_arith)
        requires field_inv(11) == 17, field_inv(-11) == 14;
    assert(sums_in_table(7, 13)) by (nonlinear_arith)
        requires field_inv(4) == 8, field_inv(-4) == 23;
    assert(sums_in_table(7, 14));
    assert(sums_in_table(7, 15)) by (nonlinear_arith)
        requires field_inv(24) == 22, field_inv(-24) == 9;
    assert(sums_in_table(7, 16)) by (nonlinear_arith)
        requires field_inv(25) == 5, field_inv(-25) == 26;
    assert(sums_in_table(7, 17)) by (nonlinear_arith)
        requires field_inv(5) == 25, field_inv(-5) == 6;
    assert(sums_in_table(7, 18)) by (nonlinear_arith)
        requires field_inv(27) == 23, field_inv(-27) == 8;
    assert(sums_in_table(7, 19)) by (nonlinear_arith)
        requires field_inv(7) == 9, field_inv(-7) == 22;
    assert(sums_in_table(7, 20)) by (nonlinear_arith)
        requires field_inv(1) == 1, field_inv(-1) == 30;
    assert forall|c: int| 7 <= c < 21 implies #[trigger] sums_in_table(7, c) by {
        assert(c == 7 || c == 8 || c == 9 || c == 10 || c == 11 || c == 12 || c == 13 || c == 14 || c == 15 || c == 16 || c == 17 || c == 18 || c == 19 || c == 20);
    }
}

/// The sums of `8 G` with `c G` for `c` from 8 to 20, each checked
/// by computing its slope.
proof fn lemma_row_8()
    ensures
        forall|c: int| 8 <= c < 21 ==> #[trigger] sums_in_table(8, c),
{
    lemma_denominator_inverses();
    assert(sums_in_table(8, 8)) by (nonlinear_arith)
        requires field_inv(6) == 26;
    assert(sums_in_table(8, 9)) by (nonlinear_arith)
        requires field_inv(7) == 9, field_inv(-7) == 22;
    assert(sums_in_table(8, 10)) by (nonlinear_arith)
        requires field_inv(16) == 2, field_inv(-16) == 29;
    assert(sums_in_table(8, 11)) by (nonlinear_arith)
        requires field_inv(16) == 2, field_inv(-16) == 29;
    assert(sums_in_table(8, 12)) by (nonlinear_arith)
        requires field_inv(7) == 9, field_inv(-7) == 22;
    assert(sums_in_table(8, 13));
    assert(sums_in_table(8, 14)) by (nonlinear_arith)
        requires field_inv(-4) == 23, field_inv(4) == 8;
    assert(sums_in_table(8, 15)) by (nonlinear_arith)
        requires field_inv(20) == 14, field_inv(-20) == 17;
    assert(sums_in_table(8, 16)) by (nonlinear_arith)
        requires field_inv(21) == 3, field_inv(-21) == 28;
    assert(sums_in_table(8, 17)) by (nonlinear_arith)
        requires field_inv(1) == 1, field_inv(-1) == 30;
    assert(sums_in_table(8, 18)) by (nonlinear_arith)
        requires field_inv(23) == 27, field_inv(-23) == 4;
    assert(sums_in_table(8, 19)) by (nonlinear_arith)
        requires field_inv(3) == 21, field_inv(-3) == 10;
    assert(sums_in_table(8, 20)) by (nonlinear_arith)
        requires field_inv(-3) == 10, field_inv(3) == 21;
    assert forall|c: int| 8 <= c < 21 implies #[trigger] sums_in_table(8, c) by {
        assert(c == 8 || c == 9 || c == 10 || c == 11 || c == 12 || c == 13 || c == 14 || c == 15 || c == 16 || c == 17 || c == 18 || c == 19 || c == 20);
    }
}

/// The sums of `9 G` with `c G` for `c` from 9 to 20, each checked
/// by computing its slope.
proof fn lemma_row_9()
    ensures
        forall|c: int| 9 <= c < 21 ==> #[trigger] sums_in_table(9, c),
{
    lemma_denominator_inverses();
    assert(sums_in_table(9, 9)) by (nonlinear_arith)
        requires field_inv(50) == 18;
    assert(sums_in_table(9, 10)) by (nonlinear_arith)
        requires field_inv(9) == 7, field_inv(-9) == 24;
    assert(sums_in_table(9, 11)) by (nonlinear_arith)
        requires field_inv(9) == 7, field_inv(-9) == 24;
    assert(sums_in_table(9, 12));
    assert(sums_in_table(9, 13)) by (nonlinear_arith)
        requires field_inv(-7) == 22, field_inv(7) == 9;
    assert(sums_in_table(9, 14)) by (nonlinear_arith)
        requires field_inv(-11) == 14, field_inv(11) == 17;
    assert(sums_in_table(9, 15)) by (nonlinear_arith)
        requires field_inv(13) == 12, field_inv(-13) == 19;
    assert(sums_in_table(9, 16)) by (nonlinear_arith)
        requires field_inv(14) == 20, field_inv(-14) == 11;
    assert(sums_in_table(9, 17)) by (nonlinear_arith)
        requires field_inv(-6) == 5, field_inv(6) == 26;
    assert(sums_in_table(9, 18)) by (nonlinear_arith)
        requires field_inv(16) == 2, field_inv(-16) == 29;
    assert(sums_in_table(9, 19)) by (nonlinear_arith)
        requires field_inv(-4) == 23, field_inv(4) == 8;
    assert(sums_in_table(9, 20)) by (nonlinear_arith)
        requires field_inv(-10) == 3, field_inv(10) == 28;
    assert forall|c: int| 9 <= c < 21 implies #[trigger] sums_in_table(9, c) by {
        assert(c == 9 || c == 10 || c == 11 || c == 12 || c == 13 || c == 14 || c == 15 || c == 16 || c == 17 || c == 18 || c == 19 || c == 20);
    }
}

/// The sums of `10 G` with `c G` for `c` from 10 to 20, each checked
/// by computing its slope.
proof fn lemma_row_10()
    ensures
        forall|c: int| 10 <= c < 21 ==> #[trigger] sums_in_table(10, c),
{
    lemma_denominator_inverses();
    assert(sums_in_table(10, 10)) by (nonlinear_arith)
        requires field_inv(56) == 5;
    assert(sums_in_table(10, 11));
    assert(sums_in_table(10, 12)) by (nonlinear_arith)
        requires field_inv(-9) == 24, field_inv(9) == 7;
    assert(sums_in_table(10, 13)) by (nonlinear_arith)
        requires field_inv(-16) == 29, field_inv(16) == 2;
    assert(sums_in_table(10, 14)) by (nonlinear_arith)
        requires field_inv(-20) == 17, field_inv(20) == 14;
    assert(sums_in_table(10, 15)) by (nonlinear_arith)
        requires field_inv(4) == 8, field_inv(-4) == 23;
    assert(sums_in_table(10, 16)) by (nonlinear_arith)
        requires field_inv(5) == 25, field_inv(-5) == 6;
    assert(sums_in_table(10, 17)) by (nonlinear_arith)
        requires field_inv(-15) == 2, field_inv(15) == 29;
    assert(sums_in_table(10, 18)) by (nonlinear_arith)
        requires field_inv(7) == 9, field_inv(-7) == 22;
    assert(sums_in_table(10, 19)) by (nonlinear_arith)
        requires field_inv(-13) == 19, field_inv(13) == 12;
    assert(sums_in_table(10, 20)) by (nonlinear_arith)
        requires field_inv(-19) == 13, field_inv(19) == 18;
    assert forall|c: int| 10 <= c < 21 implies #[trigger] sums_in_table(10, c) by {
        assert(c == 10 || c == 11 || c == 12 || c == 13 || c == 14 || c == 15 || c == 16 || c == 17 || c == 18 || c == 19 || c == 20);
    }
}

/// The sums of `11 G` with `c G` for `c` from 11 to 20, each checked
/// by computing its slope.
proof fn lemma_row_11()
    ensures
        forall|c: int| 11 <= c < 21 ==> #[trigger] sums_in_table(11, c),
{
    lemma_denominator_inverses();
    assert(sums_in_table(11, 11)) by (nonlinear_arith)
        requires field_inv(6) == 26;
    assert(sums_in_table(11, 12)) by (nonlinear_arith)
        requires field_inv(-9) == 24, field_inv(9) == 7;
    assert(sums_in_table(11, 13)) by (nonlinear_arith)
        requires field_inv(-16) == 29, field_inv(16) == 2;
    assert(sums_in_table(11, 14)) by (nonlinear_arith)
        requires field_inv(-20) == 17, field_inv(20) == 14;
    assert(sums_in_table(11, 15)) by (nonlinear_arith)
        requires field_inv(4) == 8, field_inv(-4) == 23;
    assert(sums_in_table(11, 16)) by (nonlinear_arith)
        requires field_inv(5) == 25, field_inv(-5) == 6;
    assert(sums_in_table(11, 17)) by (nonlinear_arith)
        requires field_inv(-15) == 2, field_inv(15) == 29;
    assert(sums_in_table(11, 18)) by (nonlinear_arith)
        requires field_inv(7) == 9, field_inv(-7) == 22;
    assert(sums_in_table(11, 19)) by (nonlinear_arith)
        requires field_inv(-13) == 19, field_inv(13) == 12;
    assert(sums_in_table(11, 20)) by (nonlinear_arith)
        requires field_inv(-19) == 13, field_inv(19) == 18;
    assert forall|c: int| 11 <= c < 21 implies #[trigger] sums_in_table(11, c) by {
        assert(c == 11 || c == 12 || c == 13 || c == 14 || c == 15 || c == 16 || c == 17 || c == 18 || c == 19 || c == 20);
    }
}

/// The sums of `12 G` with `c G` for `c` from 12 to 20, each checked
/// by computing its slope.
proof fn lemma_row_12()
    ensures
        forall|c: int| 12 <= c < 21 ==> #[trigger] sums_in_table(12, c),
{
    lemma_denominator_inverses();
    assert(sums_in_table(12, 12)) by (nonlinear_arith)
        requires field_inv(12) == 13;
    assert(sums_in_table(12, 13)) by (nonlinear_arith)
        requires field_inv(-7) == 22, field_inv(7) == 9;
    assert(sums_in_table(12, 14)) by (nonlinear_arith)
        requires field_inv(-11) == 14, field_inv(11) == 17;
    assert(sums_in_table(12, 15)) by (nonlinear_arith)
        requires field_inv(13) == 12, field_inv(-13) == 19;
    assert(sums_in_table(12, 16)) by (nonlinear_arith)
        requires field_inv(14) == 20, field_inv(-14) == 11;
    assert(sums_in_table(12, 17)) by (nonlinear_arith)
        requires field_inv(-6) == 5, field_inv(6) == 26;
    assert(sums_in_table(12, 18)) by (nonlinear_arith)
        requires field_inv(16) == 2, field_inv(-16) == 29;
    assert(sums_in_table(12, 19)) by (nonlinear_arith)
        requires field_inv(-4) == 23, field_inv(4) == 8;
    assert(sums_in_table(12, 20)) by (nonlinear_arith)
        requires field_inv(-10) == 3, field_inv(10) == 28;
    assert forall|c: int| 12 <= c < 21 implies #[trigger] sums_in_table(12, c) by {
        assert(c == 12 || c == 13 || c == 14 || c == 15 || c == 16 || c == 17 || c == 18 || c == 19 || c == 20);
    }
}

/// The sums of `13 G` with `c G` for `c` from 13 to 20, each checked
/// by computing its slope.
proof fn lemma_row_13()
    ensures
        forall|c: int| 13 <= c < 21 ==> #[trigger] sums_in_table(13, c),
{
    lemma_denominator_inverses();
    assert(sums_in_table(13, 13)) by (nonlinear_arith)
        requires field_inv(56) == 5;
    assert(sums_in_table(13, 14)) by (nonlinear_arith)
        requires field_inv(-4) == 23, field_inv(4) == 8;
    assert(sums_in_table(13, 15)) by (nonlinear_arith)
        requires field_inv(20) == 14, field_inv(-20) == 17;
    assert(sums_in_table(13, 16)) by (nonlinear_arith)
        requires field_inv(21) == 3, field_inv(-21) == 28;
    assert(sums_in_table(13, 17)) by (nonlinear_arith)
        requires field_inv(1) == 1, field_inv(-1) == 30;
    assert(sums_in_table(13, 18)) by (nonlinear_arith)
        requires field_inv(23) == 27, field_inv(-23) == 4;
    assert(sums_in_table(13, 19)) by (nonlinear_arith)
        requires field_inv(3) == 21, field_inv(-3) == 10;
    assert(sums_in_table(13, 20)) by (nonlinear_arith)
        requires field_inv(-3) == 10, field_inv(3) == 21;
    assert forall|c: int| 13 <= c < 21 implies #[trigger] sums_in_table(13, c) by {
        assert(c == 13 || c == 14 || c == 15 || c == 16 || c == 17 || c == 18 || c == 19 || c == 20);
    }
}

/// The sums of `14 G` with `c G` for `c` from 14 to 20, each checked
/// by computing its slope.
proof fn lemma_row_14()
    ensures
        forall|c: int| 14 <= c < 21 ==> #[trigger] sums_in_table(14, c),
{
    lemma_denominator_inverses();
    assert(sums_in_table(14, 14)) by (nonlinear_arith)
        requires field_inv(20) == 14;
    assert(sums_in_table(14, 15)) by (nonlinear_arith)
        requires field_inv(24) == 22, field_inv(-24) == 9;
    assert(sums_in_table(14, 16)) by (nonlinear_arith)
        requires field_inv(25) == 5, field_inv(-25) == 26;
    assert(sums_in_table(14, 17)) by (nonlinear_arith)
        requires field_inv(5) == 25, field_inv(-5) == 6;
    assert(sums_in_table(14, 18)) by (nonlinear_arith)
        requires field_inv(27) == 23, field_inv(-27) == 8;
    assert(sums_in_table(14, 19)) by (nonlinear_arith)
        requires field_inv(7) == 9, field_inv(-7) == 22;
    assert(sums_in_table(14, 20)) by (nonlinear_arith)
        requires field_inv(1) == 1, field_inv(-1) == 30;
    assert forall|c: int| 14 <= c < 21 implies #[trigger] sums_in_table(14, c) by {
        assert(c == 14 || c == 15 || c == 16 || c == 17 || c == 18 || c == 19 || c == 20);
    }
}

/// The sums of `15 G` with `c G` for `c` from 15 to 20, each checked
/// by computing its slope.
proof fn lemma_row_15()
    ensures
        forall|c: int| 15 <= c < 21 ==> #[trigger] sums_in_table(15, c),
{
    lemma_denominator_inverses();
    assert(sums_in_table(15, 15)) by (nonlinear_arith)
        requires field_inv(50) == 18;
    assert(sums_in_table(15, 16)) by (nonlinear_arith)
        requires field_inv(1) == 1, field_inv(-1) == 30;
    assert(sums_in_table(15, 17)) by (nonlinear_arith)
        requires field_inv(-19) == 13, field_inv(19) == 18;
    assert(sums_in_table(15, 18)) by (nonlinear_arith)
        requires field_inv(3) == 21, field_inv(-3) == 10;
    assert(sums_in_table(15, 19)) by (nonlinear_arith)
        requires field_inv(-17) == 20, field_inv(17) == 11;
    assert(sums_in_table(15, 20)) by (nonlinear_arith)
        requires field_inv(-23) == 4, field_inv(23) == 27;
    assert forall|c: int| 15 <= c < 21 implies #[trigger] sums_in_table(15, c) by {
        assert(c == 15 || c == 16 || c == 17 || c == 18 || c == 19 || c == 20);
    }
}

/// The sums of `16 G` with `c G` for `c` from 16 to 20, each checked
/// by computing its slope.
proof fn lemma_row_16()
    ensures
        forall|c: int| 16 <= c < 21 ==> #[trigger] sums_in_table(16, c),
{
    lemma_denominator_inverses();
    assert(sums_in_table(16, 16)) by (nonlinear_arith)
        requires field_inv(30) == 30;
    assert(sums_in_table(16, 17)) by (nonlinear_arith)
        requires field_inv(-20) == 17, field_inv(20) == 14;
    assert(sums_in_table(16, 18)) by (nonlinear_arith)
        requires field_inv(2) == 16, field_inv(-2) == 15;
    assert(sums_in_table(16, 19)) by (nonlinear_arith)
        requires field_inv(-18) == 12, field_inv(18) == 19;
    assert(sums_in_table(16, 20)) by (nonlinear_arith)
        requires field_inv(-24) == 9, field_inv(24) == 22;
    assert forall|c: int| 16 <= c < 21 implies #[trigger] sums_in_table(16, c) by {
        assert(c == 16 || c == 17 || c == 18 || c == 19 || c == 20);
    }
}

/// The sums of `17 G` with `c G` for `c` from 17 to 20, each checked
/// by computing its slope.
proof fn lemma_row_17()
    ensures
        forall|c: int| 17 <= c < 21 ==> #[trigger] sums_in_table(17, c),
{
    lemma_denominator_inverses();
    assert(sums_in_table(17, 17)) by (nonlinear_arith)
        requires field_inv(32) == 1;
    assert(sums_in_table(17, 18)) by (nonlinear_arith)
        requires field_inv(22) == 24, field_inv(-22) == 7;
    assert(sums_in_table(17, 19)) by (nonlinear_arith)
        requires field_inv(2) == 16, field_inv(-2) == 15;
    assert(sums_in_table(17, 20)) by (nonlinear_arith)
        requires field_inv(-4) == 23, field_inv(4) == 8;
    assert forall|c: int| 17 <= c < 21 implies #[trigger] sums_in_table(17, c) by {
        assert(c == 17 || c == 18 || c == 19 || c == 20);
    }
}

/// The sums of `18 G` with `c G` for `c` from 18 to 20, each checked
/// by computing its slope.
proof fn lemma_row_18()
    ensures
        forall|c: int| 18 <= c < 21 ==> #[trigger] sums_in_table(18, c),
{
    lemma_denominator_inverses();
    assert(sums_in_table(18, 18)) by (nonlinear_arith)
        requires field_inv(50) == 18;
    assert(sums_in_table(18, 19)) by (nonlinear_arith)
        requires field_inv(-20) == 17, field_inv(20) == 14;
    assert(sums_in_table(18, 20)) by (nonlinear_arith)
        requires field_inv(-26) == 25, field_inv(26) == 6;
    assert forall|c: int| 18 <= c < 21 implies #[trigger] sums_in_table(18, c) by {
        assert(c == 18 || c == 19 || c == 20);
    }
}

/// The sums of `19 G` with `c G` for `c` from 19 to 20, each checked
/// by computing its slope.
proof fn lemma_row_19()
    ensures
        forall|c: int| 19 <= c < 21 ==> #[trigger] sums_in_table(19, c),
{
    lemma_denominator_inverses();
    assert(sums_in_table(19, 19)) by (nonlinear_arith)
        requires field_inv(56) == 5;
    assert(sums_in_table(19, 20)) by (nonlinear_arith)
        requires field_inv(-6) == 5, field_inv(6) == 26;
    assert forall|c: int| 19 <= c < 21 implies #[trigger] sums_in_table(19, c) by {
        assert(c == 19 || c == 20);
    }
}

/// The sums of `20 G` with `c G` for `c` from 20 to 20, each checked
/// by computing its slope.
proof fn lemma_row_20()
    ensures
        forall|c: int| 20 <= c < 21 ==> #[trigger] sums_in_table(20, c),
{
    lemma_denominator_inverses();
    assert(sums_in_table(20, 20)) by (nonlinear_arith)
        requires field_inv(32) == 1;
    assert forall|c: int| 20 <= c < 21 implies #[trigger] sums_in_table(20, c) by {
        assert(c == 20);
    }
}


/// Every sum of two multiples of the generator is read from the table.
proof fn lemma_table_sums(a: int, c: int)
    requires
        0 <= a < 21,
        0 <= c < 21,
    ensures
        sums_in_table(a, c),
{
    let lo = if a <= c { a } else { c };
    let hi = if a <= c { c } else { a };
    if lo == 0 {
        assert(table_entry(0).infinity);
        assert(table_entry(hi).infinity ==> hi == 0);
        assert(sums_in_table(lo, hi));
    } else {
        if lo == 1 {
            lemma_row_1();
        } else if lo == 2 {
            lemma_row_2();
        } else if lo == 3 {
            lemma_row_3();
        } else if lo == 4 {
            lemma_row_4();
        } else if lo == 5 {
            lemma_row_5();
        } else if lo == 6 {
            lemma_row_6();
        } else if lo == 7 {
            lemma_row_7();
        } else if lo == 8 {
            lemma_row_8();
        } else if lo == 9 {
            lemma_row_9();
        } else if lo == 10 {
            lemma_row_10();
        } else if lo == 11 {
            lemma_row_11();
        } else if lo == 12 {
            lemma_row_12();
        } else if lo == 13 {
            lemma_row_13();
        } else if lo == 14 {
            lemma_row_14();
        } else if lo == 15 {
            lemma_row_15();
        } else if lo == 16 {
            lemma_row_16();
        } else if lo == 17 {
            lemma_row_17();
        } else if lo == 18 {
            lemma_row_18();
        } else if lo == 19 {
            lemma_row_19();
        } else if lo == 20 {
            lemma_row_20();
        }
        assert(sums_in_table(lo, hi));
    }
}

/// `k G` is the table's entry for `k mod 21`.
proof fn lemma_multiple_in_table(k: nat)
    ensures
        scalar_mul_spec(k, generator_spec()) == table_entry((k % 21) as int),
    decreases k,
{
    if k > 0 {
        lemma_multiple_in_table((k - 1) as nat);
        lemma_table_sums(((k - 1) as nat % 21) as int, 1);
        lemma_add_mod_noop(k - 1, 1, 21);
    }
}

/// Adding two multiples of the generator adds their scalars, and
/// `curve_add` returns on every such pair of points.
pub proof fn lemma_multiples_add(a: nat, c: nat)
    ensures
        point_add(scalar_mul_spec(a, generator_spec()), scalar_mul_spec(c, generator_spec()))
            == scalar_mul_spec(a + c, generator_spec()),
        add_defined(scalar_mul_spec(a, generator_spec()), scalar_mul_spec(c, generator_spec())),
{
    lemma_multiple_in_table(a);
    lemma_multiple_in_table(c);
    lemma_multiple_in_table(a + c);
    lemma_table_sums((a % 21) as int, (c % 21) as int);
    lemma_add_mod_noop(a as int, c as int, 21);
}

/// The generator has order 21: `21 G` is the point at infinity, no smaller
/// positive multiple is, and `k G` depends on `k` modulo 21 alone.
pub proof fn lemma_generator_order(k: nat)
    ensures
        scalar_mul_spec(21, generator_spec()) == infinity_point(),
        0 < k < 21 ==> !scalar_mul_spec(k, generator_spec()).infinity,
        scalar_mul_spec(k, generator_spec()) == scalar_mul_spec(k % 21, generator_spec()),
{
    lemma_multiple_in_table(21);
    lemma_multiple_in_table(k);
    lemma_multiple_in_table(k % 21);
}

/// The double-and-add ladder from accumulator `a G` and current power `c G`
/// on the scalar `k` ends at `(a + k c) G`, and every addition it makes is
/// one on which `curve_add` returns.
pub proof fn lemma_ladder_multiples(k: nat, a: nat, c: nat)
    ensures
        ladder(k, scalar_mul_spec(a, generator_spec()), scalar_mul_spec(c, generator_spec()))
            == scalar_mul_spec(a + k * c, generator_spec()),
        ladder_defined(
            k,
            scalar_mul_spec(a, generator_spec()),
            scalar_mul_spec(c, generator_spec()),
        ),
    decreases k,
{
    if k > 0 {
        let a2: nat = if k % 2 == 1 { a + c } else { a };
        lemma_multiples_add(a, c);
        lemma_multiples_add(c, c);
        lemma_ladder_multiples(k / 2, a2, c + c);
        assert(a2 + (k / 2) * (c + c) == a + k * c) by (nonlinear_arith)
            requires
                a2 == a + (k % 2) * c,
                k == 2 * (k / 2) + k % 2,
        ;
    }
}

/// `k` copies of `c G` added together are `(k c) G`.
pub proof fn lemma_repeated_multiple(k: nat, c: nat)
    ensures
        scalar_mul_spec(k, scalar_mul_spec(c, generator_spec())) == scalar_mul_spec(
            k * c,
            generator_spec(),
        ),
    decreases k,
{
    if k == 0 {
        lemma_multiple_in_table(0);
    } else {
        lemma_repeated_multiple((k - 1) as nat, c);
        lemma_multiples_add(((k - 1) * c) as nat, c);
        assert((k - 1) * c + c == k * c) by (nonlinear_arith);
    }
}

/// On every point of the group generated by G, `scalar_mul` agrees with
/// repeated addition: the ladder on `k mod 21` is `k` copies of the point
/// added together, and each of its additions returns.
pub proof fn lemma_scalar_mul_is_repeated_addition(k: nat, c: nat)
    ensures
        ({
            let p = scalar_mul_spec(c, generator_spec());
            &&& ladder(k % 21, infinity_point(), p) == scalar_mul_spec(k, p)
            &&& ladder_defined(k % 21, infinity_point(), p)
        }),
{
    let p = scalar_mul_spec(c, generator_spec());
    lemma_multiple_in_table(0);
    lemma_ladder_multiples(k % 21, 0, c);
    lemma_repeated_multiple(k, c);
    lemma_multiple_in_table((k % 21) * c);
    lemma_multiple_in_table(k * c);
    assert(((k % 21) * c) % 21 == (k * c) % 21) by {
        vstd::arithmetic::div_mod::lemma_mul_mod_noop_left(k as int, c as int, 21);
    }
}

/// When `Q = qG`, the oracle's reference output `aG + bQ` is
/// `(a + b q) G`, and the reference arithmetic returns on every step.
pub proof fn lemma_oracle_on_multiples(a: u16, b: u16, q: nat)
    ensures
        oracle_defined(a, b, scalar_mul_spec(q, generator_spec())),
        oracle_point_spec(a, b, scalar_mul_spec(q, generator_spec())) == scalar_mul_spec(
            (a + b * q) as nat,
            generator_spec(),
        ),
{
    let g = generator_spec();
    lemma_multiple_in_table(1);
    assert(scalar_mul_spec(1, g) == g);
    lemma_scalar_mul_is_repeated_addition(a as nat, 1);
    lemma_scalar_mul_is_repeated_addition(b as nat, q);
    lemma_repeated_multiple(a as nat, 1);
    lemma_repeated_multiple(b as nat, q);
    lemma_multiples_add(a as nat * 1, b as nat * q);
}

/// Every multiple of the generator has reduced coordinates, and the point
/// at infinity among them is the canonical one.
pub proof fn lemma_multiple_coordinates(k: nat)
    ensures
        scalar_mul_spec(k, generator_spec()).x < 31,
        scalar_mul_spec(k, generator_spec()).y < 31,
        scalar_mul_spec(k, generator_spec()).infinity ==> scalar_mul_spec(k, generator_spec()) == infinity_point(),
        !scalar_mul_spec(k, generator_spec()).infinity ==> scalar_mul_spec(k, generator_spec()).y > 0,
{
    lemma_multiple_in_table(k);
    let i = (k % 21) as int;
    assert(i == 0 || i == 1 || i == 2 || i == 3 || i == 4 || i == 5 || i == 6 || i == 7 || i == 8 || i == 9
        || i == 10 || i == 11 || i == 12 || i == 13 || i == 14 || i == 15 || i == 16 || i == 17 || i == 18
        || i == 19 || i == 20);
}

/// The addition circuit adds multiples of the generator: on `a G` and
/// `c G` it selects `(a + c) G`.
pub proof fn lemma_circuit_adds_multiples(a: nat, c: nat)
    ensures
        point_add_circuit(scalar_mul_spec(a, generator_spec()), scalar_mul_spec(c, generator_spec()))
            == scalar_mul_spec(a + c, generator_spec()),
{
    lemma_multiples_add(a, c);
    lemma_multiple_coordinates(a);
    lemma_multiple_coordinates(c);
    lemma_circuit_sum(scalar_mul_spec(a, generator_spec()), scalar_mul_spec(c, generator_spec()));
}

/// The negation circuit negates multiples of the generator: on `c G` it
/// gives `(21 - c mod 21) G`.
pub proof fn lemma_circuit_negates_multiples(c: nat)
    ensures
        point_neg_circuit(scalar_mul_spec(c, generator_spec())) == scalar_mul_spec(
            (21 - c % 21) as nat,
            generator_spec(),
        ),
{
    lemma_multiple_in_table(c);
    lemma_multiple_in_table((21 - c % 21) as nat);
    let k = (c % 21) as int;
    assert((21 - c % 21) % 21 == (if k == 0 { 0 } else { 21 - k }));
    assert(k == 0 || k == 1 || k == 2 || k == 3 || k == 4 || k == 5 || k == 6 || k == 7 || k == 8 || k == 9 || k == 10 || k == 11 || k == 12 || k == 13 || k == 14 || k == 15 || k == 16 || k == 17 || k == 18 || k == 19 || k == 20);
}

} // verus!
