use ecdlp_5_bit::curve::{
    add_is_defined, assert_public_instance, checked_oracle_point, checked_scalar_mul, curve_add, generator,
    inv_mod, mod_i, oracle_point, scalar_mul, Point,
};

const INF: Point = Point { x: 0, y: 0, infinity: true };

#[test]
fn inverses_in_f31() {
    assert_eq!(inv_mod(0), None);
    assert_eq!(inv_mod(31), None);
    assert_eq!(inv_mod(1), Some(1));
    assert_eq!(inv_mod(2), Some(16));
    assert_eq!(inv_mod(30), Some(30));
    for v in 1..31u16 {
        let w = inv_mod(v).unwrap();
        assert_eq!((v * w) % 31, 1);
    }
}

#[test]
fn euclidean_reduction() {
    assert_eq!(mod_i(-1), 30);
    assert_eq!(mod_i(62), 0);
    assert_eq!(mod_i(-32), 30);
}

#[test]
fn generator_has_order_21() {
    let g = generator();
    assert_eq!(g, Point { x: 1, y: 15, infinity: false });
    assert_eq!(scalar_mul(21, g), INF);
    assert_eq!(scalar_mul(0, g), INF);
    assert_eq!(scalar_mul(1, g), g);
    assert_eq!(scalar_mul(16, g), Point { x: 25, y: 15, infinity: false });
    assert_eq!(scalar_mul(37, g), scalar_mul(16, g));
    assert!(assert_public_instance());
}

#[test]
fn group_law_cases() {
    let g = generator();
    let neg_g = Point { x: 1, y: 16, infinity: false };
    assert_eq!(curve_add(INF, g), g);
    assert_eq!(curve_add(g, INF), g);
    assert_eq!(curve_add(g, neg_g), INF);
    let two_g = curve_add(g, g);
    assert_eq!(two_g, scalar_mul(2, g));
    assert_eq!(curve_add(two_g, g), scalar_mul(3, g));
    for k in 0..21u16 {
        for j in 0..21u16 {
            assert_eq!(curve_add(scalar_mul(k, g), scalar_mul(j, g)), scalar_mul(k + j, g));
        }
    }
}

#[test]
fn checked_arithmetic_matches() {
    let g = generator();
    assert!(add_is_defined(g, g));
    assert!(!add_is_defined(Point { x: 1, y: 15, infinity: false }, Point { x: 1, y: 3, infinity: false }));
    for k in 0..21u16 {
        assert_eq!(checked_scalar_mul(k, g), Some(scalar_mul(k, g)));
    }
    let q = scalar_mul(16, g);
    for a in 0..32u16 {
        for b in [0u16, 5, 21, 31] {
            assert_eq!(checked_oracle_point(a, b, q), Some(oracle_point(a, b, q)));
        }
    }
    assert_eq!(oracle_point(1, 0, q), g);
    assert_eq!(oracle_point(0, 1, q), q);
    assert_eq!(oracle_point(21, 21, q), INF);
}

fn repeated_addition(k: u32, p: Point) -> Point {
    let mut acc = INF;
    for _ in 0..k {
        acc = curve_add(acc, p);
    }
    acc
}

#[test]
fn ladder_agrees_with_repeated_addition() {
    let g = generator();
    for c in 0..21u16 {
        let p = scalar_mul(c, g);
        for k in 0..50u16 {
            assert_eq!(scalar_mul(k, p), repeated_addition(k as u32, p));
        }
    }
}

#[test]
fn oracle_on_multiples_is_a_plus_bq() {
    let g = generator();
    for q in 0..21u16 {
        let qp = scalar_mul(q, g);
        for a in 0..32u16 {
            for b in 0..32u16 {
                assert_eq!(oracle_point(a, b, qp), scalar_mul(((a as u32 + b as u32 * q as u32) % 21) as u16, g));
            }
        }
    }
    assert_eq!(oracle_point(3, 4, scalar_mul(5, g)), scalar_mul(2, g));
}
