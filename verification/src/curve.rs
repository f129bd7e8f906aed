//! Reference arithmetic for the oracle: the prime field F_31 and the curve
//! E: y^2 = x^3 + 7 over it, whose group has order 21 and generator
//! G = (1, 15).
use vstd::arithmetic::div_mod::{
    lemma_fundamental_div_mod, lemma_mod_multiples_vanish, lemma_mul_mod_noop_right,
    lemma_sub_mod_noop,
};
use vstd::arithmetic::mul::lemma_mul_is_commutative;
use vstd::prelude::*;

verus! {

/// The field modulus.
pub const FIELD_MODULUS: u16 = 31;

/// The coefficient `a` of the curve equation.
pub const CURVE_A: u16 = 0;

/// The coefficient `b` of the curve equation.
pub const CURVE_B: u16 = 7;

/// The order of the curve group.
pub const GROUP_ORDER: u16 = 21;

/// A point in affine coordinates, or the point at infinity.
#[derive(Clone, Copy, Debug, PartialEq, Eq, Structural)]
pub struct Point {
    pub x: u16,
    pub y: u16,
    pub infinity: bool,
}

/// `v` reduced into `[0, 31)`.
pub open spec fn fmod(v: int) -> int {
    v % 31
}

/// The inverse of `v` in F_31: the element of `[0, 31)` whose product with
/// `v` is 1 modulo 31.
pub open spec fn field_inv(v: int) -> int {
    choose|w: int| 0 <= w < 31 && #[trigger] is_field_inverse(v, w)
}

/// Whether `w` is an inverse of `v` modulo 31.
pub open spec fn is_field_inverse(v: int, w: int) -> bool {
    (v * w) % 31 == 1
}

/// The canonical point at infinity.
pub open spec fn infinity_point() -> Point {
    Point { x: 0, y: 0, infinity: true }
}

/// The generator G = (1, 15).
pub open spec fn generator_spec() -> Point {
    Point { x: 1, y: 15, infinity: false }
}

/// Whether `p` is a point of the curve in its canonical encoding: the point at
/// infinity with zero coordinates, or reduced coordinates that satisfy the
/// curve equation.
pub open spec fn valid_point(p: Point) -> bool {
    if p.infinity {
        p.x == 0 && p.y == 0
    } else {
        p.x < 31 && p.y < 31 && (p.y * p.y - p.x * p.x * p.x - 7) % 31 == 0
    }
}

/// The chord-and-tangent group law. The point at infinity is the identity, a
/// point plus its negation is the point at infinity, a point is doubled along
/// its tangent, and two other points are added along their chord.
pub open spec fn point_add(l: Point, r: Point) -> Point {
    if l.infinity {
        r
    } else if r.infinity {
        l
    } else if l.x == r.x && (l.y + r.y) % 31 == 0 {
        infinity_point()
    } else {
        let lambda = if l == r {
            fmod((3 * l.x * l.x + CURVE_A) * field_inv(2 * l.y))
        } else {
            fmod((r.y - l.y) * field_inv(r.x - l.x))
        };
        let x3 = fmod(lambda * lambda - l.x - r.x);
        let y3 = fmod(lambda * (l.x - x3) - l.y);
        Point { x: x3 as u16, y: y3 as u16, infinity: false }
    }
}

/// The inputs on which `curve_add` returns: every input with an infinite
/// operand, and finite operands whose coordinate arithmetic fits its machine
/// integers and whose slope denominator is nonzero.
pub open spec fn add_defined(l: Point, r: Point) -> bool {
    l.infinity || r.infinity || (l.y + r.y <= u16::MAX && ((l.x == r.x && (l.y + r.y) % 31 == 0)
        || (l == r && 3 * l.x * l.x <= i32::MAX && 2 * l.y <= u16::MAX) || (l != r && (r.x - l.x)
        % 31 != 0)))
}

/// `k` copies of `p` added together.
pub open spec fn scalar_mul_spec(k: nat, p: Point) -> Point
    decreases k,
{
    if k == 0 {
        infinity_point()
    } else {
        point_add(scalar_mul_spec((k - 1) as nat, p), p)
    }
}

/// The double-and-add ladder from accumulator `acc` and current power `cur`
/// on the remaining scalar bits `k`.
pub open spec fn ladder(k: nat, acc: Point, cur: Point) -> Point
    decreases k,
{
    if k == 0 {
        acc
    } else {
        let acc2 = if k % 2 == 1 {
            point_add(acc, cur)
        } else {
            acc
        };
        ladder(k / 2, acc2, point_add(cur, cur))
    }
}

/// Whether every addition of the ladder is one on which `curve_add` returns.
pub open spec fn ladder_defined(k: nat, acc: Point, cur: Point) -> bool
    decreases k,
{
    if k == 0 {
        true
    } else {
        let acc2 = if k % 2 == 1 {
            point_add(acc, cur)
        } else {
            acc
        };
        (k % 2 == 1 ==> add_defined(acc, cur)) && add_defined(cur, cur) && ladder_defined(
            k / 2,
            acc2,
            point_add(cur, cur),
        )
    }
}

/// The generator G = (1, 15).
pub fn generator() -> (g: Point)
    ensures
        g == generator_spec(),
{
    Point { x: 1, y: 15, infinity: false }
}

/// Reduces a signed value into `[0, 31)`.
pub fn mod_i(value: i32) -> (r: u16)
    ensures
        r == value % 31,
        r < 31,
{
    match value.checked_rem_euclid(31) {
        Some(m) => m as u16,
        None => 0,
    }
}

/// A divisor of a positive number and of another number divides their
/// Euclidean remainder, and conversely.
proof fn lemma_euclid_step(r: int, n: int, d: int)
    requires
        n > 0,
        r >= 0,
        d > 0,
    ensures
        (n % d == 0 && (r % n) % d == 0) <==> (r % d == 0 && n % d == 0),
{
    lemma_fundamental_div_mod(r, n);
    let q = r / n;
    let m = r % n;
    assert(r == n * q + m);
    if n % d == 0 {
        lemma_fundamental_div_mod(n, d);
        let a = n / d;
        assert(n == d * a);
        assert(n * q == d * (a * q)) by (nonlinear_arith)
            requires
                n == d * a,
        ;
        if m % d == 0 {
            lemma_fundamental_div_mod(m, d);
            let b = m / d;
            assert(r == d * (a * q + b)) by (nonlinear_arith)
                requires
                    r == n * q + m,
                    n * q == d * (a * q),
                    m == d * b,
            ;
            lemma_mod_multiples_vanish(a * q + b, 0, d);
            assert(r % d == 0);
        }
        if r % d == 0 {
            lemma_fundamental_div_mod(r, d);
            let c = r / d;
            assert(m == d * (c - a * q)) by (nonlinear_arith)
                requires
                    r == n * q + m,
                    n * q == d * (a * q),
                    r == d * c,
            ;
            lemma_mod_multiples_vanish(c - a * q, 0, d);
            assert(m % d == 0);
        }
    }
}

/// The only divisors of 31 are 1 and 31.
proof fn lemma_31_prime(d: int)
    requires
        0 < d <= 31,
        31int % d == 0,
    ensures
        d == 1 || d == 31,
{
    assert(forall|k: int| 2 <= k <= 30 ==> #[trigger] (31int % k) != 0) by {
        assert forall|k: int| 2 <= k <= 30 implies #[trigger] (31int % k) != 0 by {
            if 2 <= k <= 30 {
                assert(31int % k != 0) by (nonlinear_arith)
                    requires
                        2 <= k <= 30,
                ;
            }
        }
    }
}

/// Whether `a` and `b` have the common divisor `d` exactly when 31 and `v`
/// do.
pub open spec fn same_divisors(a: int, b: int, v: int, d: int) -> bool {
    (a % d == 0 && b % d == 0) <==> (31int % d == 0 && v % d == 0)
}

pub open spec fn abs(v: int) -> int {
    if v < 0 {
        -v
    } else {
        v
    }
}

/// The inverse of `value` in F_31, or `None` when `value` is a multiple of 31.
/// Runs the extended Euclidean algorithm on `(31, value)`.
pub fn inv_mod(value: u16) -> (inv: Option<u16>)
    ensures
        inv is None <==> value % 31 == 0,
        inv matches Some(w) ==> w < 31 && (value * w) % 31 == 1 && w == field_inv(value as int),
{
    if value == 0 {
        return None;
    }
    let ghost v = value as int;
    let mut t: i32 = 0;
    let mut new_t: i32 = 1;
    let mut r: u32 = 31;
    let mut new_r: u32 = value as u32;
    proof {
        assert forall|d: int| d > 0 implies #[trigger] same_divisors(r as int, new_r as int, v, d) by {}
        assert((t * v - r) % 31 == 0);
        assert(abs(new_t as int) == 1 && abs(t as int) == 0);
        assert(r * abs(new_t as int) + new_r * abs(t as int) == 31);
        assert((new_t * v - new_r) % 31 == 0) by {
            assert(new_t * v - new_r == 0);
        }
    }
    while new_r != 0
        invariant
            v == value as int,
            v > 0,
            r <= 65535,
            new_r <= 65535,
            r * abs(new_t as int) + new_r * abs(t as int) == 31,
            t * new_t <= 0,
            -31 <= t <= 31,
            -31 <= new_t <= 31,
            (t * v - r) % 31 == 0,
            (new_t * v - new_r) % 31 == 0,
            forall|d: int| d > 0 ==> #[trigger] same_divisors(r as int, new_r as int, v, d),
        decreases new_r,
    {
        let q = r / new_r;
        let ghost (t0, nt0, r0, nr0) = (t as int, new_t as int, r as int, new_r as int);
        proof {
            lemma_fundamental_div_mod(r0, nr0);
            assert(r0 - q * nr0 == r0 % nr0) by (nonlinear_arith)
                requires
                    r0 == nr0 * (r0 / nr0) + r0 % nr0,
                    q == r0 / nr0,
            ;
            assert(0 <= r0 % nr0 < nr0);
            assert(q <= r0) by (nonlinear_arith)
                requires
                    nr0 >= 1,
                    q == r0 / nr0,
                    r0 >= 0,
            ;
            assert(q * abs(nt0) <= 31 * 31 * 65536) by (nonlinear_arith)
                requires
                    0 <= q <= r0,
                    r0 <= 65535,
                    0 <= abs(nt0) <= 31,
            ;
        }
        proof {
            assert(-31 * 65535 <= (q as int) * nt0 <= 31 * 65535) by (nonlinear_arith)
                requires
                    0 <= q <= 65535,
                    -31 <= nt0 <= 31,
            ;
        }
        let next_t = t - (q as i32) * new_t;
        let next_r = r - q * new_r;
        proof {
            let nt1 = next_t as int;
            let qq = q as int;
            assert(abs(nt1) == abs(t0) + qq * abs(nt0)) by (nonlinear_arith)
                requires
                    t0 * nt0 <= 0,
                    nt1 == t0 - qq * nt0,
                    qq >= 0,
            ;
            assert(nr0 * abs(nt1) + (r0 - qq * nr0) * abs(nt0) == 31) by (nonlinear_arith)
                requires
                    abs(nt1) == abs(t0) + qq * abs(nt0),
                    r0 * abs(nt0) + nr0 * abs(t0) == 31,
            ;
            assert(nt0 * nt1 <= 0) by (nonlinear_arith)
                requires
                    t0 * nt0 <= 0,
                    nt1 == t0 - qq * nt0,
                    qq >= 0,
            ;
            assert(abs(nt1) <= 31) by (nonlinear_arith)
                requires
                    nr0 * abs(nt1) + (r0 - qq * nr0) * abs(nt0) == 31,
                    nr0 >= 1,
                    r0 - qq * nr0 >= 0,
                    abs(nt0) >= 0,
            ;
            assert((nt1 * v - (r0 - qq * nr0)) % 31 == 0) by {
                assert(nt1 * v - (r0 - qq * nr0) == (t0 * v - r0) - qq * (nt0 * v - nr0))
                    by (nonlinear_arith)
                    requires
                        nt1 == t0 - qq * nt0,
                ;
                lemma_fundamental_div_mod(t0 * v - r0, 31);
                lemma_fundamental_div_mod(nt0 * v - nr0, 31);
                let a = (t0 * v - r0) / 31;
                let b = (nt0 * v - nr0) / 31;
                assert((t0 * v - r0) - qq * (nt0 * v - nr0) == 31 * (a - qq * b))
                    by (nonlinear_arith)
                    requires
                        t0 * v - r0 == 31 * a,
                        nt0 * v - nr0 == 31 * b,
                ;
                lemma_mod_multiples_vanish(a - qq * b, 0, 31);
            }
            assert forall|d: int| d > 0 implies #[trigger] same_divisors(nr0, r0 - qq * nr0, v, d) by {
                assert(same_divisors(r0, nr0, v, d));
                lemma_euclid_step(r0, nr0, d);
            }
        }
        t = new_t;
        new_t = next_t;
        r = new_r;
        new_r = next_r;
    }
    proof {
        assert(r * abs(new_t as int) == 31);
        assert(abs(new_t as int) >= 1) by (nonlinear_arith)
            requires
                r * abs(new_t as int) == 31,
                abs(new_t as int) >= 0,
        ;
        assert(r >= 1) by (nonlinear_arith)
            requires
                r * abs(new_t as int) == 31,
                r >= 0,
        ;
        assert(r <= 31) by (nonlinear_arith)
            requires
                r * abs(new_t as int) == 31,
                r >= 1,
                abs(new_t as int) >= 1,
        ;
        assert(same_divisors(r as int, new_r as int, v, r as int));
        assert(((r as int) % (r as int) == 0 && 0int % (r as int) == 0));
        assert(31int % (r as int) == 0 && v % (r as int) == 0);
        lemma_31_prime(r as int);
    }
    if r > 1 {
        proof {
            assert(r == 31);
        }
        None
    } else {
        let w = mod_i(t);
        proof {
            assert(v % 31 != 0) by {
                if v % 31 == 0 {
                    assert(same_divisors(r as int, new_r as int, v, 31));
                }
            }
            assert((t * v - 1) % 31 == 0);
            lemma_inverse_from_bezout(t as int, v);
            lemma_field_inv_unique(v, w as int);
        }
        Some(w)
    }
}

/// If `t * v = 1 (mod 31)` then `t mod 31` is an inverse of `v`.
proof fn lemma_inverse_from_bezout(t: int, v: int)
    requires
        (t * v - 1) % 31 == 0,
    ensures
        (v * (t % 31)) % 31 == 1,
{
    lemma_mul_mod_noop_right(v, t, 31);
    lemma_mul_is_commutative(v, t);
    lemma_fundamental_div_mod(t * v - 1, 31);
    let k = (t * v - 1) / 31;
    assert(t * v == 31 * k + 1);
    lemma_mod_multiples_vanish(k, 1, 31);
}

/// An inverse in `[0, 31)` is unique, so it is `field_inv(v)`.
pub proof fn lemma_field_inv_unique(v: int, w: int)
    requires
        0 <= w < 31,
        (v * w) % 31 == 1,
    ensures
        w == field_inv(v),
        (v * field_inv(v)) % 31 == 1,
{
    assert(is_field_inverse(v, w));
    let w2 = field_inv(v);
    assert(0 <= w2 < 31 && (v * w2) % 31 == 1);
    assert(w * (v * w2) == w2 * (v * w)) by (nonlinear_arith);
    lemma_mul_mod_noop_right(w, v * w2, 31);
    lemma_mul_mod_noop_right(w2, v * w, 31);
    assert((w * (v * w2)) % 31 == (w * 1) % 31);
    assert((w2 * (v * w)) % 31 == (w2 * 1) % 31);
}

/// For a nonzero residue with inverse `w`, `w` is the inverse of every
/// value with that residue.
proof fn lemma_inv_of_residue(b: int, w: int)
    requires
        b % 31 != 0,
        0 <= w < 31,
        ((b % 31) * w) % 31 == 1,
    ensures
        w == field_inv(b),
        w == field_inv(b % 31),
        (b * w) % 31 == 1,
{
    vstd::arithmetic::div_mod::lemma_mul_mod_noop_left(b, w, 31);
    lemma_field_inv_unique(b, w);
    lemma_field_inv_unique(b % 31, w);
}

/// Adds two points by the chord-and-tangent rule.
pub fn curve_add(left: Point, right: Point) -> (p: Point)
    requires
        add_defined(left, right),
    ensures
        p == point_add(left, right),
{
    if left.infinity {
        return right;
    }
    if right.infinity {
        return left;
    }
    if left.x == right.x && (left.y + right.y) % FIELD_MODULUS == 0 {
        return Point { x: 0, y: 0, infinity: true };
    }
    let lambda: u16 = if left == right {
        if left.y == 0 {
            return Point { x: 0, y: 0, infinity: true };
        }
        let x = left.x as i32;
        let numerator: i32 = mod_i(3 * x * x + CURVE_A as i32) as i32;
        let den_in = (2 * left.y) % FIELD_MODULUS;
        let denominator = match inv_mod(den_in) {
            Some(d) => d,
            None => {
                proof {
                    assert((2 * left.y) % 31 == 0);
                    assert((left.y + right.y) % 31 == 0);
                }
                return Point { x: 0, y: 0, infinity: true };
            },
        };
        proof {
            lemma_inv_of_residue(2 * left.y, denominator as int);
            vstd::arithmetic::div_mod::lemma_mul_mod_noop_left(
                3 * left.x * left.x + CURVE_A,
                denominator as int,
                31,
            );
        }
        assert(0 <= (numerator as int) * (denominator as int) <= 900) by (nonlinear_arith)
            requires
                0 <= numerator < 31,
                0 <= denominator < 31,
        ;
        mod_i(numerator * denominator as i32)
    } else {
        let numerator = mod_i(right.y as i32 - left.y as i32);
        let den_in = mod_i(right.x as i32 - left.x as i32);
        let denominator = match inv_mod(den_in) {
            Some(d) => d,
            None => {
                proof {
                    assert(false);
                }
                return Point { x: 0, y: 0, infinity: true };
            },
        };
        proof {
            lemma_inv_of_residue(right.x - left.x, denominator as int);
            vstd::arithmetic::div_mod::lemma_mul_mod_noop_left(
                right.y - left.y,
                denominator as int,
                31,
            );
        }
        assert(0 <= (numerator as int) * (denominator as int) <= 900) by (nonlinear_arith)
            requires
                0 <= numerator < 31,
                0 <= denominator < 31,
        ;
        mod_i(numerator as i32 * denominator as i32)
    };
    assert(0 <= (lambda as int) * (lambda as int) <= 900) by (nonlinear_arith)
        requires
            0 <= lambda < 31,
    ;
    let x3 = mod_i(lambda as i32 * lambda as i32 - left.x as i32 - right.x as i32);
    assert(-31 * 31 <= (lambda as int) * (left.x - x3) <= 31 * 65536) by (nonlinear_arith)
        requires
            0 <= lambda < 31,
            0 <= x3 < 31,
            0 <= left.x <= 65535,
    ;
    let y3 = mod_i(lambda as i32 * (left.x as i32 - x3 as i32) - left.y as i32);
    Point { x: x3, y: y3, infinity: false }
}

/// Multiplies a point by a scalar, reduced modulo the group order, with the
/// double-and-add ladder over the scalar's bits from the least significant.
pub fn scalar_mul(scalar: u16, point: Point) -> (p: Point)
    requires
        ladder_defined((scalar % 21) as nat, infinity_point(), point),
    ensures
        p == ladder((scalar % 21) as nat, infinity_point(), point),
{
    let mut scalar = scalar % GROUP_ORDER;
    let mut acc = Point { x: 0, y: 0, infinity: true };
    let mut cur = point;
    let ghost total = ladder(scalar as nat, acc, cur);
    while scalar != 0
        invariant
            ladder(scalar as nat, acc, cur) == total,
            ladder_defined(scalar as nat, acc, cur),
        decreases scalar,
    {
        assert(scalar & 1 == scalar % 2) by (bit_vector);
        assert(scalar >> 1 == scalar / 2) by (bit_vector);
        if scalar & 1 != 0 {
            acc = curve_add(acc, cur);
        }
        cur = curve_add(cur, cur);
        scalar = scalar >> 1;
    }
    acc
}

/// The oracle's output `aG + bQ`, with both scalars reduced modulo the group
/// order.
pub open spec fn oracle_point_spec(a: u16, b: u16, q: Point) -> Point {
    point_add(
        ladder((a % 21) as nat, infinity_point(), generator_spec()),
        ladder((b % 21) as nat, infinity_point(), q),
    )
}

/// Computes `aG + bQ`.
pub fn oracle_point(a: u16, b: u16, q: Point) -> (p: Point)
    requires
        ladder_defined((a % 21) as nat, infinity_point(), generator_spec()),
        ladder_defined((b % 21) as nat, infinity_point(), q),
        add_defined(
            ladder((a % 21) as nat, infinity_point(), generator_spec()),
            ladder((b % 21) as nat, infinity_point(), q),
        ),
    ensures
        p == oracle_point_spec(a, b, q),
{
    let ag = scalar_mul(a % GROUP_ORDER, generator());
    let bq = scalar_mul(b % GROUP_ORDER, q);
    curve_add(ag, bq)
}

/// Whether `curve_add` returns on the operands: `add_defined`, decided.
pub fn add_is_defined(left: Point, right: Point) -> (d: bool)
    ensures
        d == add_defined(left, right),
{
    if left.infinity || right.infinity {
        return true;
    }
    if left.y as u32 + right.y as u32 > 65535 {
        return false;
    }
    if left.x == right.x && (left.y + right.y) % FIELD_MODULUS == 0 {
        return true;
    }
    if left == right {
        let x = left.x as u64;
        assert((3 * x) * x <= 3 * 65535 * 65535) by (nonlinear_arith)
            requires
                x <= 65535,
        ;
        3 * x * x <= 0x7fff_ffff && 2 * (left.y as u64) <= 65535
    } else {
        mod_i(right.x as i32 - left.x as i32) != 0
    }
}

/// Whether the oracle's reference arithmetic returns on `a`, `b` and `q`:
/// both ladders and their final sum are defined.
pub open spec fn oracle_defined(a: u16, b: u16, q: Point) -> bool {
    &&& ladder_defined((a % 21) as nat, infinity_point(), generator_spec())
    &&& ladder_defined((b % 21) as nat, infinity_point(), q)
    &&& add_defined(
        ladder((a % 21) as nat, infinity_point(), generator_spec()),
        ladder((b % 21) as nat, infinity_point(), q),
    )
}

/// `scalar * point` by the double-and-add ladder, or `None` where a step
/// of the ladder is not defined.
pub fn checked_scalar_mul(scalar: u16, point: Point) -> (p: Option<Point>)
    ensures
        p is Some <==> ladder_defined((scalar % 21) as nat, infinity_point(), point),
        p matches Some(q) ==> q == ladder((scalar % 21) as nat, infinity_point(), point),
{
    let mut rem = scalar % GROUP_ORDER;
    let mut acc = Point { x: 0, y: 0, infinity: true };
    let mut cur = point;
    let ghost total = ladder(rem as nat, acc, cur);
    let ghost defined = ladder_defined(rem as nat, acc, cur);
    while rem != 0
        invariant
            ladder(rem as nat, acc, cur) == total,
            ladder_defined(rem as nat, acc, cur) == defined,
            total == ladder((scalar % 21) as nat, infinity_point(), point),
            defined == ladder_defined((scalar % 21) as nat, infinity_point(), point),
        decreases rem,
    {
        assert(rem & 1 == rem % 2) by (bit_vector);
        assert(rem >> 1 == rem / 2) by (bit_vector);
        let ghost k = rem as nat;
        let ghost acc0 = acc;
        let ghost cur0 = cur;
        assert(ladder(k, acc0, cur0) == ladder(k / 2, if k % 2 == 1 { point_add(acc0, cur0) } else { acc0 }, point_add(cur0, cur0)));
        assert(ladder_defined(k, acc0, cur0) == ((k % 2 == 1 ==> add_defined(acc0, cur0)) && add_defined(cur0, cur0)
            && ladder_defined(k / 2, if k % 2 == 1 { point_add(acc0, cur0) } else { acc0 }, point_add(cur0, cur0))));
        if rem & 1 != 0 {
            if !add_is_defined(acc, cur) {
                assert(!ladder_defined(k, acc0, cur0));
                assert(!defined);
                return None;
            }
            acc = curve_add(acc, cur);
        }
        if !add_is_defined(cur, cur) {
            assert(!ladder_defined(k, acc0, cur0));
            assert(!defined);
            return None;
        }
        cur = curve_add(cur, cur);
        rem = rem >> 1;
    }
    proof {
        assert(ladder_defined(0, acc, cur));
    }
    Some(acc)
}

/// `aG + bQ`, or `None` where the reference arithmetic is not defined.
pub fn checked_oracle_point(a: u16, b: u16, q: Point) -> (p: Option<Point>)
    ensures
        p is Some <==> oracle_defined(a, b, q),
        p matches Some(r) ==> r == oracle_point_spec(a, b, q),
{
    let ag = match checked_scalar_mul(a % GROUP_ORDER, generator()) {
        Some(p) => p,
        None => {
            return None;
        },
    };
    let bq = match checked_scalar_mul(b % GROUP_ORDER, q) {
        Some(p) => p,
        None => {
            return None;
        },
    };
    if !add_is_defined(ag, bq) {
        return None;
    }
    Some(curve_add(ag, bq))
}

/// The public instance has the stated group order: the multiples `kG` for
/// `0 < k < 21` are finite points and `21 G` is the point at infinity.
pub open spec fn has_stated_order() -> bool {
    &&& forall|k: nat| 0 < k < 21 ==> !#[trigger] scalar_mul_spec(k, generator_spec()).infinity
    &&& scalar_mul_spec(21, generator_spec()).infinity
}

/// Whether the public instance has the stated group order, found by adding
/// `G` to itself twenty-one times.
pub fn assert_public_instance() -> (ok: bool)
    ensures
        ok == has_stated_order(),
{
    let g = generator();
    let mut acc = Point { x: 0, y: 0, infinity: true };
    let mut k: u16 = 0;
    proof {
        reveal_with_fuel(scalar_mul_spec, 2);
        assert(scalar_mul_spec(1, g) == g);
    }
    while k < 20
        invariant
            k <= 20,
            g == generator_spec(),
            scalar_mul_spec(1, g) == g,
            acc == scalar_mul_spec(k as nat, g),
            forall|j: nat| 0 < j <= k ==> !#[trigger] scalar_mul_spec(j, generator_spec()).infinity,
        decreases 20 - k,
    {
        proof {
            crate::group::lemma_multiples_add(k as nat, 1);
        }
        if !add_is_defined(acc, g) {
            return false;
        }
        acc = curve_add(acc, g);
        k = k + 1;
        if acc.infinity {
            return false;
        }
    }
    proof {
        crate::group::lemma_multiples_add(20, 1);
    }
    if !add_is_defined(acc, g) {
        return false;
    }
    acc = curve_add(acc, g);
    acc.infinity
}

} // verus!
