//! What the oracle computes on one shot: each recorded scalar
//! multiplication XORs its multiple into a held point, the sum is XORed into
//! the output, and replaying the recordings in reverse clears the held points
//! again, so that only the output changes.
use super::builder::effect;
use super::controlled_add::in_group;
use super::field_circuits::lemma_qubits_value_frame;
use super::point_arith::point_add_circuit;
use super::point_semantics::{lemma_xor_point_outside, lemma_xor_point_pointwise, reg_point, xor_point};
use super::point_store::{clear_point, holds, lemma_holds_other, lemma_holds_read, lemma_holds_reg, lemma_holds_xor};
use super::scalar_api::smul_done;
use super::semantics::{all_reversible, lemma_run_append, lemma_run_reverse, run, zero_on};
use super::signal::qubits_value;
use super::{lemma_point_covers, point_qubits, point_reg_ok, point_seq, PointRegister};
use crate::circuit::{Op, QubitId};
use crate::curve::{generator_spec, infinity_point, oracle_point_spec, point_add, scalar_mul_spec, Point};
use crate::group::{lemma_circuit_adds_multiples, lemma_oracle_on_multiples, lemma_repeated_multiple};
use super::builder::qubit_set;
use super::point_semantics::xor_point_bits;
use super::signal::{bit_at_spec, eval, nat_bit, value_of, Signal, SignalKind};
use super::PointValue;
use vstd::prelude::*;

verus! {

/// Two assignments that agree outside a register and hold the same point
/// in it are equal.
pub proof fn lemma_holds_same(t1: spec_fn(u64) -> bool, t2: spec_fn(u64) -> bool, r: PointRegister, p: Point)
    requires
        r.x@.len() == 5,
        r.y@.len() == 5,
        holds(t1, r, p),
        holds(t2, r, p),
        forall|q: u64| !point_qubits(r).contains(q) ==> t1(q) == t2(q),
    ensures
        t1 == t2,
{
    assert forall|q: u64| #[trigger] t1(q) == t2(q) by {
        if point_qubits(r).contains(q) {
            let sq = point_seq(r);
            let i = choose|i: int| 0 <= i < sq.len() && (#[trigger] sq[i]).0 == q;
            if i < 5 {
                assert(sq[i] == r.x@[i]);
            } else if i < 10 {
                assert(sq[i] == r.y@[i - 5]);
            } else {
                assert(sq[i] == r.inf);
            }
        }
    }
    assert(t1 =~= t2);
}

/// What a register reads depends only on its qubits.
pub proof fn lemma_reg_frame(t1: spec_fn(u64) -> bool, t2: spec_fn(u64) -> bool, r: PointRegister)
    requires
        forall|q: u64| point_qubits(r).contains(q) ==> t1(q) == t2(q),
    ensures
        reg_point(t1, r) == reg_point(t2, r),
{
    lemma_point_covers(r);
    lemma_qubits_value_frame(r.x@, 5, t1, t2);
    lemma_qubits_value_frame(r.y@, 5, t1, t2);
}

/// XORing a point into a clear register, from `t`, gives the assignment
/// that holds the point there and agrees with `t` elsewhere.
proof fn lemma_xor_into_clear(t: spec_fn(u64) -> bool, r: PointRegister, p: Point, f: spec_fn(u64) -> bool)
    requires
        point_reg_ok(r),
        holds(t, r, clear_point()),
        holds(f, r, p),
        forall|q: u64| !point_qubits(r).contains(q) ==> f(q) == t(q),
    ensures
        f == xor_point(t, r, p),
{
    lemma_holds_xor(t, r, clear_point(), p);
    assert forall|q: u64| !point_qubits(r).contains(q) implies f(q) == xor_point(t, r, p)(q) by {
        lemma_xor_point_outside(t, r, p.x as nat, p.y as nat, p.infinity, q);
    }
    lemma_holds_same(f, xor_point(t, r, p), r, p);
}

/// XORing points into two registers that do not meet, in either order.
proof fn lemma_xor_commute(t: spec_fn(u64) -> bool, r1: PointRegister, p1: Point, r2: PointRegister, p2: Point)
    requires
        point_reg_ok(r1),
        point_reg_ok(r2),
        point_qubits(r1).disjoint(point_qubits(r2)),
        holds(t, r1, clear_point()),
    ensures
        xor_point(xor_point(t, r2, p2), r1, p1) == xor_point(xor_point(t, r1, p1), r2, p2),
{
    let u = xor_point(t, r2, p2);
    let f = xor_point(xor_point(t, r1, p1), r2, p2);
    lemma_holds_other(t, r2, p2, r1, clear_point());
    lemma_holds_xor(t, r1, clear_point(), p1);
    lemma_holds_other(xor_point(t, r1, p1), r2, p2, r1, p1);
    assert forall|q: u64| !point_qubits(r1).contains(q) implies f(q) == u(q) by {
        lemma_xor_point_outside(t, r1, p1.x as nat, p1.y as nat, p1.infinity, q);
        lemma_xor_point_pointwise(xor_point(t, r1, p1), t, r2, p2.x as nat, p2.y as nat, p2.infinity, q);
    }
    lemma_xor_into_clear(u, r1, p1, f);
}

/// A recorded scalar multiplication: setting the held point `hold` to the
/// point at infinity and running the schedule into it, from an assignment
/// that keeps `pool` clear with `hold` clear and a group point in `base`,
/// XORs `k B` into `hold`, for `k` the scalar read in `scal` and `B` the
/// point in `base`.
pub proof fn lemma_phase(
    copy_ops: Seq<Op>,
    smul_ops: Seq<Op>,
    pool: Set<u64>,
    base: PointRegister,
    hold: PointRegister,
    scal: Seq<QubitId>,
    w: spec_fn(u64) -> bool,
)
    requires
        effect(copy_ops, pool, |t: spec_fn(u64) -> bool| xor_point(t, hold, infinity_point())),
        forall|t: spec_fn(u64) -> bool|
            zero_on(t, pool) && in_group(reg_point(t, base)) && in_group(reg_point(t, hold)) ==> #[trigger] smul_done(
                run(smul_ops, t),
                t,
                base,
                hold,
                scal,
            ),
        point_reg_ok(base),
        point_reg_ok(hold),
        point_qubits(base).disjoint(point_qubits(hold)),
        point_qubits(hold).disjoint(pool),
        qubit_set(scal).disjoint(point_qubits(hold)),
        zero_on(w, pool),
        holds(w, hold, clear_point()),
        in_group(reg_point(w, base)),
    ensures
        run(copy_ops + smul_ops, w) == xor_point(
            w,
            hold,
            scalar_mul_spec(qubits_value(scal, 5, w), reg_point(w, base)),
        ),
{
    let w1 = xor_point(w, hold, infinity_point());
    let v = scalar_mul_spec(qubits_value(scal, 5, w), reg_point(w, base));
    lemma_run_append(copy_ops, smul_ops, w);
    assert(run(copy_ops, w) == w1);
    assert forall|q: u64| !point_qubits(hold).contains(q) implies w1(q) == w(q) by {
        lemma_xor_point_outside(w, hold, 0, 0, true, q);
    }
    assert(zero_on(w1, pool));
    lemma_holds_xor(w, hold, clear_point(), infinity_point());
    lemma_holds_read(w1, hold, infinity_point());
    assert(infinity_point() == scalar_mul_spec(0, generator_spec()));
    assert(in_group(reg_point(w1, hold)));
    lemma_reg_frame(w1, w, base);
    assert forall|q: u64| qubit_set(scal).contains(q) implies w1(q) == w(q) by {}
    lemma_qubits_value_frame(scal, 5, w1, w);
    let f = run(smul_ops, w1);
    assert(smul_done(f, w1, base, hold, scal));
    assert(reg_point(f, hold) == v);
    lemma_holds_reg(f, hold);
    lemma_xor_into_clear(w, hold, v, f);
}

/// The oracle's registers: the generator's held point `g`, the held points
/// `ah` and `bh` of `aG` and `bQ`, the input point `q` and the output `r`,
/// well shaped and apart; the held points taken from `p0`, the input and
/// output outside it; the scalars apart from all five; and the pools after
/// holding `g` and after holding the other two.
pub open spec fn oracle_frame(
    p0: Set<u64>,
    p3: Set<u64>,
    p6: Set<u64>,
    g: PointRegister,
    ah: PointRegister,
    bh: PointRegister,
    q: PointRegister,
    r: PointRegister,
    a: Seq<QubitId>,
    b: Seq<QubitId>,
) -> bool {
    &&& point_reg_ok(g) && point_reg_ok(ah) && point_reg_ok(bh) && point_reg_ok(q) && point_reg_ok(r)
    &&& point_qubits(g).disjoint(point_qubits(ah)) && point_qubits(g).disjoint(point_qubits(bh))
    &&& point_qubits(ah).disjoint(point_qubits(bh))
    &&& point_qubits(q).disjoint(point_qubits(g)) && point_qubits(q).disjoint(point_qubits(ah))
    &&& point_qubits(q).disjoint(point_qubits(bh)) && point_qubits(q).disjoint(point_qubits(r))
    &&& point_qubits(r).disjoint(point_qubits(g)) && point_qubits(r).disjoint(point_qubits(ah))
    &&& point_qubits(r).disjoint(point_qubits(bh))
    &&& (point_qubits(g) + point_qubits(ah) + point_qubits(bh)).subset_of(p0)
    &&& point_qubits(q).disjoint(p0) && point_qubits(r).disjoint(p0)
    &&& a.len() == 5 && b.len() == 5
    &&& qubit_set(a).disjoint(p0 + point_qubits(g) + point_qubits(ah) + point_qubits(bh) + point_qubits(r))
    &&& qubit_set(b).disjoint(p0 + point_qubits(g) + point_qubits(ah) + point_qubits(bh) + point_qubits(r))
    &&& p3 == p0 - point_qubits(g)
    &&& p6 == p3 - point_qubits(ah) - point_qubits(bh)
}


/// The effects of the oracle's pieces, each on the assignments that keep
/// its pool clear: `og` and `og2` XOR the generator into `g`; `ac` then
/// `amul` set `ah` to infinity and add `aG` into it; `bc` then `bmul` add `bQ`
/// into `bh` likewise; `oadd` XORs the sum of `ah` and `bh` into `r`; and
/// the two recordings are reversible.
pub open spec fn oracle_pieces(
    og: Seq<Op>,
    ac: Seq<Op>,
    amul: Seq<Op>,
    bc: Seq<Op>,
    bmul: Seq<Op>,
    oadd: Seq<Op>,
    og2: Seq<Op>,
    p3: Set<u64>,
    p6: Set<u64>,
    g: PointRegister,
    ah: PointRegister,
    bh: PointRegister,
    q: PointRegister,
    r: PointRegister,
    a: Seq<QubitId>,
    b: Seq<QubitId>,
) -> bool {
    &&& effect(og, p3, |t: spec_fn(u64) -> bool| xor_point(t, g, generator_spec()))
    &&& effect(ac, p6, |t: spec_fn(u64) -> bool| xor_point(t, ah, infinity_point()))
    &&& forall|t: spec_fn(u64) -> bool|
        zero_on(t, p6) && in_group(reg_point(t, g)) && in_group(reg_point(t, ah)) ==> #[trigger] smul_done(
            run(amul, t),
            t,
            g,
            ah,
            a,
        )
    &&& effect(bc, p6, |t: spec_fn(u64) -> bool| xor_point(t, bh, infinity_point()))
    &&& forall|t: spec_fn(u64) -> bool|
        zero_on(t, p6) && in_group(reg_point(t, q)) && in_group(reg_point(t, bh)) ==> #[trigger] smul_done(
            run(bmul, t),
            t,
            q,
            bh,
            b,
        )
    &&& effect(
        oadd,
        p6,
        |t: spec_fn(u64) -> bool| xor_point(t, r, point_add_circuit(reg_point(t, ah), reg_point(t, bh))),
    )
    &&& effect(og2, p3, |t: spec_fn(u64) -> bool| xor_point(t, g, generator_spec()))
    &&& all_reversible(ac + amul)
    &&& all_reversible(bc + bmul)
}

/// `aG` for the scalar `a` read in `s`.
pub open spec fn a_multiple(s: spec_fn(u64) -> bool, a: Seq<QubitId>) -> Point {
    scalar_mul_spec(qubits_value(a, 5, s), generator_spec())
}

/// `bQ` for the scalar `b` and the point `Q` in `q` read in `s`.
pub open spec fn b_multiple(s: spec_fn(u64) -> bool, b: Seq<QubitId>, q: PointRegister) -> Point {
    scalar_mul_spec(qubits_value(b, 5, s), reg_point(s, q))
}

/// The group facts of one shot: `G`, `aG` and `bQ` are group points with
/// reduced coordinates.
proof fn lemma_oracle_values(s: spec_fn(u64) -> bool, a: Seq<QubitId>, b: Seq<QubitId>, q: PointRegister)
    requires
        in_group(reg_point(s, q)),
    ensures
        in_group(generator_spec()),
        reg_point(s, q) == scalar_mul_spec(choose|k: nat| reg_point(s, q) == #[trigger] scalar_mul_spec(k, generator_spec()), generator_spec()),
        in_group(a_multiple(s, a)),
        in_group(b_multiple(s, b, q)),
        a_multiple(s, a).x < 32 && a_multiple(s, a).y < 32,
        b_multiple(s, b, q).x < 32 && b_multiple(s, b, q).y < 32,
{
    let gen = generator_spec();
    let qk = choose|k: nat| reg_point(s, q) == #[trigger] scalar_mul_spec(k, gen);
    reveal_with_fuel(scalar_mul_spec, 2);
    assert(gen == scalar_mul_spec(1, gen));
    lemma_repeated_multiple(qubits_value(b, 5, s), qk);
    assert(in_group(a_multiple(s, a)));
    assert(in_group(b_multiple(s, b, q)));
    super::controlled_add::lemma_group_coordinates(a_multiple(s, a));
    super::controlled_add::lemma_group_coordinates(b_multiple(s, b, q));
}

/// XORing a constant point value into a register XORs the point.
pub proof fn lemma_copy_const(ops: Seq<Op>, pool: Set<u64>, v: PointValue, target: PointRegister, p: Point)
    requires
        effect(
            ops,
            pool,
            |s: spec_fn(u64) -> bool|
                xor_point_bits(s, target, value_of(v.x@, 5, s), value_of(v.y@, 5, s), eval(v.inf, s)),
        ),
        v.x@.len() == 5,
        v.y@.len() == 5,
        forall|i: int| 0 <= i < 5 ==> #[trigger] v.x@[i] == Signal(SignalKind::Const(nat_bit(p.x as nat, i as nat))),
        forall|i: int| 0 <= i < 5 ==> #[trigger] v.y@[i] == Signal(SignalKind::Const(nat_bit(p.y as nat, i as nat))),
        v.inf == Signal(SignalKind::Const(p.infinity)),
        p.x < 32,
        p.y < 32,
    ensures
        effect(ops, pool, |s: spec_fn(u64) -> bool| xor_point(s, target, p)),
{
    vstd::arithmetic::power2::lemma2_to64();
    assert forall|s: spec_fn(u64) -> bool| zero_on(s, pool) implies #[trigger] run(ops, s) == xor_point(s, target, p) by {
        assert forall|i: int| 0 <= i < 5 implies eval(#[trigger] bit_at_spec(v.x@, i), s) == nat_bit(p.x as nat, i as nat) by {
            assert(bit_at_spec(v.x@, i) == v.x@[i]);
        }
        assert forall|i: int| 0 <= i < 5 implies eval(#[trigger] bit_at_spec(v.y@, i), s) == nat_bit(p.y as nat, i as nat) by {
            assert(bit_at_spec(v.y@, i) == v.y@[i]);
        }
        super::point_semantics::lemma_value_of_bits(v.x@, s, p.x as nat, 5);
        super::point_semantics::lemma_value_of_bits(v.y@, s, p.y as nat, 5);
    }
}

/// The held points, taken from a pool that `s` keeps clear, hold the clear
/// point in `s`.
proof fn lemma_held_clear(s: spec_fn(u64) -> bool, p0: Set<u64>, g: PointRegister, ah: PointRegister, bh: PointRegister)
    requires
        point_reg_ok(g) && point_reg_ok(ah) && point_reg_ok(bh),
        (point_qubits(g) + point_qubits(ah) + point_qubits(bh)).subset_of(p0),
        zero_on(s, p0),
    ensures
        holds(s, g, clear_point()),
        holds(s, ah, clear_point()),
        holds(s, bh, clear_point()),
{
    let w = point_qubits(g) + point_qubits(ah) + point_qubits(bh);
    assert forall|x: u64| point_qubits(g).contains(x) implies !s(x) by {
        assert(w.contains(x));
    }
    assert forall|x: u64| point_qubits(ah).contains(x) implies !s(x) by {
        assert(w.contains(x));
    }
    assert forall|x: u64| point_qubits(bh).contains(x) implies !s(x) by {
        assert(w.contains(x));
    }
    super::point_store::lemma_clear_holds(s, g);
    super::point_store::lemma_clear_holds(s, ah);
    super::point_store::lemma_clear_holds(s, bh);
}

/// The first half of one shot: the generator into `g`, `aG` into `ah`,
/// `bQ` into `bh`, and their sum into `r`.
proof fn lemma_oracle_forward(
    s: spec_fn(u64) -> bool,
    og: Seq<Op>,
    ac: Seq<Op>,
    amul: Seq<Op>,
    bc: Seq<Op>,
    bmul: Seq<Op>,
    oadd: Seq<Op>,
    og2: Seq<Op>,
    p0: Set<u64>,
    p3: Set<u64>,
    p6: Set<u64>,
    g: PointRegister,
    ah: PointRegister,
    bh: PointRegister,
    q: PointRegister,
    r: PointRegister,
    a: Seq<QubitId>,
    b: Seq<QubitId>,
)
    requires
        oracle_frame(p0, p3, p6, g, ah, bh, q, r, a, b),
        oracle_pieces(og, ac, amul, bc, bmul, oadd, og2, p3, p6, g, ah, bh, q, r, a, b),
        zero_on(s, p0),
        in_group(reg_point(s, q)),
    ensures
        ({
            let t1 = xor_point(s, g, generator_spec());
            let t3 = xor_point(t1, ah, a_multiple(s, a));
            let t5 = xor_point(t3, bh, b_multiple(s, b, q));
            &&& run(og, s) == t1
            &&& run(ac + amul, t1) == t3
            &&& run(bc + bmul, t3) == t5
            &&& run(oadd, t5) == xor_point(t5, r, point_add_circuit(a_multiple(s, a), b_multiple(s, b, q)))
        }),
{
    let gen = generator_spec();
    let c = clear_point();
    let va = a_multiple(s, a);
    let vb = b_multiple(s, b, q);
    lemma_oracle_values(s, a, b, q);
    lemma_point_covers(g);
    lemma_point_covers(ah);
    lemma_point_covers(bh);
    lemma_point_covers(q);
    lemma_held_clear(s, p0, g, ah, bh);
    let t1 = xor_point(s, g, gen);
    assert forall|x: u64| !point_qubits(g).contains(x) implies #[trigger] t1(x) == s(x) by {
        lemma_xor_point_outside(s, g, 1, 15, false, x);
    }
    lemma_holds_xor(s, g, c, gen);
    lemma_holds_read(t1, g, gen);
    lemma_holds_other(s, g, gen, ah, c);
    lemma_holds_other(s, g, gen, bh, c);
    assert(zero_on(t1, p6));
    assert forall|x: u64| qubit_set(a).contains(x) implies t1(x) == s(x) by {}
    lemma_qubits_value_frame(a, 5, t1, s);
    lemma_phase(ac, amul, p6, g, ah, a, t1);
    let t3 = xor_point(t1, ah, va);
    assert forall|x: u64| !point_qubits(ah).contains(x) implies #[trigger] t3(x) == t1(x) by {
        lemma_xor_point_outside(t1, ah, va.x as nat, va.y as nat, va.infinity, x);
    }
    lemma_holds_xor(t1, ah, c, va);
    lemma_holds_other(t1, ah, va, bh, c);
    assert(zero_on(t3, p6));
    assert forall|x: u64| point_qubits(q).contains(x) implies t3(x) == s(x) by {}
    lemma_reg_frame(t3, s, q);
    assert forall|x: u64| qubit_set(b).contains(x) implies t3(x) == s(x) by {}
    lemma_qubits_value_frame(b, 5, t3, s);
    lemma_phase(bc, bmul, p6, q, bh, b, t3);
    let t5 = xor_point(t3, bh, vb);
    lemma_holds_xor(t3, bh, c, vb);
    lemma_holds_other(t3, bh, vb, ah, va);
    lemma_holds_read(t5, ah, va);
    lemma_holds_read(t5, bh, vb);
    assert forall|x: u64| p6.contains(x) implies !#[trigger] t5(x) by {
        lemma_xor_point_outside(t3, bh, vb.x as nat, vb.y as nat, vb.infinity, x);
    }
}

/// The second half of one shot: with the sum `v` in `r`, replaying the two
/// recordings in reverse clears `bh` and `ah`, and `og2` clears `g`.
proof fn lemma_oracle_backward(
    s: spec_fn(u64) -> bool,
    og: Seq<Op>,
    ac: Seq<Op>,
    amul: Seq<Op>,
    bc: Seq<Op>,
    bmul: Seq<Op>,
    oadd: Seq<Op>,
    og2: Seq<Op>,
    p0: Set<u64>,
    p3: Set<u64>,
    p6: Set<u64>,
    g: PointRegister,
    ah: PointRegister,
    bh: PointRegister,
    q: PointRegister,
    r: PointRegister,
    a: Seq<QubitId>,
    b: Seq<QubitId>,
    v: Point,
)
    requires
        oracle_frame(p0, p3, p6, g, ah, bh, q, r, a, b),
        oracle_pieces(og, ac, amul, bc, bmul, oadd, og2, p3, p6, g, ah, bh, q, r, a, b),
        zero_on(s, p0),
        in_group(reg_point(s, q)),
    ensures
        ({
            let t1 = xor_point(s, g, generator_spec());
            let t3 = xor_point(t1, ah, a_multiple(s, a));
            let t5 = xor_point(t3, bh, b_multiple(s, b, q));
            let w3 = xor_point(t3, r, v);
            let w1 = xor_point(t1, r, v);
            &&& run((bc + bmul).reverse(), xor_point(t5, r, v)) == w3
            &&& run((ac + amul).reverse(), w3) == w1
            &&& run(og2, w1) == xor_point(s, r, v)
        }),
{
    let gen = generator_spec();
    let c = clear_point();
    let va = a_multiple(s, a);
    let vb = b_multiple(s, b, q);
    lemma_oracle_values(s, a, b, q);
    lemma_point_covers(g);
    lemma_point_covers(ah);
    lemma_point_covers(bh);
    lemma_point_covers(q);
    lemma_point_covers(r);
    lemma_held_clear(s, p0, g, ah, bh);
    let t1 = xor_point(s, g, gen);
    assert forall|x: u64| !point_qubits(g).contains(x) implies #[trigger] t1(x) == s(x) by {
        lemma_xor_point_outside(s, g, 1, 15, false, x);
    }
    lemma_holds_xor(s, g, c, gen);
    lemma_holds_other(s, g, gen, ah, c);
    lemma_holds_other(s, g, gen, bh, c);
    let t3 = xor_point(t1, ah, va);
    assert forall|x: u64| !point_qubits(ah).contains(x) implies #[trigger] t3(x) == t1(x) by {
        lemma_xor_point_outside(t1, ah, va.x as nat, va.y as nat, va.infinity, x);
    }
    lemma_holds_other(t1, ah, va, bh, c);
    // The second recording: `bQ` into `bh` from `w3` gives the state with the
    // sum in `r`.
    let w3 = xor_point(t3, r, v);
    assert forall|x: u64| !point_qubits(r).contains(x) implies #[trigger] w3(x) == t3(x) by {
        lemma_xor_point_outside(t3, r, v.x as nat, v.y as nat, v.infinity, x);
    }
    assert(zero_on(w3, p6));
    lemma_holds_other(t3, r, v, bh, c);
    assert forall|x: u64| point_qubits(q).contains(x) implies w3(x) == s(x) by {}
    lemma_reg_frame(w3, s, q);
    assert forall|x: u64| qubit_set(b).contains(x) implies w3(x) == s(x) by {}
    lemma_qubits_value_frame(b, 5, w3, s);
    lemma_phase(bc, bmul, p6, q, bh, b, w3);
    lemma_xor_commute(t3, bh, vb, r, v);
    lemma_run_reverse(bc + bmul, w3);
    // The first recording: `aG` into `ah` from `w1` gives `w3`.
    let w1 = xor_point(t1, r, v);
    assert forall|x: u64| !point_qubits(r).contains(x) implies #[trigger] w1(x) == t1(x) by {
        lemma_xor_point_outside(t1, r, v.x as nat, v.y as nat, v.infinity, x);
    }
    assert(zero_on(w1, p6));
    lemma_holds_other(t1, r, v, ah, c);
    lemma_holds_other(t1, r, v, g, gen);
    lemma_holds_read(w1, g, gen);
    assert forall|x: u64| qubit_set(a).contains(x) implies w1(x) == s(x) by {}
    lemma_qubits_value_frame(a, 5, w1, s);
    lemma_phase(ac, amul, p6, g, ah, a, w1);
    lemma_xor_commute(t1, ah, va, r, v);
    lemma_run_reverse(ac + amul, w1);
    // The generator out of `g`.
    assert(zero_on(w1, p3));
    let f = xor_point(w1, g, gen);
    let e = xor_point(s, r, v);
    lemma_holds_xor(w1, g, gen, gen);
    lemma_holds_other(s, r, v, g, c);
    assert forall|x: u64| !point_qubits(g).contains(x) implies f(x) == e(x) by {
        lemma_xor_point_outside(w1, g, 1, 15, false, x);
        lemma_xor_point_pointwise(t1, s, r, v.x as nat, v.y as nat, v.infinity, x);
    }
    lemma_holds_same(f, e, g, c);
}

/// The oracle on one shot: from an assignment that keeps `p0` clear with a
/// group point `Q` in `q`, the pieces run one after another XOR the
/// reference `aG + bQ` into `r` and change nothing else.
pub proof fn lemma_oracle_run(
    s: spec_fn(u64) -> bool,
    og: Seq<Op>,
    ac: Seq<Op>,
    amul: Seq<Op>,
    bc: Seq<Op>,
    bmul: Seq<Op>,
    oadd: Seq<Op>,
    og2: Seq<Op>,
    p0: Set<u64>,
    p3: Set<u64>,
    p6: Set<u64>,
    g: PointRegister,
    ah: PointRegister,
    bh: PointRegister,
    q: PointRegister,
    r: PointRegister,
    a: Seq<QubitId>,
    b: Seq<QubitId>,
)
    requires
        oracle_frame(p0, p3, p6, g, ah, bh, q, r, a, b),
        oracle_pieces(og, ac, amul, bc, bmul, oadd, og2, p3, p6, g, ah, bh, q, r, a, b),
        zero_on(s, p0),
        in_group(reg_point(s, q)),
    ensures
        run(og + (ac + amul) + (bc + bmul) + oadd + (bc + bmul).reverse() + (ac + amul).reverse() + og2, s)
            == xor_point(
            s,
            r,
            oracle_point_spec(qubits_value(a, 5, s) as u16, qubits_value(b, 5, s) as u16, reg_point(s, q)),
        ),
{
    let at = ac + amul;
    let bt = bc + bmul;
    let v = point_add_circuit(a_multiple(s, a), b_multiple(s, b, q));
    lemma_oracle_forward(s, og, ac, amul, bc, bmul, oadd, og2, p0, p3, p6, g, ah, bh, q, r, a, b);
    lemma_oracle_backward(s, og, ac, amul, bc, bmul, oadd, og2, p0, p3, p6, g, ah, bh, q, r, a, b, v);
    lemma_run_append(og, at, s);
    lemma_run_append(og + at, bt, s);
    lemma_run_append(og + at + bt, oadd, s);
    lemma_run_append(og + at + bt + oadd, bt.reverse(), s);
    lemma_run_append(og + at + bt + oadd + bt.reverse(), at.reverse(), s);
    lemma_run_append(og + at + bt + oadd + bt.reverse() + at.reverse(), og2, s);
    let gen = generator_spec();
    let av = qubits_value(a, 5, s);
    let bv = qubits_value(b, 5, s);
    let qk = choose|k: nat| reg_point(s, q) == #[trigger] scalar_mul_spec(k, gen);
    lemma_oracle_values(s, a, b, q);
    lemma_repeated_multiple(bv, qk);
    super::field_circuits::lemma_qubits_value_bound(a, 5, s);
    super::field_circuits::lemma_qubits_value_bound(b, 5, s);
    vstd::arithmetic::power2::lemma2_to64();
    lemma_circuit_adds_multiples(av, bv * qk);
    lemma_oracle_on_multiples(av as u16, bv as u16, qk);
}

} // verus!
