//! What the controlled addition circuit does on one shot, for points of the
//! group generated by G: where the selector is set the accumulator becomes
//! the sum, elsewhere it keeps its point, and every scratch register ends
//! clear.
use super::builder::effect;
use super::point_arith::{point_add_circuit, point_neg_circuit};
use super::point_semantics::{
    lemma_value_of_bits, reg_point, swap_pairs, xor_point, xor_point_bits,
};
use super::point_store::{
    clear_point, holds, lemma_clear_holds, lemma_holds_clear, lemma_holds_frame, lemma_holds_other,
    lemma_holds_read, lemma_holds_reg, lemma_holds_swap, lemma_holds_xor,
};
use super::semantics::{agree_outside, lemma_run_append, run, zero_on};
use super::signal::{bit_at_spec, eval, nat_bit, value_of};
use super::{point_qubits, point_reg_ok, point_seq, PointRegister, PointValue};
use crate::circuit::Op;
use crate::curve::{generator_spec, point_add, scalar_mul_spec, Point};
use crate::group::{
    lemma_circuit_adds_multiples, lemma_circuit_negates_multiples, lemma_generator_order,
    lemma_multiple_coordinates, lemma_multiples_add,
};
use vstd::prelude::*;

verus! {

/// Whether `p` is a multiple of the generator.
pub open spec fn in_group(p: Point) -> bool {
    exists|k: nat| p == #[trigger] scalar_mul_spec(k, generator_spec())
}

/// The registers of a controlled addition, the accumulator, the addend and
/// four scratch registers, are well shaped, pairwise apart, and apart from
/// the selector.
pub open spec fn cadd_regs_ok(regs: Seq<PointRegister>, sel: u64) -> bool {
    &&& regs.len() == 6
    &&& forall|i: int| 0 <= i < 6 ==> point_reg_ok(#[trigger] regs[i]) && !point_qubits(regs[i]).contains(sel)
    &&& forall|i: int, j: int|
        0 <= i < 6 && 0 <= j < 6 && i != j ==> point_qubits(#[trigger] regs[i]).disjoint(point_qubits(#[trigger] regs[j]))
}

/// A point value that reads, bit by bit, register `when_set` where the
/// selector is set and register `otherwise` elsewhere.
pub open spec fn selects_register(v: PointValue, sel: u64, when_set: PointRegister, otherwise: PointRegister) -> bool {
    &&& v.x@.len() == 5
    &&& v.y@.len() == 5
    &&& forall|i: int, t: spec_fn(u64) -> bool|
        0 <= i < 5 ==> #[trigger] eval(v.x@[i], t) == if t(sel) {
            t(when_set.x@[i].0)
        } else {
            t(otherwise.x@[i].0)
        }
    &&& forall|i: int, t: spec_fn(u64) -> bool|
        0 <= i < 5 ==> #[trigger] eval(v.y@[i], t) == if t(sel) {
            t(when_set.y@[i].0)
        } else {
            t(otherwise.y@[i].0)
        }
    &&& forall|t: spec_fn(u64) -> bool| #[trigger] eval(v.inf, t) == if t(sel) {
        t(when_set.inf.0)
    } else {
        t(otherwise.inf.0)
    }
}

/// What the selected point reads as, where both registers hold points with
/// five-bit coordinates.
pub proof fn lemma_selected_register(
    v: PointValue,
    sel: u64,
    when_set: PointRegister,
    otherwise: PointRegister,
    t: spec_fn(u64) -> bool,
    p: Point,
    q: Point,
)
    requires
        selects_register(v, sel, when_set, otherwise),
        when_set.x@.len() == 5,
        when_set.y@.len() == 5,
        otherwise.x@.len() == 5,
        otherwise.y@.len() == 5,
        holds(t, when_set, p),
        holds(t, otherwise, q),
        p.x < 32,
        p.y < 32,
        q.x < 32,
        q.y < 32,
    ensures
        ({
            let r = if t(sel) { p } else { q };
            &&& value_of(v.x@, 5, t) == r.x as nat
            &&& value_of(v.y@, 5, t) == r.y as nat
            &&& eval(v.inf, t) == r.infinity
        }),
{
    let r = if t(sel) { p } else { q };
    assert forall|i: int| 0 <= i < 5 implies eval(#[trigger] bit_at_spec(v.x@, i), t) == nat_bit(r.x as nat, i as nat) by {
        assert(eval(v.x@[i], t) == if t(sel) { t(when_set.x@[i].0) } else { t(otherwise.x@[i].0) });
    }
    assert forall|i: int| 0 <= i < 5 implies eval(#[trigger] bit_at_spec(v.y@, i), t) == nat_bit(r.y as nat, i as nat) by {
        assert(eval(v.y@[i], t) == if t(sel) { t(when_set.y@[i].0) } else { t(otherwise.y@[i].0) });
    }
    lemma_value_of_bits(v.x@, t, r.x as nat, 5);
    lemma_value_of_bits(v.y@, t, r.y as nat, 5);
    vstd::arithmetic::power2::lemma2_to64();
    assert(eval(v.inf, t) == if t(sel) { t(when_set.inf.0) } else { t(otherwise.inf.0) });
    assert(r.x as nat % 32 == r.x as nat);
    assert(r.y as nat % 32 == r.y as nat);
}

/// The points a controlled addition of `c G` to `a G` works with: the sum,
/// the accumulator's new point, the addend's negation, and the new point
/// plus that negation, which is `a G` again wherever the selector is set.
pub proof fn lemma_cadd_points(a: nat, c: nat, set: bool)
    ensures
        ({
            let ap = scalar_mul_spec(a, generator_spec());
            let cp = scalar_mul_spec(c, generator_spec());
            let u = point_add_circuit(ap, cp);
            let w = if set { u } else { ap };
            let nd = point_neg_circuit(cp);
            let v = point_add_circuit(w, nd);
            &&& u == point_add(ap, cp)
            &&& in_group(u) && in_group(w) && in_group(nd) && in_group(v)
            &&& set ==> v == ap
        }),
{
    let g = generator_spec();
    let ap = scalar_mul_spec(a, g);
    let cp = scalar_mul_spec(c, g);
    lemma_circuit_adds_multiples(a, c);
    lemma_multiples_add(a, c);
    lemma_circuit_negates_multiples(c);
    let n = (21 - c % 21) as nat;
    assert(in_group(scalar_mul_spec(a + c, g)));
    assert(in_group(ap));
    assert(in_group(scalar_mul_spec(n, g)));
    lemma_circuit_adds_multiples(a + c, n);
    lemma_circuit_adds_multiples(a, n);
    assert(in_group(scalar_mul_spec(a + c + n, g)));
    assert(in_group(scalar_mul_spec(a + n, g)));
    lemma_generator_order(a + c + n);
    lemma_generator_order(a);
    assert((a + c + n) % 21 == a % 21) by {
        assert(a + c + n == a + 21 * (c / 21) + 21);
        vstd::arithmetic::div_mod::lemma_mod_multiples_vanish((c / 21 + 1) as int, a as int, 21);
    }
}

/// Points of the group have reduced coordinates, and a finite one has a
/// nonzero `y`.
pub proof fn lemma_group_coordinates(p: Point)
    requires
        in_group(p),
    ensures
        p.x < 31,
        p.y < 31,
        !p.infinity ==> p.y > 0,
{
    let k = choose|k: nat| p == #[trigger] scalar_mul_spec(k, generator_spec());
    lemma_multiple_coordinates(k);
}

/// The state of a controlled addition from `s`: the registers hold the
/// given points, the addend its own, and only the accumulator and the
/// scratch registers may differ from `s`.
pub open spec fn cadd_state(
    t: spec_fn(u64) -> bool,
    s: spec_fn(u64) -> bool,
    regs: Seq<PointRegister>,
    ha: Point,
    ht: Point,
    hs: Point,
    hn: Point,
    hp: Point,
) -> bool {
    &&& holds(t, regs[0], ha)
    &&& holds(t, regs[1], reg_point(s, regs[1]))
    &&& holds(t, regs[2], ht)
    &&& holds(t, regs[3], hs)
    &&& holds(t, regs[4], hn)
    &&& holds(t, regs[5], hp)
    &&& agree_outside(
        t,
        s,
        point_qubits(regs[0]) + point_qubits(regs[2]) + point_qubits(regs[3]) + point_qubits(regs[4])
            + point_qubits(regs[5]),
    )
}

/// XORing `p` into register `k` of a controlled addition's state, which
/// holds `h` there, either fills it (when `h` is clear) or clears it (when
/// `h` is `p`); the other registers keep their points.
pub proof fn lemma_cadd_xor(
    t: spec_fn(u64) -> bool,
    s: spec_fn(u64) -> bool,
    regs: Seq<PointRegister>,
    sel: u64,
    hs: Seq<Point>,
    k: int,
    p: Point,
)
    requires
        cadd_regs_ok(regs, sel),
        hs.len() == 6,
        hs[1] == reg_point(s, regs[1]),
        k == 0 || 2 <= k < 6,
        hs[k] == clear_point() || hs[k] == p,
        cadd_state(t, s, regs, hs[0], hs[2], hs[3], hs[4], hs[5]),
    ensures
        ({
            let e = if hs[k] == clear_point() { p } else { clear_point() };
            let n = hs.update(k, e);
            &&& cadd_state(xor_point(t, regs[k], p), s, regs, n[0], n[2], n[3], n[4], n[5])
            &&& forall|q: u64| !point_qubits(regs[k]).contains(q) ==> #[trigger] xor_point(t, regs[k], p)(q) == t(q)
        }),
{
    let u = xor_point(t, regs[k], p);
    let e = if hs[k] == clear_point() { p } else { clear_point() };
    lemma_holds_xor(t, regs[k], hs[k], p);
    assert forall|j: int| 0 <= j < 6 && j != k implies holds(u, #[trigger] regs[j], hs[j]) by {
        assert(point_qubits(regs[k]).disjoint(point_qubits(regs[j])));
        lemma_holds_other(t, regs[k], p, regs[j], hs[j]);
    }
    assert forall|q: u64| !point_qubits(regs[k]).contains(q) implies #[trigger] u(q) == t(q) by {
        super::point_semantics::lemma_xor_point_outside(t, regs[k], p.x as nat, p.y as nat, p.infinity, q);
    }
    let z = point_qubits(regs[0]) + point_qubits(regs[2]) + point_qubits(regs[3]) + point_qubits(regs[4])
        + point_qubits(regs[5]);
    assert forall|q: u64| !z.contains(q) implies u(q) == s(q) by {
        assert(!point_qubits(regs[k]).contains(q));
    }
    assert(holds(u, regs[0], hs.update(k, e)[0]));
    assert(holds(u, regs[1], hs.update(k, e)[1]));
    assert(holds(u, regs[2], hs.update(k, e)[2]));
    assert(holds(u, regs[3], hs.update(k, e)[3]));
    assert(holds(u, regs[4], hs.update(k, e)[4]));
    assert(holds(u, regs[5], hs.update(k, e)[5]));
}

/// The registers of a controlled addition in order: accumulator, addend,
/// and the scratch registers tmp, sum, neg and prev.
pub open spec fn cadd_regs(
    acc: PointRegister,
    addend: PointRegister,
    tmp: PointRegister,
    sum: PointRegister,
    neg: PointRegister,
    prev: PointRegister,
) -> Seq<PointRegister> {
    seq![acc, addend, tmp, sum, neg, prev]
}

/// A controlled addition's state keeps the part of a pool outside the
/// accumulator and the scratch registers holding points clear, when it
/// started clear there.
pub proof fn lemma_cadd_zero(
    t: spec_fn(u64) -> bool,
    s: spec_fn(u64) -> bool,
    regs: Seq<PointRegister>,
    sel: u64,
    hs: Seq<Point>,
    p: Set<u64>,
)
    requires
        cadd_regs_ok(regs, sel),
        hs.len() == 6,
        cadd_state(t, s, regs, hs[0], hs[2], hs[3], hs[4], hs[5]),
        zero_on(s, p),
        p.disjoint(point_qubits(regs[0])),
        forall|k: int| 2 <= k < 6 ==> hs[k] == clear_point() || p.disjoint(point_qubits(#[trigger] regs[k])),
    ensures
        zero_on(t, p),
{
    assert forall|q: u64| p.contains(q) implies !t(q) by {
        if point_qubits(regs[2]).contains(q) {
            lemma_holds_clear(t, regs[2], q);
        } else if point_qubits(regs[3]).contains(q) {
            lemma_holds_clear(t, regs[3], q);
        } else if point_qubits(regs[4]).contains(q) {
            lemma_holds_clear(t, regs[4], q);
        } else if point_qubits(regs[5]).contains(q) {
            lemma_holds_clear(t, regs[5], q);
        } else {
            assert(!(point_qubits(regs[0]) + point_qubits(regs[2]) + point_qubits(regs[3]) + point_qubits(regs[4])
                + point_qubits(regs[5])).contains(q));
            assert(t(q) == s(q));
        }
    }
}

/// The registers of a controlled addition at the start: the accumulator
/// and the addend hold their points, the scratch registers are clear.
proof fn lemma_cadd_start(
    p0: Set<u64>,
    acc: PointRegister,
    addend: PointRegister,
    tmp: PointRegister,
    sum: PointRegister,
    neg: PointRegister,
    prev: PointRegister,
    sel: u64,
    s: spec_fn(u64) -> bool,
)
    requires
        cadd_regs_ok(cadd_regs(acc, addend, tmp, sum, neg, prev), sel),
        (point_qubits(tmp) + point_qubits(sum) + point_qubits(neg) + point_qubits(prev)).subset_of(p0),
        zero_on(s, p0),
    ensures
        ({
            let c = clear_point();
            cadd_state(s, s, cadd_regs(acc, addend, tmp, sum, neg, prev), reg_point(s, acc), c, c, c, c)
        }),
{
    let regs = cadd_regs(acc, addend, tmp, sum, neg, prev);
    let scratch = point_qubits(tmp) + point_qubits(sum) + point_qubits(neg) + point_qubits(prev);
    assert(point_reg_ok(regs[0]) && point_reg_ok(regs[1]) && point_reg_ok(regs[2]) && point_reg_ok(regs[3])
        && point_reg_ok(regs[4]) && point_reg_ok(regs[5]));
    assert forall|q: u64| point_qubits(tmp).contains(q) implies !s(q) by {
        assert(scratch.contains(q));
    }
    assert forall|q: u64| point_qubits(sum).contains(q) implies !s(q) by {
        assert(scratch.contains(q));
    }
    assert forall|q: u64| point_qubits(neg).contains(q) implies !s(q) by {
        assert(scratch.contains(q));
    }
    assert forall|q: u64| point_qubits(prev).contains(q) implies !s(q) by {
        assert(scratch.contains(q));
    }
    lemma_holds_reg(s, acc);
    lemma_holds_reg(s, addend);
    lemma_clear_holds(s, tmp);
    lemma_clear_holds(s, sum);
    lemma_clear_holds(s, neg);
    lemma_clear_holds(s, prev);
}

/// XORing `p` into scratch register `k` of a state that keeps the pool
/// clear: the register fills or clears, the pool stays clear, and the
/// selector keeps its value.
proof fn lemma_cadd_step(
    t: spec_fn(u64) -> bool,
    s: spec_fn(u64) -> bool,
    regs: Seq<PointRegister>,
    sel: u64,
    hs: Seq<Point>,
    k: int,
    p: Point,
    pool: Set<u64>,
)
    requires
        cadd_regs_ok(regs, sel),
        hs.len() == 6,
        hs[1] == reg_point(s, regs[1]),
        2 <= k < 6,
        hs[k] == clear_point() || hs[k] == p,
        cadd_state(t, s, regs, hs[0], hs[2], hs[3], hs[4], hs[5]),
        zero_on(s, pool),
        pool.disjoint(point_qubits(regs[0])),
        forall|j: int| 2 <= j < 6 ==> hs.update(k, if hs[k] == clear_point() { p } else { clear_point() })[j]
            == clear_point() || pool.disjoint(point_qubits(#[trigger] regs[j])),
    ensures
        ({
            let n = hs.update(k, if hs[k] == clear_point() { p } else { clear_point() });
            let u = xor_point(t, regs[k], p);
            &&& cadd_state(u, s, regs, n[0], n[2], n[3], n[4], n[5])
            &&& zero_on(u, pool)
            &&& u(sel) == t(sel)
        }),
{
    let n = hs.update(k, if hs[k] == clear_point() { p } else { clear_point() });
    lemma_cadd_xor(t, s, regs, sel, hs, k, p);
    assert(n[1] == hs[1]);
    lemma_cadd_zero(xor_point(t, regs[k], p), s, regs, sel, n, pool);
}

/// The first half of a controlled addition: the sum is computed into
/// `sum`, the accumulator's new point copied into `tmp`, the sum uncomputed,
/// and `tmp` exchanged with the accumulator.
#[verifier::rlimit(100)]
pub proof fn lemma_cadd_first(
    o1: Seq<Op>,
    o2: Seq<Op>,
    o3: Seq<Op>,
    o4: Seq<Op>,
    p0: Set<u64>,
    p2: Set<u64>,
    acc: PointRegister,
    addend: PointRegister,
    tmp: PointRegister,
    sum: PointRegister,
    neg: PointRegister,
    prev: PointRegister,
    sel: u64,
    next: PointValue,
    s: spec_fn(u64) -> bool,
)
    requires
        cadd_regs_ok(cadd_regs(acc, addend, tmp, sum, neg, prev), sel),
        p2.subset_of(p0),
        p2.disjoint(point_qubits(acc) + point_qubits(tmp) + point_qubits(sum)),
        (point_qubits(tmp) + point_qubits(sum) + point_qubits(neg) + point_qubits(prev)).subset_of(p0),
        zero_on(s, p0),
        in_group(reg_point(s, acc)),
        in_group(reg_point(s, addend)),
        effect(
            o1,
            p2,
            |t: spec_fn(u64) -> bool|
                xor_point(t, sum, point_add_circuit(reg_point(t, acc), reg_point(t, addend))),
        ),
        effect(
            o2,
            p2,
            |t: spec_fn(u64) -> bool|
                xor_point_bits(t, tmp, value_of(next.x@, 5, t), value_of(next.y@, 5, t), eval(next.inf, t)),
        ),
        effect(
            o3,
            p2,
            |t: spec_fn(u64) -> bool|
                xor_point(t, sum, point_add_circuit(reg_point(t, acc), reg_point(t, addend))),
        ),
        forall|t: spec_fn(u64) -> bool| #[trigger] run(o4, t) == swap_pairs(t, point_seq(acc), point_seq(tmp), 11),
        selects_register(next, sel, sum, acc),
    ensures
        ({
            let a = reg_point(s, acc);
            let d = reg_point(s, addend);
            let w = if s(sel) { point_add_circuit(a, d) } else { a };
            let c = clear_point();
            &&& cadd_state(run(o1 + o2 + o3 + o4, s), s, cadd_regs(acc, addend, tmp, sum, neg, prev), w, a, c, c, c)
            &&& run(o1 + o2 + o3 + o4, s)(sel) == s(sel)
        }),
{
    let regs = cadd_regs(acc, addend, tmp, sum, neg, prev);
    let a = reg_point(s, acc);
    let d = reg_point(s, addend);
    let c = clear_point();
    let ka = choose|k: nat| a == #[trigger] scalar_mul_spec(k, generator_spec());
    let kd = choose|k: nat| d == #[trigger] scalar_mul_spec(k, generator_spec());
    lemma_cadd_points(ka, kd, s(sel));
    let u = point_add_circuit(a, d);
    let w = if s(sel) { u } else { a };
    lemma_group_coordinates(a);
    lemma_group_coordinates(d);
    lemma_group_coordinates(u);
    assert(regs[0] == acc && regs[1] == addend && regs[2] == tmp && regs[3] == sum && regs[4] == neg && regs[5] == prev);
    lemma_cadd_start(p0, acc, addend, tmp, sum, neg, prev, sel, s);
    let h0 = seq![a, d, c, c, c, c];
    assert(zero_on(s, p2));
    let t1 = run(o1, s);
    assert(t1 == xor_point(s, sum, u));
    lemma_cadd_step(s, s, regs, sel, h0, 3, u, p2);
    let h1 = h0.update(3, u);
    let t2 = run(o2, t1);
    lemma_selected_register(next, sel, sum, acc, t1, u, a);
    assert(t2 == xor_point(t1, tmp, w));
    lemma_cadd_step(t1, s, regs, sel, h1, 2, w, p2);
    let h2 = h1.update(2, w);
    let t3 = run(o3, t2);
    lemma_holds_read(t2, acc, a);
    lemma_holds_read(t2, addend, d);
    assert(t3 == xor_point(t2, sum, u));
    lemma_cadd_step(t2, s, regs, sel, h2, 3, u, p2);
    lemma_cadd_swap(t3, s, acc, addend, tmp, sum, neg, prev, sel, a, w, d);
    lemma_run_append(o1, o2, s);
    lemma_run_append(o1 + o2, o3, s);
    lemma_run_append(o1 + o2 + o3, o4, s);
}

/// Exchanging `tmp` with the accumulator exchanges their points.
proof fn lemma_cadd_swap(
    t: spec_fn(u64) -> bool,
    s: spec_fn(u64) -> bool,
    acc: PointRegister,
    addend: PointRegister,
    tmp: PointRegister,
    sum: PointRegister,
    neg: PointRegister,
    prev: PointRegister,
    sel: u64,
    a: Point,
    w: Point,
    d: Point,
)
    requires
        cadd_regs_ok(cadd_regs(acc, addend, tmp, sum, neg, prev), sel),
        d == reg_point(s, addend),
        cadd_state(t, s, cadd_regs(acc, addend, tmp, sum, neg, prev), a, w, clear_point(), clear_point(), clear_point()),
    ensures
        ({
            let u = swap_pairs(t, point_seq(acc), point_seq(tmp), 11);
            let c = clear_point();
            &&& cadd_state(u, s, cadd_regs(acc, addend, tmp, sum, neg, prev), w, a, c, c, c)
            &&& u(sel) == t(sel)
        }),
{
    let regs = cadd_regs(acc, addend, tmp, sum, neg, prev);
    let c = clear_point();
    let u = swap_pairs(t, point_seq(acc), point_seq(tmp), 11);
    assert(regs[0] == acc && regs[1] == addend && regs[2] == tmp && regs[3] == sum && regs[4] == neg && regs[5] == prev);
    assert(point_reg_ok(acc) && point_reg_ok(tmp) && point_reg_ok(addend) && point_reg_ok(sum) && point_reg_ok(neg)
        && point_reg_ok(prev));
    assert(point_qubits(acc).disjoint(point_qubits(tmp)));
    lemma_holds_swap(t, acc, tmp, a, w);
    let at = point_qubits(acc) + point_qubits(tmp);
    assert(point_qubits(sum).disjoint(at));
    assert(point_qubits(neg).disjoint(at));
    assert(point_qubits(prev).disjoint(at));
    assert(point_qubits(addend).disjoint(at));
    assert forall|q: u64| point_qubits(sum).contains(q) implies t(q) == u(q) by {}
    assert forall|q: u64| point_qubits(neg).contains(q) implies t(q) == u(q) by {}
    assert forall|q: u64| point_qubits(prev).contains(q) implies t(q) == u(q) by {}
    assert forall|q: u64| point_qubits(addend).contains(q) implies t(q) == u(q) by {}
    lemma_holds_frame(t, u, sum, c);
    lemma_holds_frame(t, u, neg, c);
    lemma_holds_frame(t, u, prev, c);
    lemma_holds_frame(t, u, addend, d);
    assert(!at.contains(sel));
}

/// The second half of a controlled addition: the addend's negation into
/// `neg`, the new point plus it into `prev`, which is the old point where
/// the selector is set, `tmp` cleared with it, and `prev` and `neg`
/// uncomputed.
#[verifier::rlimit(100)]
pub proof fn lemma_cadd_second(
    o5: Seq<Op>,
    o6: Seq<Op>,
    o7: Seq<Op>,
    o8: Seq<Op>,
    o9: Seq<Op>,
    p0: Set<u64>,
    p7: Set<u64>,
    p9: Set<u64>,
    acc: PointRegister,
    addend: PointRegister,
    tmp: PointRegister,
    sum: PointRegister,
    neg: PointRegister,
    prev: PointRegister,
    sel: u64,
    previous: PointValue,
    s: spec_fn(u64) -> bool,
    t4: spec_fn(u64) -> bool,
)
    requires
        cadd_regs_ok(cadd_regs(acc, addend, tmp, sum, neg, prev), sel),
        p7.subset_of(p0),
        p9.subset_of(p7),
        p7.disjoint(point_qubits(acc) + point_qubits(tmp) + point_qubits(sum) + point_qubits(neg)),
        p9.disjoint(point_qubits(prev)),
        zero_on(s, p0),
        in_group(reg_point(s, acc)),
        in_group(reg_point(s, addend)),
        ({
            let a = reg_point(s, acc);
            let w = if s(sel) { point_add_circuit(a, reg_point(s, addend)) } else { a };
            let c = clear_point();
            cadd_state(t4, s, cadd_regs(acc, addend, tmp, sum, neg, prev), w, a, c, c, c)
        }),
        t4(sel) == s(sel),
        effect(o5, p7, |t: spec_fn(u64) -> bool| xor_point(t, neg, point_neg_circuit(reg_point(t, addend)))),
        effect(
            o6,
            p9,
            |t: spec_fn(u64) -> bool| xor_point(t, prev, point_add_circuit(reg_point(t, acc), reg_point(t, neg))),
        ),
        effect(
            o7,
            p9,
            |t: spec_fn(u64) -> bool|
                xor_point_bits(
                    t,
                    tmp,
                    value_of(previous.x@, 5, t),
                    value_of(previous.y@, 5, t),
                    eval(previous.inf, t),
                ),
        ),
        effect(
            o8,
            p9,
            |t: spec_fn(u64) -> bool| xor_point(t, prev, point_add_circuit(reg_point(t, acc), reg_point(t, neg))),
        ),
        effect(o9, p9, |t: spec_fn(u64) -> bool| xor_point(t, neg, point_neg_circuit(reg_point(t, addend)))),
        selects_register(previous, sel, prev, acc),
    ensures
        ({
            let a = reg_point(s, acc);
            let w = if s(sel) { point_add_circuit(a, reg_point(s, addend)) } else { a };
            let c = clear_point();
            cadd_state(run(o5 + o6 + o7 + o8 + o9, t4), s, cadd_regs(acc, addend, tmp, sum, neg, prev), w, c, c, c, c)
        }),
{
    let regs = cadd_regs(acc, addend, tmp, sum, neg, prev);
    let a = reg_point(s, acc);
    let d = reg_point(s, addend);
    let c = clear_point();
    let ka = choose|k: nat| a == #[trigger] scalar_mul_spec(k, generator_spec());
    let kd = choose|k: nat| d == #[trigger] scalar_mul_spec(k, generator_spec());
    lemma_cadd_points(ka, kd, s(sel));
    let u = point_add_circuit(a, d);
    let w = if s(sel) { u } else { a };
    let nd = point_neg_circuit(d);
    let v = point_add_circuit(w, nd);
    lemma_group_coordinates(a);
    lemma_group_coordinates(d);
    lemma_group_coordinates(w);
    lemma_group_coordinates(nd);
    lemma_group_coordinates(v);
    assert(regs[0] == acc && regs[1] == addend && regs[2] == tmp && regs[3] == sum && regs[4] == neg && regs[5] == prev);
    assert(point_reg_ok(acc) && point_reg_ok(addend) && point_reg_ok(neg));
    let h4 = seq![w, d, a, c, c, c];
    assert(zero_on(s, p7));
    assert(zero_on(s, p9));
    lemma_cadd_zero(t4, s, regs, sel, h4, p7);
    let t5 = run(o5, t4);
    lemma_holds_read(t4, addend, d);
    assert(t5 == xor_point(t4, neg, nd));
    lemma_cadd_step(t4, s, regs, sel, h4, 4, nd, p9);
    let h5 = h4.update(4, nd);
    let t6 = run(o6, t5);
    lemma_holds_read(t5, acc, w);
    lemma_holds_read(t5, neg, nd);
    assert(t6 == xor_point(t5, prev, v));
    lemma_cadd_step(t5, s, regs, sel, h5, 5, v, p9);
    let h6 = h5.update(5, v);
    let t7 = run(o7, t6);
    lemma_selected_register(previous, sel, prev, acc, t6, v, w);
    assert((if t6(sel) { v } else { w }) == a);
    assert(t7 == xor_point(t6, tmp, a));
    lemma_cadd_step(t6, s, regs, sel, h6, 2, a, p9);
    let h7 = h6.update(2, c);
    let t8 = run(o8, t7);
    lemma_holds_read(t7, acc, w);
    lemma_holds_read(t7, neg, nd);
    assert(t8 == xor_point(t7, prev, v));
    lemma_cadd_step(t7, s, regs, sel, h7, 5, v, p9);
    let h8 = h7.update(5, c);
    let t9 = run(o9, t8);
    lemma_holds_read(t8, addend, d);
    assert(t9 == xor_point(t8, neg, nd));
    lemma_cadd_step(t8, s, regs, sel, h8, 4, nd, p9);
    lemma_run_append(o5, o6, t4);
    lemma_run_append(o5 + o6, o7, t4);
    lemma_run_append(o5 + o6 + o7, o8, t4);
    lemma_run_append(o5 + o6 + o7 + o8, o9, t4);
}

/// A controlled addition's end from `s`: only the accumulator changed, and
/// it holds the sum where the selector is set and its old point elsewhere.
pub open spec fn cadd_done(
    f: spec_fn(u64) -> bool,
    s: spec_fn(u64) -> bool,
    acc: PointRegister,
    addend: PointRegister,
    sel: u64,
) -> bool {
    &&& forall|q: u64| !point_qubits(acc).contains(q) ==> #[trigger] f(q) == s(q)
    &&& reg_point(f, acc) == if s(sel) {
        point_add(reg_point(s, acc), reg_point(s, addend))
    } else {
        reg_point(s, acc)
    }
}

/// The whole controlled addition, from any assignment with the pool clear
/// and group points in the accumulator and the addend.
pub proof fn lemma_cadd_run(
    ops: Seq<Seq<Op>>,
    p0: Set<u64>,
    p2: Set<u64>,
    p7: Set<u64>,
    p9: Set<u64>,
    acc: PointRegister,
    addend: PointRegister,
    tmp: PointRegister,
    sum: PointRegister,
    neg: PointRegister,
    prev: PointRegister,
    sel: u64,
    next: PointValue,
    previous: PointValue,
)
    requires
        ops.len() == 9,
        cadd_regs_ok(cadd_regs(acc, addend, tmp, sum, neg, prev), sel),
        p2.subset_of(p0),
        p7.subset_of(p2),
        p9.subset_of(p7),
        p2.disjoint(point_qubits(acc) + point_qubits(tmp) + point_qubits(sum)),
        p7.disjoint(point_qubits(neg)),
        p9.disjoint(point_qubits(prev)),
        (point_qubits(tmp) + point_qubits(sum) + point_qubits(neg) + point_qubits(prev)).subset_of(p0),
        effect(
            ops[0],
            p2,
            |t: spec_fn(u64) -> bool|
                xor_point(t, sum, point_add_circuit(reg_point(t, acc), reg_point(t, addend))),
        ),
        effect(
            ops[1],
            p2,
            |t: spec_fn(u64) -> bool|
                xor_point_bits(t, tmp, value_of(next.x@, 5, t), value_of(next.y@, 5, t), eval(next.inf, t)),
        ),
        effect(
            ops[2],
            p2,
            |t: spec_fn(u64) -> bool|
                xor_point(t, sum, point_add_circuit(reg_point(t, acc), reg_point(t, addend))),
        ),
        forall|t: spec_fn(u64) -> bool| #[trigger] run(ops[3], t) == swap_pairs(t, point_seq(acc), point_seq(tmp), 11),
        effect(ops[4], p7, |t: spec_fn(u64) -> bool| xor_point(t, neg, point_neg_circuit(reg_point(t, addend)))),
        effect(
            ops[5],
            p9,
            |t: spec_fn(u64) -> bool| xor_point(t, prev, point_add_circuit(reg_point(t, acc), reg_point(t, neg))),
        ),
        effect(
            ops[6],
            p9,
            |t: spec_fn(u64) -> bool|
                xor_point_bits(
                    t,
                    tmp,
                    value_of(previous.x@, 5, t),
                    value_of(previous.y@, 5, t),
                    eval(previous.inf, t),
                ),
        ),
        effect(
            ops[7],
            p9,
            |t: spec_fn(u64) -> bool| xor_point(t, prev, point_add_circuit(reg_point(t, acc), reg_point(t, neg))),
        ),
        effect(ops[8], p9, |t: spec_fn(u64) -> bool| xor_point(t, neg, point_neg_circuit(reg_point(t, addend)))),
        selects_register(next, sel, sum, acc),
        selects_register(previous, sel, prev, acc),
    ensures
        forall|s: spec_fn(u64) -> bool|
            zero_on(s, p0) && in_group(reg_point(s, acc)) && in_group(reg_point(s, addend)) ==> #[trigger] cadd_done(
                run(ops[0] + ops[1] + ops[2] + ops[3] + ops[4] + ops[5] + ops[6] + ops[7] + ops[8], s),
                s,
                acc,
                addend,
                sel,
            ),
{
    assert forall|s: spec_fn(u64) -> bool|
        zero_on(s, p0) && in_group(reg_point(s, acc)) && in_group(reg_point(s, addend)) implies #[trigger] cadd_done(
        run(ops[0] + ops[1] + ops[2] + ops[3] + ops[4] + ops[5] + ops[6] + ops[7] + ops[8], s),
        s,
        acc,
        addend,
        sel,
    ) by {
        let first = ops[0] + ops[1] + ops[2] + ops[3];
        let second = ops[4] + ops[5] + ops[6] + ops[7] + ops[8];
        lemma_cadd_first(ops[0], ops[1], ops[2], ops[3], p0, p2, acc, addend, tmp, sum, neg, prev, sel, next, s);
        let t4 = run(first, s);
        lemma_cadd_second(ops[4], ops[5], ops[6], ops[7], ops[8], p0, p7, p9, acc, addend, tmp, sum, neg, prev, sel, previous, s, t4);
        let whole = ops[0] + ops[1] + ops[2] + ops[3] + ops[4] + ops[5] + ops[6] + ops[7] + ops[8];
        assert(whole =~= first + second);
        lemma_run_append(first, second, s);
        let f = run(whole, s);
        let a = reg_point(s, acc);
        let d = reg_point(s, addend);
        let ka = choose|k: nat| a == #[trigger] scalar_mul_spec(k, generator_spec());
        let kd = choose|k: nat| d == #[trigger] scalar_mul_spec(k, generator_spec());
        lemma_cadd_points(ka, kd, s(sel));
        let w = if s(sel) { point_add_circuit(a, d) } else { a };
        lemma_group_coordinates(w);
        let regs = cadd_regs(acc, addend, tmp, sum, neg, prev);
        assert(regs[0] == acc && regs[1] == addend && regs[2] == tmp && regs[3] == sum && regs[4] == neg && regs[5] == prev);
        assert(point_reg_ok(acc) && point_reg_ok(tmp) && point_reg_ok(sum) && point_reg_ok(neg) && point_reg_ok(prev));
        lemma_holds_read(f, acc, w);
        let scratch = point_qubits(tmp) + point_qubits(sum) + point_qubits(neg) + point_qubits(prev);
        assert forall|q: u64| !point_qubits(acc).contains(q) implies #[trigger] f(q) == s(q) by {
            if point_qubits(tmp).contains(q) {
                lemma_holds_clear(f, tmp, q);
                assert(scratch.contains(q));
            } else if point_qubits(sum).contains(q) {
                lemma_holds_clear(f, sum, q);
                assert(scratch.contains(q));
            } else if point_qubits(neg).contains(q) {
                lemma_holds_clear(f, neg, q);
                assert(scratch.contains(q));
            } else if point_qubits(prev).contains(q) {
                lemma_holds_clear(f, prev, q);
                assert(scratch.contains(q));
            } else {
                assert(!(point_qubits(acc) + point_qubits(tmp) + point_qubits(sum) + point_qubits(neg)
                    + point_qubits(prev)).contains(q));
            }
        }
    }
}

} // verus!
