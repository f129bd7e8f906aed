//! The schedule of the scalar multiplication: which powers of the base
//! point are doubled into which scratch points, when each is added under
//! its scalar bit, and how the scratch points are cleared again.
use super::builder::{added, extends, lemma_added_none, lemma_extends_trans, Builder};
use super::controlled_add::{in_group, lemma_group_coordinates};
use super::point_semantics::reg_point;
use super::point_store::clear_point;
use super::scalar_api::{
    adds_under, add_if, bit_value, doubles_into, lemma_scalar_value, lemma_smul_add, lemma_smul_arith,
    lemma_smul_double, lemma_smul_end, lemma_smul_setup, lemma_smul_start, lemma_smul_zero, smul_done,
    smul_regs, smul_regs_ok, smul_state, smul_written, ScalarMulContext,
};
use super::semantics::{lemma_run_append, run, zero_on};
use super::{point_qubits, PointRegister};
use crate::circuit::{Op, QubitId};
use crate::curve::{generator_spec, point_add, scalar_mul_spec, Point};
use super::point_arith::point_add_circuit;
use super::signal::qubits_value;
use crate::group::{lemma_multiples_add, lemma_repeated_multiple};
use crate::ops_io::OpSink;
use vstd::prelude::*;

verus! {

/// The fifteen steps of the schedule, each by what it adds between two
/// snapshots of the emitted operations: the output is `regs[0]`, the
/// scratch points `regs[1]` to `regs[3]`, the base point `p`.
pub open spec fn schedule_steps(
    e: Seq<Seq<Op>>,
    pool: Set<u64>,
    p: PointRegister,
    regs: Seq<PointRegister>,
    sc: Seq<QubitId>,
) -> bool {
    &&& adds_under(added(e[0], e[1]), pool, regs[0], p, sc[0].0)
    &&& doubles_into(added(e[1], e[2]), pool, p, regs[1])
    &&& adds_under(added(e[2], e[3]), pool, regs[0], regs[1], sc[1].0)
    &&& doubles_into(added(e[3], e[4]), pool, regs[1], regs[2])
    &&& doubles_into(added(e[4], e[5]), pool, p, regs[1])
    &&& doubles_into(added(e[5], e[6]), pool, regs[2], regs[3])
    &&& doubles_into(added(e[6], e[7]), pool, regs[3], regs[1])
    &&& adds_under(added(e[7], e[8]), pool, regs[0], regs[1], sc[4].0)
    &&& doubles_into(added(e[8], e[9]), pool, regs[3], regs[1])
    &&& adds_under(added(e[9], e[10]), pool, regs[0], regs[2], sc[2].0)
    &&& doubles_into(added(e[10], e[11]), pool, p, regs[1])
    &&& adds_under(added(e[11], e[12]), pool, regs[0], regs[3], sc[3].0)
    &&& doubles_into(added(e[12], e[13]), pool, regs[2], regs[3])
    &&& doubles_into(added(e[13], e[14]), pool, regs[1], regs[2])
    &&& doubles_into(added(e[14], e[15]), pool, p, regs[1])
}

/// The registers and pools of a schedule: well shaped and apart, the
/// scratch points taken from the starting pool, and the pool left apart
/// from every written register.
pub open spec fn schedule_frame(
    pool0: Set<u64>,
    pool1: Set<u64>,
    p: PointRegister,
    regs: Seq<PointRegister>,
    sc: Seq<QubitId>,
) -> bool {
    &&& smul_regs_ok(p, regs, sc)
    &&& sc.len() == 5
    &&& (point_qubits(regs[1]) + point_qubits(regs[2]) + point_qubits(regs[3])).subset_of(pool0)
    &&& pool1.subset_of(pool0)
    &&& pool1.disjoint(smul_written(regs))
}

/// Running a prefix and then what follows it runs the whole.
proof fn lemma_run_extend(a: Seq<Op>, b: Seq<Op>, c: Seq<Op>, s: spec_fn(u64) -> bool)
    requires
        extends(a, b),
        extends(b, c),
    ensures
        extends(a, c),
        run(added(a, c), s) == run(added(b, c), run(added(a, b), s)),
{
    lemma_extends_trans(a, b, c);
    lemma_run_append(added(a, b), added(b, c), s);
}

/// One doubling step of the schedule, from snapshot `j` to `j + 1`.
proof fn lemma_step_double(
    e: Seq<Seq<Op>>,
    j: int,
    pool0: Set<u64>,
    pool1: Set<u64>,
    p: PointRegister,
    regs: Seq<PointRegister>,
    sc: Seq<QubitId>,
    h: int,
    w: int,
    s: spec_fn(u64) -> bool,
    hs: Seq<Point>,
    hv: Point,
)
    requires
        0 <= j < 15,
        e.len() == 16,
        extends(e[0], e[j]),
        extends(e[j], e[j + 1]),
        schedule_frame(pool0, pool1, p, regs, sc),
        zero_on(s, pool0),
        doubles_into(added(e[j], e[j + 1]), pool1, if h == 0 { p } else { regs[h] }, regs[w]),
        1 <= w <= 3,
        0 <= h <= 3,
        hs.len() == 4,
        smul_state(run(added(e[0], e[j]), s), s, p, regs, hs),
        hv == (if h == 0 { reg_point(s, p) } else { hs[h] }),
        in_group(hv),
        hs[w] == clear_point() || hs[w] == point_add_circuit(hv, hv),
    ensures
        extends(e[0], e[j + 1]),
        smul_state(
            run(added(e[0], e[j + 1]), s),
            s,
            p,
            regs,
            hs.update(w, if hs[w] == clear_point() { point_add_circuit(hv, hv) } else { clear_point() }),
        ),
{
    let t = run(added(e[0], e[j]), s);
    lemma_smul_zero(t, s, p, regs, hs, pool1);
    lemma_run_extend(e[0], e[j], e[j + 1], s);
    lemma_smul_double(added(e[j], e[j + 1]), pool1, p, regs, sc, h, w, t, s, hs, hv);
}

/// One addition step of the schedule, from snapshot `j` to `j + 1`.
proof fn lemma_step_add(
    e: Seq<Seq<Op>>,
    j: int,
    pool0: Set<u64>,
    pool1: Set<u64>,
    p: PointRegister,
    regs: Seq<PointRegister>,
    sc: Seq<QubitId>,
    h: int,
    bit: int,
    s: spec_fn(u64) -> bool,
    hs: Seq<Point>,
    hv: Point,
)
    requires
        0 <= j < 15,
        e.len() == 16,
        extends(e[0], e[j]),
        extends(e[j], e[j + 1]),
        schedule_frame(pool0, pool1, p, regs, sc),
        zero_on(s, pool0),
        adds_under(added(e[j], e[j + 1]), pool1, regs[0], if h == 0 { p } else { regs[h] }, sc[bit].0),
        0 <= h <= 3,
        0 <= bit < 5,
        hs.len() == 4,
        smul_state(run(added(e[0], e[j]), s), s, p, regs, hs),
        hv == (if h == 0 { reg_point(s, p) } else { hs[h] }),
        in_group(hv),
        in_group(hs[0]),
    ensures
        extends(e[0], e[j + 1]),
        smul_state(
            run(added(e[0], e[j + 1]), s),
            s,
            p,
            regs,
            hs.update(0, if s(sc[bit].0) { point_add(hs[0], hv) } else { hs[0] }),
        ),
{
    let t = run(added(e[0], e[j]), s);
    lemma_smul_zero(t, s, p, regs, hs, pool1);
    lemma_run_extend(e[0], e[j], e[j + 1], s);
    lemma_smul_add(added(e[j], e[j + 1]), pool1, p, regs, sc, h, bit, t, s, hs, hv);
}

/// Each snapshot of the emitted operations extends the one before.
pub open spec fn schedule_grows(e: Seq<Seq<Op>>) -> bool {
    &&& e.len() == 16
    &&& extends(e[0], e[1]) && extends(e[1], e[2]) && extends(e[2], e[3]) && extends(e[3], e[4])
    &&& extends(e[4], e[5]) && extends(e[5], e[6]) && extends(e[6], e[7]) && extends(e[7], e[8])
    &&& extends(e[8], e[9]) && extends(e[9], e[10]) && extends(e[10], e[11]) && extends(e[11], e[12])
    &&& extends(e[12], e[13]) && extends(e[13], e[14]) && extends(e[14], e[15])
}

/// The facts the schedule's steps share: the registers and pools, and a
/// start `s` that keeps the starting pool clear with `a G` in the base point.
pub open spec fn schedule_start(
    s: spec_fn(u64) -> bool,
    e: Seq<Seq<Op>>,
    pool0: Set<u64>,
    pool1: Set<u64>,
    p: PointRegister,
    regs: Seq<PointRegister>,
    sc: Seq<QubitId>,
    a: nat,
) -> bool {
    &&& schedule_grows(e)
    &&& schedule_frame(pool0, pool1, p, regs, sc)
    &&& zero_on(s, pool0)
    &&& reg_point(s, p) == scalar_mul_spec(a, generator_spec())
}

/// `m G`.
pub open spec fn multiple(m: nat) -> Point {
    scalar_mul_spec(m, generator_spec())
}

/// Doubling `m G` with the circuit gives `2m G`; `m G` is in the group and,
/// for `m` no multiple of the order, not a clear register.
proof fn lemma_multiple_facts(m: nat)
    ensures
        point_add_circuit(multiple(m), multiple(m)) == multiple(2 * m),
        in_group(multiple(m)),
        multiple(m) != clear_point(),
{
    lemma_smul_arith(0, m, false);
    lemma_group_coordinates(multiple(m));
}

/// Steps one to five: the base point and `2P` added under bits 0 and 1,
/// with `4P` left in the second scratch point.
proof fn lemma_schedule_first(
    s: spec_fn(u64) -> bool,
    e: Seq<Seq<Op>>,
    pool0: Set<u64>,
    pool1: Set<u64>,
    p: PointRegister,
    regs: Seq<PointRegister>,
    sc: Seq<QubitId>,
    a: nat,
    b: nat,
)
    requires
        schedule_start(s, e, pool0, pool1, p, regs, sc, a),
        adds_under(added(e[0], e[1]), pool1, regs[0], p, sc[0].0),
        doubles_into(added(e[1], e[2]), pool1, p, regs[1]),
        adds_under(added(e[2], e[3]), pool1, regs[0], regs[1], sc[1].0),
        doubles_into(added(e[3], e[4]), pool1, regs[1], regs[2]),
        doubles_into(added(e[4], e[5]), pool1, p, regs[1]),
        extends(e[0], e[0]),
        smul_state(run(added(e[0], e[0]), s), s, p, regs, seq![multiple(b), clear_point(), clear_point(), clear_point()]),
    ensures
        extends(e[0], e[5]),
        smul_state(
            run(added(e[0], e[5]), s),
            s,
            p,
            regs,
            seq![
                multiple(add_if(add_if(b, a, s(sc[0].0)), 2 * a, s(sc[1].0))),
                clear_point(),
                multiple(4 * a),
                clear_point(),
            ],
        ),
{
    let c = clear_point();
    let n1 = add_if(b, a, s(sc[0].0));
    let n2 = add_if(n1, 2 * a, s(sc[1].0));
    let (v1, v2, v4) = (multiple(a), multiple(2 * a), multiple(4 * a));
    lemma_multiple_facts(a);
    lemma_multiple_facts(2 * a);
    assert(2 * (2 * a) == 4 * a);
    lemma_smul_arith(b, a, s(sc[0].0));
    lemma_smul_arith(n1, 2 * a, s(sc[1].0));
    assert(in_group(multiple(b)) && in_group(multiple(n1)));
    let hs0 = seq![multiple(b), c, c, c];
    lemma_step_add(e, 0, pool0, pool1, p, regs, sc, 0, 0, s, hs0, v1);
    let hs1 = seq![multiple(n1), c, c, c];
    assert(hs0.update(0, if s(sc[0].0) { point_add(multiple(b), v1) } else { multiple(b) }) =~= hs1);
    lemma_step_double(e, 1, pool0, pool1, p, regs, sc, 0, 1, s, hs1, v1);
    let hs2 = seq![multiple(n1), v2, c, c];
    assert(hs1.update(1, v2) =~= hs2);
    lemma_step_add(e, 2, pool0, pool1, p, regs, sc, 1, 1, s, hs2, v2);
    let hs3 = seq![multiple(n2), v2, c, c];
    assert(hs2.update(0, if s(sc[1].0) { point_add(multiple(n1), v2) } else { multiple(n1) }) =~= hs3);
    lemma_step_double(e, 3, pool0, pool1, p, regs, sc, 1, 2, s, hs3, v2);
    let hs4 = seq![multiple(n2), v2, v4, c];
    assert(hs3.update(2, v4) =~= hs4);
    lemma_step_double(e, 4, pool0, pool1, p, regs, sc, 0, 1, s, hs4, v1);
    assert(hs4.update(1, c) =~= seq![multiple(n2), c, v4, c]);
}

/// Steps six to ten: `8P` and `16P` doubled up, `16P` and `4P` added under
/// bits 4 and 2, and `16P` cleared again.
proof fn lemma_schedule_middle(
    s: spec_fn(u64) -> bool,
    e: Seq<Seq<Op>>,
    pool0: Set<u64>,
    pool1: Set<u64>,
    p: PointRegister,
    regs: Seq<PointRegister>,
    sc: Seq<QubitId>,
    a: nat,
    n: nat,
)
    requires
        schedule_start(s, e, pool0, pool1, p, regs, sc, a),
        doubles_into(added(e[5], e[6]), pool1, regs[2], regs[3]),
        doubles_into(added(e[6], e[7]), pool1, regs[3], regs[1]),
        adds_under(added(e[7], e[8]), pool1, regs[0], regs[1], sc[4].0),
        doubles_into(added(e[8], e[9]), pool1, regs[3], regs[1]),
        adds_under(added(e[9], e[10]), pool1, regs[0], regs[2], sc[2].0),
        extends(e[0], e[5]),
        smul_state(run(added(e[0], e[5]), s), s, p, regs, seq![multiple(n), clear_point(), multiple(4 * a), clear_point()]),
    ensures
        extends(e[0], e[10]),
        smul_state(
            run(added(e[0], e[10]), s),
            s,
            p,
            regs,
            seq![
                multiple(add_if(add_if(n, 16 * a, s(sc[4].0)), 4 * a, s(sc[2].0))),
                clear_point(),
                multiple(4 * a),
                multiple(8 * a),
            ],
        ),
{
    let c = clear_point();
    let n3 = add_if(n, 16 * a, s(sc[4].0));
    let n4 = add_if(n3, 4 * a, s(sc[2].0));
    let (v4, v8, v16) = (multiple(4 * a), multiple(8 * a), multiple(16 * a));
    lemma_multiple_facts(4 * a);
    lemma_multiple_facts(8 * a);
    lemma_multiple_facts(16 * a);
    assert(2 * (4 * a) == 8 * a && 2 * (8 * a) == 16 * a);
    lemma_smul_arith(n, 16 * a, s(sc[4].0));
    lemma_smul_arith(n3, 4 * a, s(sc[2].0));
    assert(in_group(multiple(n)) && in_group(multiple(n3)));
    let hs5 = seq![multiple(n), c, v4, c];
    lemma_step_double(e, 5, pool0, pool1, p, regs, sc, 2, 3, s, hs5, v4);
    let hs6 = seq![multiple(n), c, v4, v8];
    assert(hs5.update(3, v8) =~= hs6);
    lemma_step_double(e, 6, pool0, pool1, p, regs, sc, 3, 1, s, hs6, v8);
    let hs7 = seq![multiple(n), v16, v4, v8];
    assert(hs6.update(1, v16) =~= hs7);
    lemma_step_add(e, 7, pool0, pool1, p, regs, sc, 1, 4, s, hs7, v16);
    let hs8 = seq![multiple(n3), v16, v4, v8];
    assert(hs7.update(0, if s(sc[4].0) { point_add(multiple(n), v16) } else { multiple(n) }) =~= hs8);
    lemma_step_double(e, 8, pool0, pool1, p, regs, sc, 3, 1, s, hs8, v8);
    let hs9 = seq![multiple(n3), c, v4, v8];
    assert(hs8.update(1, c) =~= hs9);
    lemma_step_add(e, 9, pool0, pool1, p, regs, sc, 2, 2, s, hs9, v4);
    assert(hs9.update(0, if s(sc[2].0) { point_add(multiple(n3), v4) } else { multiple(n3) }) =~= seq![
        multiple(n4),
        c,
        v4,
        v8,
    ]);
}

/// Steps eleven to fifteen: `8P` added under bit 3, and the scratch points
/// cleared by running the doubling chain down.
proof fn lemma_schedule_last(
    s: spec_fn(u64) -> bool,
    e: Seq<Seq<Op>>,
    pool0: Set<u64>,
    pool1: Set<u64>,
    p: PointRegister,
    regs: Seq<PointRegister>,
    sc: Seq<QubitId>,
    a: nat,
    n: nat,
)
    requires
        schedule_start(s, e, pool0, pool1, p, regs, sc, a),
        doubles_into(added(e[10], e[11]), pool1, p, regs[1]),
        adds_under(added(e[11], e[12]), pool1, regs[0], regs[3], sc[3].0),
        doubles_into(added(e[12], e[13]), pool1, regs[2], regs[3]),
        doubles_into(added(e[13], e[14]), pool1, regs[1], regs[2]),
        doubles_into(added(e[14], e[15]), pool1, p, regs[1]),
        extends(e[0], e[10]),
        smul_state(
            run(added(e[0], e[10]), s),
            s,
            p,
            regs,
            seq![multiple(n), clear_point(), multiple(4 * a), multiple(8 * a)],
        ),
    ensures
        smul_state(
            run(added(e[0], e[15]), s),
            s,
            p,
            regs,
            seq![multiple(add_if(n, 8 * a, s(sc[3].0))), clear_point(), clear_point(), clear_point()],
        ),
{
    let c = clear_point();
    let n5 = add_if(n, 8 * a, s(sc[3].0));
    let (v1, v2, v4, v8) = (multiple(a), multiple(2 * a), multiple(4 * a), multiple(8 * a));
    lemma_multiple_facts(a);
    lemma_multiple_facts(2 * a);
    lemma_multiple_facts(4 * a);
    lemma_multiple_facts(8 * a);
    assert(2 * a + 0 == 2 * a && 2 * (2 * a) == 4 * a && 2 * (4 * a) == 8 * a);
    lemma_smul_arith(n, 8 * a, s(sc[3].0));
    assert(in_group(multiple(n)));
    let hs10 = seq![multiple(n), c, v4, v8];
    lemma_step_double(e, 10, pool0, pool1, p, regs, sc, 0, 1, s, hs10, v1);
    let hs11 = seq![multiple(n), v2, v4, v8];
    assert(hs10.update(1, v2) =~= hs11);
    lemma_step_add(e, 11, pool0, pool1, p, regs, sc, 3, 3, s, hs11, v8);
    let hs12 = seq![multiple(n5), v2, v4, v8];
    assert(hs11.update(0, if s(sc[3].0) { point_add(multiple(n), v8) } else { multiple(n) }) =~= hs12);
    lemma_step_double(e, 12, pool0, pool1, p, regs, sc, 2, 3, s, hs12, v4);
    let hs13 = seq![multiple(n5), v2, v4, c];
    assert(hs12.update(3, c) =~= hs13);
    lemma_step_double(e, 13, pool0, pool1, p, regs, sc, 1, 2, s, hs13, v2);
    let hs14 = seq![multiple(n5), v2, c, c];
    assert(hs13.update(2, c) =~= hs14);
    lemma_step_double(e, 14, pool0, pool1, p, regs, sc, 0, 1, s, hs14, v1);
    assert(hs14.update(1, c) =~= seq![multiple(n5), c, c, c]);
}

/// The schedule from one starting state `s` whose base point is `a G` and
/// whose output is `b G`: the output ends as `(b + k a) G`, for `k` the
/// scalar read in `s`, the scratch points clear again, nothing else
/// changed.
proof fn lemma_schedule_run(
    s: spec_fn(u64) -> bool,
    e: Seq<Seq<Op>>,
    pool0: Set<u64>,
    pool1: Set<u64>,
    p: PointRegister,
    regs: Seq<PointRegister>,
    sc: Seq<QubitId>,
)
    requires
        schedule_grows(e),
        schedule_frame(pool0, pool1, p, regs, sc),
        schedule_steps(e, pool1, p, regs, sc),
        zero_on(s, pool0),
        in_group(reg_point(s, p)),
        in_group(reg_point(s, regs[0])),
    ensures
        smul_done(run(added(e[0], e[15]), s), s, p, regs[0], sc),
{
    let g = generator_spec();
    let a = choose|k: nat| reg_point(s, p) == #[trigger] scalar_mul_spec(k, g);
    let b = choose|k: nat| reg_point(s, regs[0]) == #[trigger] scalar_mul_spec(k, g);
    let (b0, b1, b2, b3, b4) = (s(sc[0].0), s(sc[1].0), s(sc[2].0), s(sc[3].0), s(sc[4].0));
    let n2 = add_if(add_if(b, a, b0), 2 * a, b1);
    let n4 = add_if(add_if(n2, 16 * a, b4), 4 * a, b2);
    let n5 = add_if(n4, 8 * a, b3);
    let c = clear_point();
    lemma_added_none(e[0]);
    assert(run(added(e[0], e[0]), s) == s);
    lemma_smul_start(s, p, regs, sc, pool0);
    assert(seq![reg_point(s, regs[0]), c, c, c] =~= seq![multiple(b), c, c, c]);
    lemma_schedule_first(s, e, pool0, pool1, p, regs, sc, a, b);
    lemma_schedule_middle(s, e, pool0, pool1, p, regs, sc, a, n2);
    lemma_schedule_last(s, e, pool0, pool1, p, regs, sc, a, n4);
    let f = run(added(e[0], e[15]), s);
    lemma_multiple_facts(n5);
    lemma_group_coordinates(multiple(n5));
    lemma_smul_end(f, s, p, regs, sc, pool0, multiple(n5));
    let k = qubits_value(sc, 5, s);
    lemma_scalar_value(sc, s);
    lemma_repeated_multiple(k, a);
    lemma_multiples_add(b, k * a);
    assert(n5 == b + k * a) by (nonlinear_arith)
        requires
            k == bit_value(b0) + 2 * bit_value(b1) + 4 * bit_value(b2) + 8 * bit_value(b3) + 16 * bit_value(b4),
            n5 == b + bit_value(b0) * a + bit_value(b1) * (2 * a) + bit_value(b4) * (16 * a) + bit_value(b2) * (
            4 * a) + bit_value(b3) * (8 * a),
    ;
}

/// The schedule adds `k P` to the output from every starting state that
/// keeps the starting pool clear and holds group points in the base point
/// and the output.
proof fn lemma_schedule(
    e: Seq<Seq<Op>>,
    pool0: Set<u64>,
    pool1: Set<u64>,
    p: PointRegister,
    regs: Seq<PointRegister>,
    sc: Seq<QubitId>,
)
    requires
        schedule_grows(e),
        schedule_frame(pool0, pool1, p, regs, sc),
        schedule_steps(e, pool1, p, regs, sc),
    ensures
        forall|s: spec_fn(u64) -> bool|
            zero_on(s, pool0) && in_group(reg_point(s, p)) && in_group(reg_point(s, regs[0])) ==> #[trigger] smul_done(
                run(added(e[0], e[15]), s),
                s,
                p,
                regs[0],
                sc,
            ),
{
    assert forall|s: spec_fn(u64) -> bool|
        zero_on(s, pool0) && in_group(reg_point(s, p)) && in_group(reg_point(s, regs[0])) implies #[trigger] smul_done(
        run(added(e[0], e[15]), s),
        s,
        p,
        regs[0],
        sc,
    ) by {
        lemma_schedule_run(s, e, pool0, pool1, p, regs, sc);
    }
}


/// Adds `scalar * P` into the output, bit by bit: `P`, `2P`, `16P`, `4P`
/// and `8P` under scalar bits 0, 1, 4, 2 and 3, with three scratch points
/// that end cleared.
pub fn scalar_mul_into<S: OpSink>(ctx: &mut ScalarMulContext<S>)
    requires
        old(ctx).ctx_ok(),
        old(ctx).held@.len() == 0,
    ensures
        final(ctx).ctx_ok(),
        final(ctx).held@.len() == 3,
        old(ctx).builder.step(&final(ctx).builder),
        old(ctx).same_frame(final(ctx)),
        !final(ctx).builder.failed() ==> forall|s: spec_fn(u64) -> bool|
            zero_on(s, old(ctx).builder.pool()) && in_group(reg_point(s, old(ctx).point)) && in_group(
                reg_point(s, old(ctx).out),
            ) ==> #[trigger] smul_done(
                run(added(old(ctx).builder.emitted(), final(ctx).builder.emitted()), s),
                s,
                old(ctx).point,
                old(ctx).out,
                old(ctx).scalar@,
            ),
{
    let ghost c0 = *ctx;
    let ghost start = ctx.builder;
    proof {
        ctx.builder.lemma_step_refl();
    }
    let base = ctx.base_point();

    let ghost mid = ctx.builder;
    let w0 = ctx.alloc_point(); // 2P, then 16P, then 2P again
    proof { Builder::lemma_step_trans(&start, &mid, &ctx.builder); }
    let ghost mid = ctx.builder;
    let w1 = ctx.alloc_point(); // 4P
    proof { Builder::lemma_step_trans(&start, &mid, &ctx.builder); }
    let ghost mid = ctx.builder;
    let w2 = ctx.alloc_point(); // 8P
    proof { Builder::lemma_step_trans(&start, &mid, &ctx.builder); }

    let bit0 = ctx.scalar_bit(0);
    let ghost mid = ctx.builder;
    let ghost c1 = *ctx;
    ctx.add_selected(base, bit0);
    proof { Builder::lemma_step_trans(&start, &mid, &ctx.builder); }

    let ghost mid = ctx.builder;
    let ghost c2 = *ctx;
    ctx.double_xor(base, w0); // w0 <- 2P
    proof { Builder::lemma_step_trans(&start, &mid, &ctx.builder); }
    let bit1 = ctx.scalar_bit(1);
    let ghost mid = ctx.builder;
    let ghost c3 = *ctx;
    let h1 = w0.as_point();
    ctx.add_selected(h1, bit1);
    proof { Builder::lemma_step_trans(&start, &mid, &ctx.builder); }

    let ghost mid = ctx.builder;
    let ghost c4 = *ctx;
    let h2 = w0.as_point();
    ctx.double_xor(h2, w1); // w1 <- 4P
    proof { Builder::lemma_step_trans(&start, &mid, &ctx.builder); }
    let ghost mid = ctx.builder;
    let ghost c5 = *ctx;
    ctx.double_xor(base, w0); // w0 <- 0
    proof { Builder::lemma_step_trans(&start, &mid, &ctx.builder); }

    // The doubling chain runs to 16P before the 4P and 8P additions, so
    // that the late controlled additions shorten the Toffoli critical path.
    let ghost mid = ctx.builder;
    let ghost c6 = *ctx;
    let h3 = w1.as_point();
    ctx.double_xor(h3, w2); // w2 <- 8P
    proof { Builder::lemma_step_trans(&start, &mid, &ctx.builder); }
    let ghost mid = ctx.builder;
    let ghost c7 = *ctx;
    let h4 = w2.as_point();
    ctx.double_xor(h4, w0); // w0 <- 16P
    proof { Builder::lemma_step_trans(&start, &mid, &ctx.builder); }
    let bit4 = ctx.scalar_bit(4);
    let ghost mid = ctx.builder;
    let ghost c8 = *ctx;
    let h5 = w0.as_point();
    ctx.add_selected(h5, bit4);
    proof { Builder::lemma_step_trans(&start, &mid, &ctx.builder); }

    // Every intermediate stays a valid point encoding; the cleanup runs the
    // doubling chain downward, reusing w0 as a 2P erasure pebble.
    let ghost mid = ctx.builder;
    let ghost c9 = *ctx;
    let h6 = w2.as_point();
    ctx.double_xor(h6, w0); // w0 <- 0
    proof { Builder::lemma_step_trans(&start, &mid, &ctx.builder); }
    let bit2 = ctx.scalar_bit(2);
    let ghost mid = ctx.builder;
    let ghost c10 = *ctx;
    let h7 = w1.as_point();
    ctx.add_selected(h7, bit2);
    proof { Builder::lemma_step_trans(&start, &mid, &ctx.builder); }

    let ghost mid = ctx.builder;
    let ghost c11 = *ctx;
    ctx.double_xor(base, w0); // w0 <- 2P
    proof { Builder::lemma_step_trans(&start, &mid, &ctx.builder); }
    let bit3 = ctx.scalar_bit(3);
    let ghost mid = ctx.builder;
    let ghost c12 = *ctx;
    let h8 = w2.as_point();
    ctx.add_selected(h8, bit3);
    proof { Builder::lemma_step_trans(&start, &mid, &ctx.builder); }

    let ghost mid = ctx.builder;
    let ghost c13 = *ctx;
    let h9 = w1.as_point();
    ctx.double_xor(h9, w2); // w2 <- 0
    proof { Builder::lemma_step_trans(&start, &mid, &ctx.builder); }
    let ghost mid = ctx.builder;
    let ghost c14 = *ctx;
    let h10 = w0.as_point();
    ctx.double_xor(h10, w1); // w1 <- 0
    proof { Builder::lemma_step_trans(&start, &mid, &ctx.builder); }
    let ghost mid = ctx.builder;
    let ghost c15 = *ctx;
    ctx.double_xor(base, w0); // w0 <- 0
    proof { Builder::lemma_step_trans(&start, &mid, &ctx.builder); }
    let ghost c16 = *ctx;
    proof {
        if !ctx.builder.failed() {
            let e = seq![
                c1.builder.emitted(), c2.builder.emitted(), c3.builder.emitted(), c4.builder.emitted(),
                c5.builder.emitted(), c6.builder.emitted(), c7.builder.emitted(), c8.builder.emitted(),
                c9.builder.emitted(), c10.builder.emitted(), c11.builder.emitted(), c12.builder.emitted(),
                c13.builder.emitted(), c14.builder.emitted(), c15.builder.emitted(), c16.builder.emitted(),
            ];
            let regs = smul_regs(c1);
            lemma_smul_setup(c0, c1);
            assert(schedule_grows(e));
            assert(schedule_steps(e, c1.builder.pool(), c0.point, regs, c0.scalar@));
            lemma_schedule(e, c0.builder.pool(), c1.builder.pool(), c0.point, regs, c0.scalar@);
        }
    }
}

} // verus!
