//! The scalar-multiplication scheduling interface: a schedule sees the base
//! point, its scratch points and the scalar bits only through handles, and
//! can only double a point into a scratch point or add a point under a
//! scalar bit.
use super::builder::{distinct_qubits, qubit_set, Builder, WIDTH};
use super::builder::{added, effect};
use super::controlled_add::{cadd_done, in_group};
use super::point_store::{clear_point, holds, lemma_holds_frame, lemma_holds_other, lemma_holds_read, lemma_holds_reg, lemma_holds_xor};
use super::semantics::agree_outside;
use super::point_reg_ok;
use crate::circuit::Op;
use crate::curve::{generator_spec, point_add, scalar_mul_spec, Point};
use super::signal::qubits_value;
use super::point_arith::point_add_circuit;
use super::point_semantics::{reg_point, xor_point};
use super::semantics::{run, zero_on};
use super::{
    controlled_add_assign, copy_register, hold_point, lemma_point_covers, point_double_xor,
    point_live, point_qubits, point_seq, release_point, PointRegister,
};
use crate::circuit::QubitId;
use super::controlled_add;
use crate::ops_io::OpSink;
use vstd::prelude::*;

verus! {

/// A point the schedule can read: 0 is the base point, `k > 0` the `k`-th
/// scratch point.
#[derive(Clone, Copy, Debug, PartialEq, Eq)]
pub struct PointHandle(pub usize);

/// A scratch point the schedule can write, numbered from 1.
#[derive(Clone, Copy, Debug, PartialEq, Eq)]
pub struct ScratchPoint(pub usize);

/// A bit of the scalar, least significant first.
#[derive(Clone, Copy, Debug, PartialEq, Eq)]
pub struct ScalarBit(pub usize);

impl ScratchPoint {
    /// The scratch point as a readable point.
    pub fn as_point(self) -> (h: PointHandle)
        ensures
            h.0 == self.0,
    {
        PointHandle(self.0)
    }
}

/// The qubits of a sequence of point registers.
pub open spec fn held_union(held: Seq<PointRegister>) -> Set<u64>
    decreases held.len(),
{
    if held.len() == 0 {
        Set::empty()
    } else {
        held_union(held.drop_last()) + point_qubits(held.last())
    }
}

/// The state of one scalar multiplication: the builder, the scalar's
/// qubits, the base point, the output point and the scratch points held so
/// far, with the pool the multiplication started from.
pub struct ScalarMulContext<S: OpSink> {
    pub builder: Builder<S>,
    pub scalar: Vec<QubitId>,
    pub point: PointRegister,
    pub out: PointRegister,
    pub held: Vec<PointRegister>,
    pub start_pool: Ghost<Set<u64>>,
}

impl<S: OpSink> ScalarMulContext<S> {
    /// The qubits that stay put: the base point, the output and the scalar.
    pub open spec fn fixed(&self) -> Set<u64> {
        point_qubits(self.point) + point_qubits(self.out) + qubit_set(self.scalar@)
    }

    /// The context's invariant: registers well shaped; and, while building
    /// has not failed, every register live, the fixed registers and the
    /// scratch points pairwise apart, and the pool the starting pool less the
    /// scratch points.
    pub open spec fn ctx_ok(&self) -> bool {
        &&& self.builder.wf()
        &&& self.point.x@.len() == WIDTH
        &&& self.point.y@.len() == WIDTH
        &&& self.out.x@.len() == WIDTH
        &&& self.out.y@.len() == WIDTH
        &&& self.scalar@.len() == WIDTH
        &&& forall|i: int| 0 <= i < self.held@.len() ==> (#[trigger] self.held@[i]).x@.len() == WIDTH
            && self.held@[i].y@.len() == WIDTH
        &&& !self.builder.failed() ==> {
            &&& point_live(self.builder.pool(), self.point)
            &&& point_live(self.builder.pool(), self.out)
            &&& point_qubits(self.point).disjoint(point_qubits(self.out))
            &&& qubit_set(self.scalar@).disjoint(self.builder.pool())
            &&& qubit_set(self.scalar@).disjoint(point_qubits(self.point) + point_qubits(self.out))
            &&& forall|i: int| 0 <= i < self.held@.len() ==> point_live(self.builder.pool(), #[trigger] self.held@[i])
                && point_qubits(self.held@[i]).disjoint(self.fixed())
            &&& forall|i: int, j: int|
                0 <= i < self.held@.len() && 0 <= j < self.held@.len() && i != j ==> point_qubits(
                    #[trigger] self.held@[i],
                ).disjoint(point_qubits(#[trigger] self.held@[j]))
            &&& held_union(self.held@).subset_of(self.start_pool@)
            &&& self.builder.pool() == self.start_pool@ - held_union(self.held@)
        }
    }

    /// The fixed registers and the starting pool are unchanged.
    pub open spec fn same_frame(&self, other: &Self) -> bool {
        &&& other.scalar@ == self.scalar@
        &&& other.point@ == self.point@
        &&& other.out@ == self.out@
        &&& other.start_pool == self.start_pool
    }

    /// The register a readable handle names.
    pub open spec fn handle_reg(&self, h: PointHandle) -> PointRegister {
        if h.0 == 0 {
            self.point
        } else {
            self.held@[h.0 - 1]
        }
    }

    /// A context for adding `scalar * point` into `out`, with no scratch
    /// point held.
    pub fn new(builder: Builder<S>, scalar: Vec<QubitId>, point: PointRegister, out: PointRegister) -> (ctx: Self)
        requires
            builder.wf(),
            point.x@.len() == WIDTH,
            point.y@.len() == WIDTH,
            out.x@.len() == WIDTH,
            out.y@.len() == WIDTH,
            scalar@.len() == WIDTH,
            !builder.failed() ==> point_live(builder.pool(), point) && point_live(builder.pool(), out)
                && point_qubits(point).disjoint(point_qubits(out)) && qubit_set(scalar@).disjoint(builder.pool())
                && qubit_set(scalar@).disjoint(point_qubits(point) + point_qubits(out)),
        ensures
            ctx.ctx_ok(),
            ctx.builder == builder,
            ctx.held@.len() == 0,
            ctx.scalar@ == scalar@,
            ctx.point == point,
            ctx.out == out,
            ctx.start_pool@ == builder.pool(),
    {
        let ghost p = builder.pool();
        let ctx = ScalarMulContext { builder, scalar, point, out, held: Vec::new(), start_pool: Ghost(p) };
        proof {
            assert(held_union(ctx.held@) =~= Set::empty());
            assert(ctx.builder.pool() =~= p - Set::empty());
        }
        ctx
    }

    /// Releases every scratch point and hands back the builder, whose pool
    /// is again the one the multiplication started from.
    pub fn release_points(self) -> (builder: Builder<S>)
        requires
            self.ctx_ok(),
        ensures
            self.builder.step(&builder),
            builder.emitted() == self.builder.emitted(),
            !builder.failed() ==> builder.pool() == self.start_pool@,
    {
        let ScalarMulContext { builder, scalar, point, out, held, start_pool } = self;
        let mut builder = builder;
        let mut held = held;
        let ghost b0 = builder;
        let ghost h0 = held@;
        proof {
            builder.lemma_step_refl();
        }
        while held.len() > 0
            invariant
                b0.step(&builder),
                builder.emitted() == b0.emitted(),
                b0.failed() == builder.failed(),
                held@ == h0.subrange(0, held@.len() as int),
                held@.len() <= h0.len(),
                forall|i: int| 0 <= i < h0.len() ==> (#[trigger] h0[i]).x@.len() == WIDTH && h0[i].y@.len() == WIDTH,
                !builder.failed() ==> {
                    &&& forall|i: int| 0 <= i < held@.len() ==> point_live(builder.pool(), #[trigger] h0[i])
                    &&& forall|i: int, j: int|
                        0 <= i < h0.len() && 0 <= j < h0.len() && i != j ==> point_qubits(#[trigger] h0[i]).disjoint(
                            point_qubits(#[trigger] h0[j]),
                        )
                    &&& held_union(held@).subset_of(start_pool@)
                    &&& builder.pool() == start_pool@ - held_union(held@)
                },
            decreases held@.len(),
        {
            let ghost before = builder;
            let ghost hb = held@;
            let p = match held.pop() {
                Some(p) => p,
                None => {
                    proof {
                        assert(false);
                    }
                    return builder;
                },
            };
            proof {
                assert(p == hb.last());
                assert(held@ =~= hb.drop_last());
                assert(held@ =~= h0.subrange(0, held@.len() as int));
                if !builder.failed() {
                    assert(hb.last() == h0[hb.len() - 1]);
                    assert(point_live(builder.pool(), h0[hb.len() - 1]));
                }
            }
            release_point(&mut builder, p);
            proof {
                Builder::lemma_step_trans(&b0, &before, &builder);
                if !builder.failed() {
                    assert(held_union(hb) == held_union(held@) + point_qubits(p));
                    assert forall|i: int| 0 <= i < held@.len() implies point_live(builder.pool(), #[trigger] h0[i]) by {
                        assert(point_live(before.pool(), h0[i]));
                        assert(point_qubits(h0[i]).disjoint(point_qubits(h0[hb.len() - 1])));
                    }
                    lemma_held_union_within(hb, held@.len() as int);
                    assert forall|q: u64| held_union(held@).contains(q) implies !point_qubits(p).contains(q) by {
                        lemma_held_union_elem(held@, q);
                        let i = choose|i: int| 0 <= i < held@.len() && point_qubits(#[trigger] held@[i]).contains(q);
                        assert(held@[i] == h0[i]);
                        assert(point_qubits(h0[i]).disjoint(point_qubits(h0[hb.len() - 1])));
                    }
                    assert(builder.pool() =~= start_pool@ - held_union(held@));
                }
            }
        }
        proof {
            if !builder.failed() {
                assert(held@.len() == 0);
                assert(held_union(held@) =~= Set::empty());
                assert(builder.pool() =~= start_pool@);
            }
        }
        builder
    }

    /// The register a readable handle names.
    fn resolve_point(&self, handle: PointHandle) -> (p: PointRegister)
        requires
            handle.0 <= self.held@.len(),
        ensures
            p@ == self.handle_reg(handle)@,
    {
        if handle.0 == 0 {
            return copy_register(&self.point);
        }
        copy_register(&self.held[handle.0 - 1])
    }

    /// The register a scratch handle names.
    fn resolve_scratch(&self, handle: ScratchPoint) -> (p: PointRegister)
        requires
            1 <= handle.0 <= self.held@.len(),
        ensures
            p@ == self.held@[handle.0 - 1]@,
    {
        copy_register(&self.held[handle.0 - 1])
    }

    /// The base point.
    pub fn base_point(&self) -> (h: PointHandle)
        ensures
            h.0 == 0,
    {
        PointHandle(0)
    }

    /// Scalar bit `bit`.
    pub fn scalar_bit(&self, bit: usize) -> (b: ScalarBit)
        requires
            bit < self.scalar@.len(),
        ensures
            b.0 == bit,
    {
        ScalarBit(bit)
    }

    /// Holds a new scratch point, initially zero.
    pub fn alloc_point(&mut self) -> (h: ScratchPoint)
        requires
            old(self).ctx_ok(),
            old(self).held@.len() < 1000,
        ensures
            final(self).ctx_ok(),
            old(self).same_frame(final(self)),
            old(self).builder.step(&final(self).builder),
            final(self).held@.len() == old(self).held@.len() + 1,
            forall|i: int| 0 <= i < old(self).held@.len() ==> #[trigger] final(self).held@[i] == old(self).held@[i],
            h.0 == final(self).held@.len(),
            final(self).builder.emitted() == old(self).builder.emitted(),
            final(self).point == old(self).point,
            final(self).out == old(self).out,
            final(self).scalar == old(self).scalar,
    {
        let ghost b0 = self.builder;
        let ghost h0 = self.held@;
        let p = hold_point(&mut self.builder);
        let handle = ScratchPoint(self.held.len() + 1);
        proof {
            lemma_point_covers(p);
        }
        self.held.push(p);
        proof {
            assert(self.held@ == h0.push(p));
            assert(held_union(self.held@.drop_last()) == held_union(h0)) by {
                assert(self.held@.drop_last() =~= h0);
            }
            if !self.builder.failed() {
                let pool = self.builder.pool();
                assert forall|i: int| 0 <= i < self.held@.len() implies point_live(pool, #[trigger] self.held@[i])
                    && point_qubits(self.held@[i]).disjoint(self.fixed()) by {
                    if i < h0.len() {
                        assert(self.held@[i] == h0[i]);
                        assert(point_live(b0.pool(), h0[i]));
                    } else {
                        assert(self.held@[i] == p);
                    }
                }
                assert forall|i: int, j: int|
                    0 <= i < self.held@.len() && 0 <= j < self.held@.len() && i != j implies point_qubits(
                        #[trigger] self.held@[i],
                    ).disjoint(point_qubits(#[trigger] self.held@[j])) by {
                    if i < h0.len() && j < h0.len() {
                        assert(self.held@[i] == h0[i]);
                        assert(self.held@[j] == h0[j]);
                    } else if i < h0.len() {
                        assert(self.held@[i] == h0[i]);
                        assert(point_live(b0.pool(), h0[i]));
                        assert(self.held@[j] == p);
                    } else {
                        assert(self.held@[j] == h0[j]);
                        assert(point_live(b0.pool(), h0[j]));
                        assert(self.held@[i] == p);
                    }
                }
                assert(self.builder.pool() =~= self.start_pool@ - held_union(self.held@));
            }
        }
        handle
    }

    /// XORs twice the point `point` into the scratch point `out`.
    pub fn double_xor(&mut self, point: PointHandle, out: ScratchPoint)
        requires
            old(self).ctx_ok(),
            point.0 <= old(self).held@.len(),
            1 <= out.0 <= old(self).held@.len(),
            point.0 != out.0,
        ensures
            final(self).ctx_ok(),
            old(self).same_frame(final(self)),
            old(self).builder.step(&final(self).builder),
            final(self).held@ == old(self).held@,
            final(self).point == old(self).point,
            final(self).out == old(self).out,
            final(self).scalar == old(self).scalar,
            !final(self).builder.failed() ==> doubles_into(
                added(old(self).builder.emitted(), final(self).builder.emitted()),
                old(self).builder.pool(),
                old(self).handle_reg(point),
                old(self).held@[out.0 - 1],
            ),
    {
        let ghost c0 = *self;
        let p = self.resolve_point(point);
        let o = self.resolve_scratch(out);
        proof {
            if !self.builder.failed() {
                lemma_handle_apart(self, point, out.0 as int);
            }
        }
        point_double_xor(&mut self.builder, &p, &o);
        proof {
            if !self.builder.failed() {
                let h = c0.handle_reg(point);
                let t = c0.held@[out.0 - 1];
                assert(p.x@ == h.x@ && p.y@ == h.y@ && p.inf == h.inf);
                assert(o.x@ == t.x@ && o.y@ == t.y@ && o.inf == t.inf);
                assert forall|s: spec_fn(u64) -> bool| zero_on(s, c0.builder.pool()) implies #[trigger] run(
                    added(c0.builder.emitted(), self.builder.emitted()),
                    s,
                ) == xor_point(s, t, point_add_circuit(reg_point(s, h), reg_point(s, h))) by {
                    assert(reg_point(s, p) == reg_point(s, h));
                    assert(xor_point(s, o, point_add_circuit(reg_point(s, h), reg_point(s, h))) == xor_point(
                        s,
                        t,
                        point_add_circuit(reg_point(s, h), reg_point(s, h)),
                    ));
                }
            }
        }
    }

    /// Adds the point `addend` into the output where scalar bit `selector`
    /// holds.
    pub fn add_selected(&mut self, addend: PointHandle, selector: ScalarBit)
        requires
            old(self).ctx_ok(),
            addend.0 <= old(self).held@.len(),
            selector.0 < old(self).scalar@.len(),
        ensures
            final(self).ctx_ok(),
            old(self).same_frame(final(self)),
            old(self).builder.step(&final(self).builder),
            final(self).held@ == old(self).held@,
            final(self).point == old(self).point,
            final(self).out == old(self).out,
            final(self).scalar == old(self).scalar,
            !final(self).builder.failed() ==> adds_under(
                added(old(self).builder.emitted(), final(self).builder.emitted()),
                old(self).builder.pool(),
                old(self).out,
                old(self).handle_reg(addend),
                old(self).scalar@[selector.0 as int].0,
            ),
    {
        let ghost c0 = *self;
        let a = self.resolve_point(addend);
        let out = copy_register(&self.out);
        let sel = self.scalar[selector.0];
        proof {
            if !self.builder.failed() {
                lemma_handle_fixed(self, addend, selector.0 as int);
            }
        }
        controlled_add_assign(&mut self.builder, &out, &a, sel);
        proof {
            if !self.builder.failed() {
                let h = c0.handle_reg(addend);
                assert(a.x@ == h.x@ && a.y@ == h.y@ && a.inf == h.inf);
                assert(out.x@ == c0.out.x@ && out.y@ == c0.out.y@ && out.inf == c0.out.inf);
                assert(point_seq(out) == point_seq(c0.out));
                assert forall|s: spec_fn(u64) -> bool|
                    zero_on(s, c0.builder.pool()) && in_group(reg_point(s, c0.out)) && in_group(reg_point(s, h))
                        implies #[trigger] cadd_done(
                        run(added(c0.builder.emitted(), self.builder.emitted()), s),
                        s,
                        c0.out,
                        h,
                        sel.0,
                    ) by {
                    assert(reg_point(s, out) == reg_point(s, c0.out));
                    assert(reg_point(s, a) == reg_point(s, h));
                    assert(cadd_done(run(added(c0.builder.emitted(), self.builder.emitted()), s), s, out, a, sel.0));
                }
            }
        }
    }
}

/// Running `ops` from a state that keeps `pool` clear XORs twice the point
/// of `src` into `dst` and changes nothing else.
pub open spec fn doubles_into(ops: Seq<Op>, pool: Set<u64>, src: PointRegister, dst: PointRegister) -> bool {
    effect(
        ops,
        pool,
        |s: spec_fn(u64) -> bool| xor_point(s, dst, point_add_circuit(reg_point(s, src), reg_point(s, src))),
    )
}

/// Running `ops` from a state that keeps `pool` clear, with group points in
/// `acc` and `src`, adds the point of `src` into `acc` where qubit `sel` is
/// set.
pub open spec fn adds_under(ops: Seq<Op>, pool: Set<u64>, acc: PointRegister, src: PointRegister, sel: u64) -> bool {
    forall|s: spec_fn(u64) -> bool|
        zero_on(s, pool) && in_group(reg_point(s, acc)) && in_group(reg_point(s, src)) ==> #[trigger] cadd_done(
            run(ops, s),
            s,
            acc,
            src,
            sel,
        )
}

/// The first `n` scratch points of a sequence lie within the union of all.
pub proof fn lemma_held_union_within(held: Seq<PointRegister>, n: int)
    requires
        0 <= n <= held.len(),
    ensures
        held_union(held.subrange(0, n)).subset_of(held_union(held)),
    decreases held.len(),
{
    if n < held.len() {
        lemma_held_union_within(held.drop_last(), n);
        assert(held.drop_last().subrange(0, n) =~= held.subrange(0, n));
    } else {
        assert(held.subrange(0, n) =~= held);
    }
}

/// A qubit of the union is a qubit of one of the scratch points.
pub proof fn lemma_held_union_elem(held: Seq<PointRegister>, q: u64)
    requires
        held_union(held).contains(q),
    ensures
        exists|i: int| 0 <= i < held.len() && point_qubits(#[trigger] held[i]).contains(q),
    decreases held.len(),
{
    if point_qubits(held.last()).contains(q) {
        assert(point_qubits(held[held.len() - 1]).contains(q));
    } else {
        lemma_held_union_elem(held.drop_last(), q);
        let i = choose|i: int| 0 <= i < held.drop_last().len() && point_qubits(#[trigger] held.drop_last()[i]).contains(q);
        assert(held[i] == held.drop_last()[i]);
    }
}

/// Two different handles, the second a scratch point, name live registers
/// that do not meet.
pub proof fn lemma_handle_apart<S: OpSink>(ctx: &ScalarMulContext<S>, h: PointHandle, k: int)
    requires
        ctx.ctx_ok(),
        !ctx.builder.failed(),
        h.0 <= ctx.held@.len(),
        1 <= k <= ctx.held@.len(),
        h.0 != k,
    ensures
        super::add_io_ok(ctx.builder.pool(), ctx.handle_reg(h), ctx.handle_reg(h), ctx.held@[k - 1]),
{
    let p = ctx.handle_reg(h);
    let o = ctx.held@[k - 1];
    lemma_point_covers(ctx.point);
    lemma_point_covers(ctx.out);
    if h.0 == 0 {
        assert(point_qubits(o).disjoint(ctx.fixed()));
    } else {
        assert(point_qubits(ctx.held@[h.0 - 1]).disjoint(point_qubits(ctx.held@[k - 1])));
    }
}

/// The output, a readable handle's register and a scalar bit are live and
/// apart.
pub proof fn lemma_handle_fixed<S: OpSink>(ctx: &ScalarMulContext<S>, h: PointHandle, b: int)
    requires
        ctx.ctx_ok(),
        !ctx.builder.failed(),
        h.0 <= ctx.held@.len(),
        0 <= b < ctx.scalar@.len(),
    ensures
        point_live(ctx.builder.pool(), ctx.out),
        point_live(ctx.builder.pool(), ctx.handle_reg(h)),
        point_qubits(ctx.out).disjoint(point_qubits(ctx.handle_reg(h))),
        !ctx.builder.pool().contains(ctx.scalar@[b].0),
        !point_qubits(ctx.out).contains(ctx.scalar@[b].0),
        !point_qubits(ctx.handle_reg(h)).contains(ctx.scalar@[b].0),
{
    assert(qubit_set(ctx.scalar@).contains(ctx.scalar@[b].0));
    if h.0 > 0 {
        assert(point_qubits(ctx.held@[h.0 - 1]).disjoint(ctx.fixed()));
    }
}

/// The registers a scalar multiplication writes: the output and three
/// scratch points.
pub open spec fn smul_regs<S: OpSink>(c: ScalarMulContext<S>) -> Seq<PointRegister> {
    seq![c.out, c.held@[0], c.held@[1], c.held@[2]]
}

/// The qubits a scalar multiplication writes.
pub open spec fn smul_written(regs: Seq<PointRegister>) -> Set<u64> {
    point_qubits(regs[0]) + point_qubits(regs[1]) + point_qubits(regs[2]) + point_qubits(regs[3])
}

/// The state of a scalar multiplication from `s`: the base point keeps its
/// point, the output and the scratch points hold the given points, and
/// nothing else differs from `s`.
pub open spec fn smul_state(
    t: spec_fn(u64) -> bool,
    s: spec_fn(u64) -> bool,
    p: PointRegister,
    regs: Seq<PointRegister>,
    hs: Seq<Point>,
) -> bool {
    &&& holds(t, p, reg_point(s, p))
    &&& forall|i: int| 0 <= i < 4 ==> holds(t, #[trigger] regs[i], hs[i])
    &&& agree_outside(t, s, smul_written(regs))
}

/// The registers of a scalar multiplication are well shaped and pairwise
/// apart, and the scalar bits are in none of them.
pub open spec fn smul_regs_ok(p: PointRegister, regs: Seq<PointRegister>, scalar: Seq<QubitId>) -> bool {
    &&& regs.len() == 4
    &&& point_reg_ok(p)
    &&& forall|i: int| 0 <= i < 4 ==> point_reg_ok(#[trigger] regs[i]) && point_qubits(regs[i]).disjoint(point_qubits(p))
        && point_qubits(regs[i]).disjoint(qubit_set(scalar))
    &&& point_qubits(p).disjoint(qubit_set(scalar))
    &&& forall|i: int, j: int|
        0 <= i < 4 && 0 <= j < 4 && i != j ==> point_qubits(#[trigger] regs[i]).disjoint(point_qubits(#[trigger] regs[j]))
}

/// A scalar multiplication's state keeps clear a pool that none of its
/// written registers meets.
pub proof fn lemma_smul_zero(t: spec_fn(u64) -> bool, s: spec_fn(u64) -> bool, p: PointRegister, regs: Seq<PointRegister>, hs: Seq<Point>, pool: Set<u64>)
    requires
        smul_state(t, s, p, regs, hs),
        zero_on(s, pool),
        pool.disjoint(smul_written(regs)),
    ensures
        zero_on(t, pool),
{
    assert forall|q: u64| pool.contains(q) implies !t(q) by {
        assert(!smul_written(regs).contains(q));
    }
}

/// XORing `v` into written register `k` fills it when it is clear and
/// clears it when it holds `v`; the others keep their points.
proof fn lemma_smul_xor(
    t: spec_fn(u64) -> bool,
    s: spec_fn(u64) -> bool,
    p: PointRegister,
    regs: Seq<PointRegister>,
    scalar: Seq<QubitId>,
    hs: Seq<Point>,
    k: int,
    v: Point,
)
    requires
        smul_regs_ok(p, regs, scalar),
        hs.len() == 4,
        0 <= k < 4,
        hs[k] == clear_point() || hs[k] == v,
        smul_state(t, s, p, regs, hs),
    ensures
        smul_state(xor_point(t, regs[k], v), s, p, regs, hs.update(k, if hs[k] == clear_point() { v } else { clear_point() })),
        forall|q: u64| !point_qubits(regs[k]).contains(q) ==> #[trigger] xor_point(t, regs[k], v)(q) == t(q),
{
    let u = xor_point(t, regs[k], v);
    let n = hs.update(k, if hs[k] == clear_point() { v } else { clear_point() });
    lemma_holds_xor(t, regs[k], hs[k], v);
    assert forall|j: int| 0 <= j < 4 implies holds(u, #[trigger] regs[j], n[j]) by {
        if j != k {
            lemma_holds_other(t, regs[k], v, regs[j], hs[j]);
        }
    }
    lemma_holds_other(t, regs[k], v, p, reg_point(s, p));
    assert forall|q: u64| !point_qubits(regs[k]).contains(q) implies #[trigger] u(q) == t(q) by {
        super::point_semantics::lemma_xor_point_outside(t, regs[k], v.x as nat, v.y as nat, v.infinity, q);
    }
    assert forall|q: u64| !smul_written(regs).contains(q) implies u(q) == s(q) by {
        assert(!point_qubits(regs[k]).contains(q));
    }
}

/// A doubling step of the schedule, from a state that keeps its pool clear:
/// handle `h` (0 the base point, else written register `h`) is doubled into
/// written register `w`, which fills it when clear and clears it when it
/// already holds the double.
pub proof fn lemma_smul_double(
    o: Seq<Op>,
    pool: Set<u64>,
    p: PointRegister,
    regs: Seq<PointRegister>,
    scalar: Seq<QubitId>,
    h: int,
    w: int,
    t: spec_fn(u64) -> bool,
    s: spec_fn(u64) -> bool,
    hs: Seq<Point>,
    hv: Point,
)
    requires
        doubles_into(o, pool, if h == 0 { p } else { regs[h] }, regs[w]),
        zero_on(t, pool),
        1 <= w <= 3,
        0 <= h <= 3,
        smul_regs_ok(p, regs, scalar),
        hs.len() == 4,
        smul_state(t, s, p, regs, hs),
        hv == (if h == 0 { reg_point(s, p) } else { hs[h] }),
        in_group(hv),
        hs[w] == clear_point() || hs[w] == point_add_circuit(hv, hv),
    ensures
        smul_state(
            run(o, t),
            s,
            p,
            regs,
            hs.update(w, if hs[w] == clear_point() { point_add_circuit(hv, hv) } else { clear_point() }),
        ),
{
    let hr = if h == 0 { p } else { regs[h] };
    controlled_add::lemma_group_coordinates(hv);
    if h == 0 {
        lemma_holds_read(t, p, hv);
    } else {
        lemma_holds_read(t, regs[h], hv);
    }
    assert(run(o, t) == xor_point(t, regs[w], point_add_circuit(reg_point(t, hr), reg_point(t, hr))));
    lemma_smul_xor(t, s, p, regs, scalar, hs, w, point_add_circuit(hv, hv));
}

/// An addition step of the schedule, from a state that keeps its pool
/// clear: the output becomes its sum with handle `h` where scalar bit `bit`
/// is set.
pub proof fn lemma_smul_add(
    o: Seq<Op>,
    pool: Set<u64>,
    p: PointRegister,
    regs: Seq<PointRegister>,
    scalar: Seq<QubitId>,
    h: int,
    bit: int,
    t: spec_fn(u64) -> bool,
    s: spec_fn(u64) -> bool,
    hs: Seq<Point>,
    hv: Point,
)
    requires
        adds_under(o, pool, regs[0], if h == 0 { p } else { regs[h] }, scalar[bit].0),
        zero_on(t, pool),
        0 <= h <= 3,
        0 <= bit < scalar.len(),
        smul_regs_ok(p, regs, scalar),
        hs.len() == 4,
        smul_state(t, s, p, regs, hs),
        hv == (if h == 0 { reg_point(s, p) } else { hs[h] }),
        in_group(hv),
        in_group(hs[0]),
    ensures
        smul_state(
            run(o, t),
            s,
            p,
            regs,
            hs.update(0, if s(scalar[bit].0) { point_add(hs[0], hv) } else { hs[0] }),
        ),
{
    let hr = if h == 0 { p } else { regs[h] };
    let f = run(o, t);
    let sel = scalar[bit].0;
    controlled_add::lemma_group_coordinates(hv);
    controlled_add::lemma_group_coordinates(hs[0]);
    if h == 0 {
        lemma_holds_read(t, p, hv);
    } else {
        lemma_holds_read(t, regs[h], hv);
    }
    lemma_holds_read(t, regs[0], hs[0]);
    assert(cadd_done(f, t, regs[0], hr, sel));
    assert(qubit_set(scalar).contains(sel));
    assert(t(sel) == s(sel)) by {
        assert(!smul_written(regs).contains(sel));
    }
    let n = hs.update(0, if s(sel) { point_add(hs[0], hv) } else { hs[0] });
    lemma_holds_reg(f, regs[0]);
    assert forall|j: int| 0 <= j < 4 implies holds(f, #[trigger] regs[j], n[j]) by {
        if j != 0 {
            assert forall|q: u64| point_qubits(regs[j]).contains(q) implies t(q) == f(q) by {
                assert(point_qubits(regs[0]).disjoint(point_qubits(regs[j])));
            }
            lemma_holds_frame(t, f, regs[j], hs[j]);
        }
    }
    assert forall|q: u64| point_qubits(p).contains(q) implies t(q) == f(q) by {
        assert(point_qubits(regs[0]).disjoint(point_qubits(p)));
    }
    lemma_holds_frame(t, f, p, reg_point(s, p));
    assert forall|q: u64| !smul_written(regs).contains(q) implies f(q) == s(q) by {
        assert(!point_qubits(regs[0]).contains(q));
    }
}

/// After the schedule's three scratch points are held, the output, the
/// scratch points and the base point are well shaped and apart from each
/// other and from the scalar; the scratch points came from the starting
/// pool, and the pool left keeps clear of every written register.
pub proof fn lemma_smul_setup<S: OpSink>(c0: ScalarMulContext<S>, c1: ScalarMulContext<S>)
    requires
        c0.ctx_ok(),
        c0.held@.len() == 0,
        c1.ctx_ok(),
        c0.same_frame(&c1),
        c1.held@.len() == 3,
        c0.builder.step(&c1.builder),
        !c1.builder.failed(),
        c1.point == c0.point,
        c1.out == c0.out,
    ensures
        smul_regs_ok(c0.point, smul_regs(c1), c0.scalar@),
        c0.scalar@.len() == 5,
        (point_qubits(c1.held@[0]) + point_qubits(c1.held@[1]) + point_qubits(c1.held@[2])).subset_of(
            c0.builder.pool(),
        ),
        c1.builder.pool().subset_of(c0.builder.pool()),
        c1.builder.pool().disjoint(smul_written(smul_regs(c1))),
{
    let h = c1.held@;
    let regs = smul_regs(c1);
    let w = point_qubits(h[0]) + point_qubits(h[1]) + point_qubits(h[2]);
    assert(held_union(c0.held@) == Set::<u64>::empty());
    assert(c0.builder.pool() =~= c0.start_pool@);
    let h1 = h.drop_last();
    let h2 = h1.drop_last();
    assert(h2.drop_last() =~= Seq::<PointRegister>::empty());
    assert(h2.last() == h[0] && h1.last() == h[1] && h.last() == h[2]);
    assert(held_union(h2) =~= point_qubits(h[0])) by {
        assert(held_union(h2.drop_last()) == Set::<u64>::empty());
    }
    assert(held_union(h1) == point_qubits(h[0]) + point_qubits(h[1]));
    assert(held_union(h) == w);
    lemma_point_covers(c0.point);
    lemma_point_covers(c0.out);
    assert(point_live(c1.builder.pool(), h[0]) && point_live(c1.builder.pool(), h[1]) && point_live(
        c1.builder.pool(),
        h[2],
    ));
    assert(point_qubits(h[0]).disjoint(c1.fixed()) && point_qubits(h[1]).disjoint(c1.fixed())
        && point_qubits(h[2]).disjoint(c1.fixed()));
    assert(point_qubits(h[0]).disjoint(point_qubits(h[1])));
    assert(point_qubits(h[0]).disjoint(point_qubits(h[2])));
    assert(point_qubits(h[1]).disjoint(point_qubits(h[2])));
    assert(regs[0] == c0.out && regs[1] == h[0] && regs[2] == h[1] && regs[3] == h[2]);
    assert forall|i: int| 0 <= i < 4 implies point_reg_ok(#[trigger] regs[i]) && point_qubits(regs[i]).disjoint(
        point_qubits(c0.point),
    ) && point_qubits(regs[i]).disjoint(qubit_set(c0.scalar@)) by {
        assert(i == 0 || i == 1 || i == 2 || i == 3);
    }
    assert forall|i: int, j: int|
        0 <= i < 4 && 0 <= j < 4 && i != j implies point_qubits(#[trigger] regs[i]).disjoint(
        point_qubits(#[trigger] regs[j]),
    ) by {
        assert(i == 0 || i == 1 || i == 2 || i == 3);
        assert(j == 0 || j == 1 || j == 2 || j == 3);
    }
}

/// A scalar multiplication's end from `s`: only the output changed, and it
/// holds its old point plus `k P`, for `k` the scalar's value and `P` the
/// base point.
pub open spec fn smul_done(
    f: spec_fn(u64) -> bool,
    s: spec_fn(u64) -> bool,
    p: PointRegister,
    o: PointRegister,
    scalar: Seq<QubitId>,
) -> bool {
    &&& forall|q: u64| !point_qubits(o).contains(q) ==> #[trigger] f(q) == s(q)
    &&& reg_point(f, o) == point_add(reg_point(s, o), scalar_mul_spec(qubits_value(scalar, 5, s), reg_point(s, p)))
}

/// `b` as 0 or 1.
pub open spec fn bit_value(b: bool) -> nat {
    if b {
        1
    } else {
        0
    }
}

/// The multiple of `G` from `n` on, plus `m` more where `b` holds.
pub open spec fn add_if(n: nat, m: nat, b: bool) -> nat {
    n + bit_value(b) * m
}

/// The group arithmetic of the schedule: doubling `2^i p G` gives
/// `2^(i+1) p G`, adding `m G` where a bit holds adds `m` to the multiple,
/// and the five additions add `k p` for `k` the scalar's value.
pub proof fn lemma_smul_arith(n: nat, m: nat, b: bool)
    ensures
        point_add_circuit(scalar_mul_spec(m, generator_spec()), scalar_mul_spec(m, generator_spec()))
            == scalar_mul_spec(2 * m, generator_spec()),
        in_group(scalar_mul_spec(m, generator_spec())),
        (if b {
            point_add(scalar_mul_spec(n, generator_spec()), scalar_mul_spec(m, generator_spec()))
        } else {
            scalar_mul_spec(n, generator_spec())
        }) == scalar_mul_spec(add_if(n, m, b), generator_spec()),
{
    crate::group::lemma_circuit_adds_multiples(m, m);
    crate::group::lemma_multiples_add(n, m);
}

/// A five-qubit scalar reads as the sum of its bits' weights.
pub proof fn lemma_scalar_value(scalar: Seq<QubitId>, s: spec_fn(u64) -> bool)
    requires
        scalar.len() == 5,
    ensures
        qubits_value(scalar, 5, s) == bit_value(s(scalar[0].0)) + 2 * bit_value(s(scalar[1].0)) + 4 * bit_value(
            s(scalar[2].0),
        ) + 8 * bit_value(s(scalar[3].0)) + 16 * bit_value(s(scalar[4].0)),
{
    vstd::arithmetic::power2::lemma2_to64();
    reveal_with_fuel(qubits_value, 6);
}

/// The state a scalar multiplication starts in: the output holds its
/// point and the scratch points are clear.
pub proof fn lemma_smul_start(s: spec_fn(u64) -> bool, p: PointRegister, regs: Seq<PointRegister>, scalar: Seq<QubitId>, pool: Set<u64>)
    requires
        smul_regs_ok(p, regs, scalar),
        zero_on(s, pool),
        (point_qubits(regs[1]) + point_qubits(regs[2]) + point_qubits(regs[3])).subset_of(pool),
    ensures
        smul_state(s, s, p, regs, seq![reg_point(s, regs[0]), clear_point(), clear_point(), clear_point()]),
{
    let hs = seq![reg_point(s, regs[0]), clear_point(), clear_point(), clear_point()];
    lemma_holds_reg(s, p);
    lemma_holds_reg(s, regs[0]);
    let w = point_qubits(regs[1]) + point_qubits(regs[2]) + point_qubits(regs[3]);
    assert forall|q: u64| point_qubits(regs[1]).contains(q) implies !s(q) by {
        assert(w.contains(q));
    }
    assert forall|q: u64| point_qubits(regs[2]).contains(q) implies !s(q) by {
        assert(w.contains(q));
    }
    assert forall|q: u64| point_qubits(regs[3]).contains(q) implies !s(q) by {
        assert(w.contains(q));
    }
    assert(point_reg_ok(regs[1]) && point_reg_ok(regs[2]) && point_reg_ok(regs[3]));
    super::point_store::lemma_clear_holds(s, regs[1]);
    super::point_store::lemma_clear_holds(s, regs[2]);
    super::point_store::lemma_clear_holds(s, regs[3]);
    assert forall|i: int| 0 <= i < 4 implies holds(s, #[trigger] regs[i], hs[i]) by {}
}

/// A scalar multiplication's final state, with the scratch points clear
/// again, is its end.
pub proof fn lemma_smul_end(
    f: spec_fn(u64) -> bool,
    s: spec_fn(u64) -> bool,
    p: PointRegister,
    regs: Seq<PointRegister>,
    scalar: Seq<QubitId>,
    pool: Set<u64>,
    out: Point,
)
    requires
        smul_regs_ok(p, regs, scalar),
        zero_on(s, pool),
        (point_qubits(regs[1]) + point_qubits(regs[2]) + point_qubits(regs[3])).subset_of(pool),
        smul_state(f, s, p, regs, seq![out, clear_point(), clear_point(), clear_point()]),
        out.x < 32,
        out.y < 32,
    ensures
        forall|q: u64| !point_qubits(regs[0]).contains(q) ==> #[trigger] f(q) == s(q),
        reg_point(f, regs[0]) == out,
{
    let hs = seq![out, clear_point(), clear_point(), clear_point()];
    assert(holds(f, regs[0], hs[0]));
    assert(holds(f, regs[1], hs[1]) && holds(f, regs[2], hs[2]) && holds(f, regs[3], hs[3]));
    assert(point_reg_ok(regs[0]) && point_reg_ok(regs[1]) && point_reg_ok(regs[2]) && point_reg_ok(regs[3]));
    lemma_holds_read(f, regs[0], out);
    let w = point_qubits(regs[1]) + point_qubits(regs[2]) + point_qubits(regs[3]);
    assert forall|q: u64| !point_qubits(regs[0]).contains(q) implies #[trigger] f(q) == s(q) by {
        if point_qubits(regs[1]).contains(q) {
            super::point_store::lemma_holds_clear(f, regs[1], q);
            assert(w.contains(q));
        } else if point_qubits(regs[2]).contains(q) {
            super::point_store::lemma_holds_clear(f, regs[2], q);
            assert(w.contains(q));
        } else if point_qubits(regs[3]).contains(q) {
            super::point_store::lemma_holds_clear(f, regs[3], q);
            assert(w.contains(q));
        } else {
            assert(!smul_written(regs).contains(q));
        }
    }
}

} // verus!
