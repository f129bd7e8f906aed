//! The reversible 5-bit Shor ECDLP oracle: signals, the circuit builder with
//! its F_31 field kernels, and the composition of the oracle from point
//! registers.
pub mod signal;
pub mod semantics;
pub mod builder;
pub mod field_circuits;
pub mod field_arithmetic;
pub mod scalar_api;
pub mod scalar_strategy;
pub mod point_arith;
pub mod point_semantics;
pub mod point_store;
pub mod controlled_add;
pub mod oracle_law;

use builder::{added, distinct_qubits, extends, qubit_set, register_decl_ops, Builder, WIDTH};
use crate::circuit::Op;
use crate::ops_io::VecOpSink;
use scalar_api::ScalarMulContext;
use scalar_strategy::scalar_mul_into;
use semantics::all_reversible;
use crate::circuit::{QubitId, NO_INDEX};
use crate::ops_io::OpSink;
use semantics::ops_within;
use signal::{all_within, const_bits, eval, qubit_signals, support, supports, Signal, SignalKind};
use point_semantics::{add_state, add_traced, reg_point, swap_pairs, xor_point, xor_point_bits};
use controlled_add::{cadd_done, in_group};
use signal::{qubits_value, value_of};
use crate::curve::{generator_spec, infinity_point, oracle_point_spec};
use builder::effect;
use point_arith::{doubling_flag, inverse_flag, point_add_circuit, point_neg_circuit};
use semantics::{run, zero_on};
use vstd::prelude::*;

verus! {

/// A curve point held in qubits: five bits of x and of y, least significant
/// first, and the flag of the point at infinity.
pub struct PointRegister {
    pub x: Vec<QubitId>,
    pub y: Vec<QubitId>,
    pub inf: QubitId,
}

/// A curve point as signals: five bits of x and of y and the infinity flag.
pub struct PointValue {
    pub x: Vec<Signal>,
    pub y: Vec<Signal>,
    pub inf: Signal,
}

/// The qubits of a point register in order: x, y, then the flag.
pub open spec fn point_seq(p: PointRegister) -> Seq<QubitId> {
    p.x@ + p.y@ + seq![p.inf]
}

/// The qubits of a point register.
pub open spec fn point_qubits(p: PointRegister) -> Set<u64> {
    qubit_set(point_seq(p))
}

/// A point register has five x and five y qubits and no qubit twice.
pub open spec fn point_reg_ok(p: PointRegister) -> bool {
    &&& p.x@.len() == WIDTH
    &&& p.y@.len() == WIDTH
    &&& distinct_qubits(point_seq(p))
}

/// A point register that is well shaped and live: none of its qubits is free.
pub open spec fn point_live(pool: Set<u64>, p: PointRegister) -> bool {
    point_reg_ok(p) && point_qubits(p).disjoint(pool)
}

/// A point value has five x and five y signals, all reading qubits of `x`.
pub open spec fn value_within(v: PointValue, x: Set<u64>) -> bool {
    &&& v.x@.len() == WIDTH
    &&& v.y@.len() == WIDTH
    &&& all_within(v.x@, x)
    &&& all_within(v.y@, x)
    &&& support(v.inf).subset_of(x)
}

/// The parts of a well-shaped register: its x qubits, its y qubits and its
/// flag, each distinct from the others.
pub proof fn lemma_point_parts(p: PointRegister)
    requires
        point_reg_ok(p),
    ensures
        point_qubits(p) == qubit_set(p.x@) + qubit_set(p.y@) + set![p.inf.0],
        distinct_qubits(p.x@),
        distinct_qubits(p.y@),
        qubit_set(p.x@).disjoint(qubit_set(p.y@)),
        !qubit_set(p.x@).contains(p.inf.0),
        !qubit_set(p.y@).contains(p.inf.0),
{
    let s = point_seq(p);
    assert forall|i: int| 0 <= i < 5 implies #[trigger] s[i] == p.x@[i] && s[i + 5] == p.y@[i] by {}
    assert(s[10] == p.inf);
    assert forall|q: u64| #[trigger] point_qubits(p).contains(q) == (qubit_set(p.x@) + qubit_set(p.y@) + set![p.inf.0]).contains(q) by {
        if point_qubits(p).contains(q) {
            let i = choose|i: int| 0 <= i < s.len() && (#[trigger] s[i]).0 == q;
            if i < 5 {
                assert(p.x@[i].0 == q);
            } else if i < 10 {
                assert(p.y@[i - 5].0 == q);
            }
        }
        if qubit_set(p.x@).contains(q) {
            let i = choose|i: int| 0 <= i < p.x@.len() && (#[trigger] p.x@[i]).0 == q;
            assert(s[i].0 == q);
        }
        if qubit_set(p.y@).contains(q) {
            let i = choose|i: int| 0 <= i < p.y@.len() && (#[trigger] p.y@[i]).0 == q;
            assert(s[i + 5].0 == q);
        }
    }
    assert(point_qubits(p) =~= qubit_set(p.x@) + qubit_set(p.y@) + set![p.inf.0]);
    assert forall|i: int, j: int| 0 <= i < j < p.x@.len() implies p.x@[i] != p.x@[j] by {
        assert(s[i] != s[j]);
    }
    assert forall|i: int, j: int| 0 <= i < j < p.y@.len() implies p.y@[i] != p.y@[j] by {
        assert(s[i + 5] != s[j + 5]);
    }
    assert forall|q: u64| qubit_set(p.x@).contains(q) implies !qubit_set(p.y@).contains(q) by {
        let i = choose|i: int| 0 <= i < p.x@.len() && (#[trigger] p.x@[i]).0 == q;
        if qubit_set(p.y@).contains(q) {
            let j = choose|j: int| 0 <= j < p.y@.len() && (#[trigger] p.y@[j]).0 == q;
            assert(s[i] != s[j + 5]);
        }
    }
    if qubit_set(p.x@).contains(p.inf.0) {
        let i = choose|i: int| 0 <= i < p.x@.len() && (#[trigger] p.x@[i]).0 == p.inf.0;
        assert(s[i] != s[10]);
    }
    if qubit_set(p.y@).contains(p.inf.0) {
        let i = choose|i: int| 0 <= i < p.y@.len() && (#[trigger] p.y@[i]).0 == p.inf.0;
        assert(s[i + 5] != s[10]);
    }
}

/// A register's x qubits, y qubits and flag are among its qubits.
pub proof fn lemma_point_covers(p: PointRegister)
    ensures
        qubit_set(p.x@).subset_of(point_qubits(p)),
        qubit_set(p.y@).subset_of(point_qubits(p)),
        point_qubits(p).contains(p.inf.0),
{
    let s = point_seq(p);
    assert forall|q: u64| qubit_set(p.x@).contains(q) implies point_qubits(p).contains(q) by {
        let i = choose|i: int| 0 <= i < p.x@.len() && (#[trigger] p.x@[i]).0 == q;
        assert(s[i] == p.x@[i]);
    }
    assert forall|q: u64| qubit_set(p.y@).contains(q) implies point_qubits(p).contains(q) by {
        let i = choose|i: int| 0 <= i < p.y@.len() && (#[trigger] p.y@[i]).0 == q;
        assert(s[i + p.x@.len() as int] == p.y@[i]);
    }
    assert(s[(p.x@.len() + p.y@.len()) as int] == p.inf);
}

/// A copy of a sequence of qubit identifiers.
pub fn copy_qubits(v: &[QubitId]) -> (out: Vec<QubitId>)
    ensures
        out@ == v@,
{
    let mut out: Vec<QubitId> = Vec::new();
    let mut i: usize = 0;
    while i < v.len()
        invariant
            0 <= i <= v@.len(),
            out@ == v@.subrange(0, i as int),
        decreases v@.len() - i,
    {
        out.push(v[i]);
        proof {
            assert(out@ =~= v@.subrange(0, i + 1));
        }
        i = i + 1;
    }
    proof {
        assert(out@ =~= v@);
    }
    out
}

/// Another register naming the same qubits.
pub fn copy_register(p: &PointRegister) -> (c: PointRegister)
    ensures
        c@ == p@,
{
    PointRegister { x: copy_qubits(&p.x), y: copy_qubits(&p.y), inf: p.inf }
}

impl View for PointRegister {
    type V = (Seq<QubitId>, Seq<QubitId>, QubitId);

    open spec fn view(&self) -> (Seq<QubitId>, Seq<QubitId>, QubitId) {
        (self.x@, self.y@, self.inf)
    }
}

/// Concatenating qubit sequences with no qubit in common keeps them
/// distinct, and the qubits of the whole are those of the parts.
pub proof fn lemma_distinct_concat(a: Seq<QubitId>, b: Seq<QubitId>)
    requires
        distinct_qubits(a),
        distinct_qubits(b),
        qubit_set(a).disjoint(qubit_set(b)),
    ensures
        distinct_qubits(a + b),
        qubit_set(a + b) == qubit_set(a) + qubit_set(b),
{
    let c = a + b;
    assert forall|i: int, j: int| 0 <= i < j < c.len() implies c[i] != c[j] by {
        if j < a.len() {
            assert(c[i] == a[i] && c[j] == a[j]);
        } else if i >= a.len() {
            assert(c[i] == b[i - a.len()] && c[j] == b[j - a.len()]);
        } else {
            assert(c[i] == a[i] && c[j] == b[j - a.len()]);
            assert(qubit_set(a).contains(a[i].0));
            assert(qubit_set(b).contains(b[j - a.len()].0));
        }
    }
    assert forall|q: u64| #[trigger] qubit_set(c).contains(q) == (qubit_set(a) + qubit_set(b)).contains(q) by {
        if qubit_set(c).contains(q) {
            let i = choose|i: int| 0 <= i < c.len() && (#[trigger] c[i]).0 == q;
            if i < a.len() {
                assert(a[i] == c[i]);
            } else {
                assert(b[i - a.len()] == c[i]);
            }
        }
        if qubit_set(a).contains(q) {
            let i = choose|i: int| 0 <= i < a.len() && (#[trigger] a[i]).0 == q;
            assert(c[i] == a[i]);
        }
        if qubit_set(b).contains(q) {
            let i = choose|i: int| 0 <= i < b.len() && (#[trigger] b[i]).0 == q;
            assert(c[i + a.len()] == b[i]);
        }
    }
    assert(qubit_set(c) =~= qubit_set(a) + qubit_set(b));
}

/// The qubits a point value reads.
pub open spec fn value_support(v: PointValue) -> Set<u64> {
    supports(v.x@) + supports(v.y@) + support(v.inf)
}

/// A point value within `x` reads only qubits of `x`.
pub proof fn lemma_value_support(v: PointValue, x: Set<u64>)
    requires
        value_within(v, x),
    ensures
        value_support(v).subset_of(x),
{
    signal::lemma_supports(v.x@);
    signal::lemma_supports(v.y@);
}

/// Takes a point register's eleven qubits from the pool.
pub fn hold_point<S: OpSink>(builder: &mut Builder<S>) -> (p: PointRegister)
    requires
        old(builder).wf(),
    ensures
        old(builder).step(final(builder)),
        final(builder).emitted() == old(builder).emitted(),
        p.x@.len() == WIDTH,
        p.y@.len() == WIDTH,
        !final(builder).failed() ==> point_reg_ok(p) && point_qubits(p).subset_of(old(builder).pool())
            && final(builder).pool() == old(builder).pool() - point_qubits(p),
{
    let ghost b0 = *builder;
    let x = builder.hold_qubits(WIDTH);
    let ghost b1 = *builder;
    let y = builder.hold_qubits(WIDTH);
    let ghost b2 = *builder;
    let f = builder.hold_qubits(1);
    let inf = f[0];
    proof {
        Builder::lemma_step_trans(&b0, &b1, &b2);
        Builder::lemma_step_trans(&b0, &b2, builder);
    }
    let p = PointRegister { x, y, inf };
    proof {
        if !builder.failed() {
            assert(qubit_set(x@).disjoint(qubit_set(y@))) by {
                assert forall|q: u64| qubit_set(y@).contains(q) implies !qubit_set(x@).contains(q) by {
                    let i = choose|i: int| 0 <= i < y@.len() && (#[trigger] y@[i]).0 == q;
                    assert(b1.pool().contains(y@[i].0));
                }
            }
            lemma_distinct_concat(x@, y@);
            assert(qubit_set(f@) =~= set![inf.0]) by {
                assert(f@[0] == inf);
            }
            assert(qubit_set(x@ + y@).disjoint(qubit_set(f@))) by {
                assert(b2.pool().contains(f@[0].0));
            }
            assert(distinct_qubits(seq![inf]));
            assert(f@ =~= seq![inf]);
            lemma_distinct_concat(x@ + y@, f@);
            assert(point_seq(p) =~= x@ + y@ + f@);
            assert(builder.pool() =~= b0.pool() - point_qubits(p));
        }
    }
    p
}

/// Returns a point register's qubits to the pool.
pub fn release_point<S: OpSink>(builder: &mut Builder<S>, p: PointRegister)
    requires
        old(builder).wf(),
        !old(builder).failed() ==> point_reg_ok(p) && point_qubits(p).disjoint(old(builder).pool()),
    ensures
        old(builder).step(final(builder)),
        final(builder).emitted() == old(builder).emitted(),
        final(builder).failed() == old(builder).failed(),
        !final(builder).failed() ==> final(builder).pool() == old(builder).pool() + point_qubits(p),
{
    let ghost b0 = *builder;
    let ghost pp = p;
    proof {
        if !builder.failed() {
            lemma_point_parts(p);
        }
    }
    let PointRegister { x, y, inf } = p;
    builder.release_hold_qubits(x);
    let ghost b1 = *builder;
    builder.release_hold_qubits(y);
    let ghost b2 = *builder;
    let mut f: Vec<QubitId> = Vec::new();
    f.push(inf);
    proof {
        if !builder.failed() {
            assert(f@ =~= seq![inf]);
            assert(qubit_set(f@) =~= set![inf.0]) by {
                assert(f@[0] == inf);
            }
        }
    }
    builder.release_hold_qubits(f);
    proof {
        Builder::lemma_step_trans(&b0, &b1, &b2);
        Builder::lemma_step_trans(&b0, &b2, builder);
        if !builder.failed() {
            assert(builder.pool() =~= b0.pool() + point_qubits(pp));
        }
    }
}

/// The signals reading a point register.
pub fn held_point(register: &PointRegister) -> (v: PointValue)
    ensures
        v.x@.len() == register.x@.len(),
        v.y@.len() == register.y@.len(),
        forall|i: int| 0 <= i < v.x@.len() ==> #[trigger] v.x@[i] == Signal(SignalKind::Qubit(register.x@[i])),
        forall|i: int| 0 <= i < v.y@.len() ==> #[trigger] v.y@[i] == Signal(SignalKind::Qubit(register.y@[i])),
        v.inf == Signal(SignalKind::Qubit(register.inf)),
        register.x@.len() == WIDTH && register.y@.len() == WIDTH ==> value_within(v, point_qubits(*register)),
{
    let v = PointValue {
        x: qubit_signals(&register.x),
        y: qubit_signals(&register.y),
        inf: Signal::qubit(register.inf),
    };
    proof {
        lemma_point_covers(*register);
        field_circuits::lemma_qubit_sigs_support(register.x@, v.x@);
        field_circuits::lemma_qubit_sigs_support(register.y@, v.y@);
        signal::lemma_supports(v.x@);
        signal::lemma_supports(v.y@);
        assert(support(v.inf) =~= set![register.inf.0]);
    }
    v
}

/// The constant point value with coordinates `x`, `y` and flag `inf`.
pub fn point_const(x: u16, y: u16, inf: bool) -> (v: PointValue)
    ensures
        forall|i: int| 0 <= i < WIDTH ==> #[trigger] v.x@[i] == Signal(SignalKind::Const(signal::nat_bit(x as nat, i as nat))),
        forall|i: int| 0 <= i < WIDTH ==> #[trigger] v.y@[i] == Signal(SignalKind::Const(signal::nat_bit(y as nat, i as nat))),
        v.inf == Signal(SignalKind::Const(inf)),
        value_within(v, Set::empty()),
{
    let v = PointValue { x: const_bits(x, WIDTH), y: const_bits(y, WIDTH), inf: Signal::constant(inf) };
    proof {
        assert forall|i: int| 0 <= i < v.x@.len() implies #[trigger] support(v.x@[i]).subset_of(Set::empty()) by {
            assert(support(v.x@[i]) =~= Set::empty());
        }
        assert forall|i: int| 0 <= i < v.y@.len() implies #[trigger] support(v.y@[i]).subset_of(Set::empty()) by {
            assert(support(v.y@[i]) =~= Set::empty());
        }
    }
    v
}

/// `when_true` where `selector` holds, else `when_false`, coordinate by
/// coordinate.
pub fn mux_point<S: OpSink>(
    builder: &mut Builder<S>,
    selector: &Signal,
    when_true: &PointValue,
    when_false: &PointValue,
    Ghost(x): Ghost<Set<u64>>,
) -> (v: PointValue)
    requires
        value_within(*when_true, x),
        value_within(*when_false, x),
    ensures
        *final(builder) == *old(builder),
        value_within(v, support(*selector) + x),
        forall|i: int, s: spec_fn(u64) -> bool|
            0 <= i < WIDTH ==> #[trigger] eval(v.x@[i], s) == if eval(*selector, s) {
                eval(when_true.x@[i], s)
            } else {
                eval(when_false.x@[i], s)
            },
        forall|i: int, s: spec_fn(u64) -> bool|
            0 <= i < WIDTH ==> #[trigger] eval(v.y@[i], s) == if eval(*selector, s) {
                eval(when_true.y@[i], s)
            } else {
                eval(when_false.y@[i], s)
            },
        forall|s: spec_fn(u64) -> bool| #[trigger] eval(v.inf, s) == if eval(*selector, s) {
            eval(when_true.inf, s)
        } else {
            eval(when_false.inf, s)
        },
{
    let vx = builder.mux_bits(selector.dup(), &when_true.x, &when_false.x);
    let vy = builder.mux_bits(selector.dup(), &when_true.y, &when_false.y);
    let inf = builder.mux(selector.dup(), when_true.inf.dup(), when_false.inf.dup());
    let v = PointValue { x: vx, y: vy, inf };
    proof {
        signal::lemma_supports(when_true.x@);
        signal::lemma_supports(when_false.x@);
        signal::lemma_supports(when_true.y@);
        signal::lemma_supports(when_false.y@);
        assert(supports(when_true.x@).subset_of(x));
        assert(supports(when_false.x@).subset_of(x));
        assert(supports(when_true.y@).subset_of(x));
        assert(supports(when_false.y@).subset_of(x));
        assert forall|i: int| 0 <= i < v.x@.len() implies #[trigger] support(v.x@[i]).subset_of(support(*selector) + x) by {
            assert(support(v.x@[i]).subset_of(support(*selector) + supports(when_true.x@) + supports(when_false.x@)));
        }
        assert forall|i: int| 0 <= i < v.y@.len() implies #[trigger] support(v.y@[i]).subset_of(support(*selector) + x) by {
            assert(support(v.y@[i]).subset_of(support(*selector) + supports(when_true.y@) + supports(when_false.y@)));
        }
    }
    v
}

/// XORs a point value into a point register: x, y and the flag.
pub fn copy_point<S: OpSink>(builder: &mut Builder<S>, v: &PointValue, target: &PointRegister)
    requires
        old(builder).wf(),
        v.x@.len() == WIDTH,
        v.y@.len() == WIDTH,
        target.x@.len() == WIDTH,
        target.y@.len() == WIDTH,
        !old(builder).failed() ==> point_live(old(builder).pool(), *target) && value_support(
            *v,
        ).disjoint(old(builder).pool()) && value_support(*v).disjoint(point_qubits(*target)),
    ensures
        old(builder).pure_step(final(builder), value_support(*v) + point_qubits(*target)),
        !final(builder).failed() ==> effect(
            added(old(builder).emitted(), final(builder).emitted()),
            old(builder).pool(),
            |s: spec_fn(u64) -> bool|
                xor_point_bits(s, *target, value_of(v.x@, 5, s), value_of(v.y@, 5, s), eval(v.inf, s)),
        ),
{
    let ghost a = value_support(*v) + point_qubits(*target);
    let ghost b0 = *builder;
    proof {
        signal::lemma_supports(v.x@);
        signal::lemma_supports(v.y@);
        if !builder.failed() {
            lemma_point_parts(*target);
            assert(target.x@.subrange(0, 5) =~= target.x@);
            assert(target.y@.subrange(0, 5) =~= target.y@);
            assert forall|i: int| 0 <= i < 5 implies qubit_set(target.x@).contains(#[trigger] target.x@[i].0) by {}
            assert forall|i: int| 0 <= i < 5 implies qubit_set(target.y@).contains(#[trigger] target.y@[i].0) by {}
            assert forall|i: int, j: int| 0 <= i < 5 && 0 <= j < 5 implies !support(#[trigger] v.x@[i]).contains(#[trigger] target.x@[j].0) by {
                assert(support(v.x@[i]).subset_of(supports(v.x@)));
                assert(supports(v.x@).subset_of(value_support(*v)));
                assert(qubit_set(target.x@).contains(target.x@[j].0));
                assert(point_qubits(*target).contains(target.x@[j].0));
            }
            assert forall|i: int| 0 <= i < 5 implies support(#[trigger] v.x@[i]).disjoint(builder.pool()) by {
                assert(support(v.x@[i]).subset_of(supports(v.x@)));
            }
            assert(builder::xor_targets_ok(builder.pool(), v.x@, target.x@, 5));
        }
    }
    builder.copy_bits_ops(&v.x, &target.x);
    let ghost b1 = *builder;
    proof {
        if !builder.failed() {
            assert forall|i: int, j: int| 0 <= i < 5 && 0 <= j < 5 implies !support(#[trigger] v.y@[i]).contains(#[trigger] target.y@[j].0) by {
                assert(support(v.y@[i]).subset_of(supports(v.y@)));
                assert(supports(v.y@).subset_of(value_support(*v)));
                assert(qubit_set(target.y@).contains(target.y@[j].0));
                assert(point_qubits(*target).contains(target.y@[j].0));
            }
            assert forall|i: int| 0 <= i < 5 implies support(#[trigger] v.y@[i]).disjoint(builder.pool()) by {
                assert(support(v.y@[i]).subset_of(supports(v.y@)));
            }
            assert(builder::xor_targets_ok(builder.pool(), v.y@, target.y@, 5));
        }
    }
    builder.copy_bits_ops(&v.y, &target.y);
    let ghost b2 = *builder;
    proof {
        if !builder.failed() {
            lemma_point_covers(*target);
            assert(support(v.inf).subset_of(value_support(*v)));
            assert(builder::xor_target_ok(builder.pool(), v.inf, target.inf.0));
        }
    }
    builder.xor_signal_into(&v.inf, target.inf);
    proof {
        lemma_point_covers(*target);
        Builder::lemma_pure_step_widen(&b0, &b1, supports(v.x@) + qubit_set(target.x@), a);
        Builder::lemma_pure_step_widen(&b1, &b2, supports(v.y@) + qubit_set(target.y@), a);
        Builder::lemma_pure_step_widen(&b2, builder, support(v.inf).insert(target.inf.0), a);
        Builder::lemma_pure_step_trans(&b0, &b1, &b2, a);
        Builder::lemma_pure_step_trans(&b0, &b2, builder, a);
        if !builder.failed() {
            let a1 = added(b0.emitted(), b1.emitted());
            let a2 = added(b1.emitted(), b2.emitted());
            let a3 = added(b2.emitted(), builder.emitted());
            let p = b0.pool();
            builder::lemma_extends_trans(b0.emitted(), b1.emitted(), b2.emitted());
            builder::lemma_extends_trans(b0.emitted(), b2.emitted(), builder.emitted());
            lemma_point_parts(*target);
            assert forall|s: spec_fn(u64) -> bool| zero_on(s, p) implies #[trigger] run(
                added(b0.emitted(), builder.emitted()),
                s,
            ) == xor_point_bits(s, *target, value_of(v.x@, 5, s), value_of(v.y@, 5, s), eval(v.inf, s)) by {
                let x = value_of(v.x@, 5, s);
                point_semantics::lemma_copy_bits_value(s, target.x@, v.x@);
                let s1 = field_circuits::xor_bits_of(s, target.x@, x, 5);
                assert forall|q: u64| !qubit_set(target.x@).contains(q) implies s1(q) == s(q) by {
                    assert forall|i: int| 0 <= i < 5 implies (#[trigger] target.x@[i]).0 != q by {
                        assert(qubit_set(target.x@).contains(target.x@[i].0));
                    }
                    field_circuits::lemma_xor_bits_outside(s, target.x@, x, 5, q);
                }
                assert(zero_on(s1, p));
                assert(run(a1, s) == s1);
                point_semantics::lemma_value_frame(v.y@, s1, s);
                let y = value_of(v.y@, 5, s);
                point_semantics::lemma_copy_bits_value(s1, target.y@, v.y@);
                let s2 = field_circuits::xor_bits_of(s1, target.y@, y, 5);
                assert forall|q: u64| !qubit_set(target.y@).contains(q) implies s2(q) == s1(q) by {
                    assert forall|i: int| 0 <= i < 5 implies (#[trigger] target.y@[i]).0 != q by {
                        assert(qubit_set(target.y@).contains(target.y@[i].0));
                    }
                    field_circuits::lemma_xor_bits_outside(s1, target.y@, y, 5, q);
                }
                assert(zero_on(s2, p));
                assert(run(a2, s1) == s2);
                signal::lemma_eval_frame(v.inf, s2, s);
                assert(run(a3, s2) == semantics::flip(s2, target.inf.0, eval(v.inf, s)));
                semantics::lemma_run_append(a1, a2, s);
                semantics::lemma_run_append(a1 + a2, a3, s);
            }
        }
    }
}

/// Exchanges the qubits of two point registers, position by position.
pub fn swap_points<S: OpSink>(builder: &mut Builder<S>, left: &PointRegister, right: &PointRegister)
    requires
        old(builder).wf(),
        left.x@.len() == WIDTH,
        left.y@.len() == WIDTH,
        right.x@.len() == WIDTH,
        right.y@.len() == WIDTH,
    ensures
        old(builder).step(final(builder)),
        final(builder).pool() == old(builder).pool(),
        ops_within(added(old(builder).emitted(), final(builder).emitted()), point_qubits(*left) + point_qubits(*right)),
        !final(builder).failed() ==> forall|s: spec_fn(u64) -> bool| #[trigger] run(
            added(old(builder).emitted(), final(builder).emitted()),
            s,
        ) == swap_pairs(s, point_seq(*left), point_seq(*right), 11),
{
    let ghost a = point_qubits(*left) + point_qubits(*right);
    proof {
        builder.lemma_step_refl();
        builder::lemma_added_none(builder.emitted());
    }
    let mut i: usize = 0;
    while i < WIDTH
        invariant
            0 <= i <= WIDTH,
            left.x@.len() == WIDTH,
            right.x@.len() == WIDTH,
            old(builder).step(builder),
            builder.pool() == old(builder).pool(),
            a == point_qubits(*left) + point_qubits(*right),
            ops_within(added(old(builder).emitted(), builder.emitted()), a),
            !builder.failed() ==> forall|s: spec_fn(u64) -> bool| #[trigger] run(
                added(old(builder).emitted(), builder.emitted()),
                s,
            ) == swap_pairs(s, point_seq(*left), point_seq(*right), i as nat),
        decreases WIDTH - i,
    {
        let ghost mid = *builder;
        builder.swap(left.x[i], right.x[i]);
        proof {
            Builder::lemma_step_trans(old(builder), &mid, builder);
            assert(point_seq(*left)[i as int] == left.x@[i as int]);
            assert(point_seq(*right)[i as int] == right.x@[i as int]);
            assert(point_qubits(*left).contains(left.x@[i as int].0));
            assert(point_qubits(*right).contains(right.x@[i as int].0));
            builder::lemma_ops_within_mono(added(mid.emitted(), builder.emitted()), set![left.x@[i as int].0, right.x@[i as int].0], a);
            builder::lemma_ops_within_concat(added(old(builder).emitted(), mid.emitted()), added(mid.emitted(), builder.emitted()), a);
            if !builder.failed() {
                let pre = added(old(builder).emitted(), mid.emitted());
                let now = added(old(builder).emitted(), builder.emitted());
                if left.x@[i as int] != right.x@[i as int] {
                    assert(now =~= pre.push(Builder::<S>::swap_gate(left.x@[i as int], right.x@[i as int])));
                    assert(now.drop_last() =~= pre);
                } else {
                    assert(now =~= pre);
                }
                point_semantics::lemma_swap_step(pre, now, point_seq(*left), point_seq(*right), i as nat);
            }
        }
        i = i + 1;
    }
    let mut i: usize = 0;
    while i < WIDTH
        invariant
            0 <= i <= WIDTH,
            left.x@.len() == WIDTH,
            right.x@.len() == WIDTH,
            left.y@.len() == WIDTH,
            right.y@.len() == WIDTH,
            old(builder).step(builder),
            builder.pool() == old(builder).pool(),
            a == point_qubits(*left) + point_qubits(*right),
            ops_within(added(old(builder).emitted(), builder.emitted()), a),
            !builder.failed() ==> forall|s: spec_fn(u64) -> bool| #[trigger] run(
                added(old(builder).emitted(), builder.emitted()),
                s,
            ) == swap_pairs(s, point_seq(*left), point_seq(*right), 5 + i as nat),
        decreases WIDTH - i,
    {
        let ghost mid = *builder;
        builder.swap(left.y[i], right.y[i]);
        proof {
            Builder::lemma_step_trans(old(builder), &mid, builder);
            assert(point_seq(*left)[i + 5] == left.y@[i as int]);
            assert(point_seq(*right)[i + 5] == right.y@[i as int]);
            assert(point_qubits(*left).contains(left.y@[i as int].0));
            assert(point_qubits(*right).contains(right.y@[i as int].0));
            builder::lemma_ops_within_mono(added(mid.emitted(), builder.emitted()), set![left.y@[i as int].0, right.y@[i as int].0], a);
            builder::lemma_ops_within_concat(added(old(builder).emitted(), mid.emitted()), added(mid.emitted(), builder.emitted()), a);
            if !builder.failed() {
                let pre = added(old(builder).emitted(), mid.emitted());
                let now = added(old(builder).emitted(), builder.emitted());
                if left.y@[i as int] != right.y@[i as int] {
                    assert(now =~= pre.push(Builder::<S>::swap_gate(left.y@[i as int], right.y@[i as int])));
                    assert(now.drop_last() =~= pre);
                } else {
                    assert(now =~= pre);
                }
                point_semantics::lemma_swap_step(pre, now, point_seq(*left), point_seq(*right), 5 + i as nat);
            }
        }
        i = i + 1;
    }
    let ghost mid = *builder;
    builder.swap(left.inf, right.inf);
    proof {
        Builder::lemma_step_trans(old(builder), &mid, builder);
        assert(point_seq(*left)[10] == left.inf);
        assert(point_seq(*right)[10] == right.inf);
        assert(point_qubits(*left).contains(left.inf.0));
        assert(point_qubits(*right).contains(right.inf.0));
        builder::lemma_ops_within_mono(added(mid.emitted(), builder.emitted()), set![left.inf.0, right.inf.0], a);
        builder::lemma_ops_within_concat(added(old(builder).emitted(), mid.emitted()), added(mid.emitted(), builder.emitted()), a);
        if !builder.failed() {
            let pre = added(old(builder).emitted(), mid.emitted());
            let now = added(old(builder).emitted(), builder.emitted());
            if left.inf != right.inf {
                assert(now =~= pre.push(Builder::<S>::swap_gate(left.inf, right.inf)));
                assert(now.drop_last() =~= pre);
            } else {
                assert(now =~= pre);
            }
            point_semantics::lemma_swap_step(pre, now, point_seq(*left), point_seq(*right), 10);
        }
    }
}

/// Block `k` of a held scratch sequence: its five qubits from `5 k` on.
pub open spec fn block(big: Seq<QubitId>, k: int) -> Seq<QubitId> {
    big.subrange(5 * k, 5 * k + 5)
}

/// The scratch blocks of a point addition: sixteen field values, the sum
/// of the operands' y, and the two case flags.
pub const SCRATCH_BLOCKS: usize = 18;

/// Block `k` of `big`.
fn block_of(big: &Vec<QubitId>, k: usize) -> (out: Vec<QubitId>)
    requires
        5 * k + 5 <= big@.len(),
    ensures
        out@ == block(big@, k as int),
{
    let n = big.len();
    let mut out: Vec<QubitId> = Vec::new();
    let mut i: usize = 0;
    while i < 5
        invariant
            0 <= i <= 5,
            n == big@.len(),
            5 * k + 5 <= big@.len(),
            out@ == big@.subrange(5 * k as int, 5 * k + i),
        decreases 5 - i,
    {
        out.push(big[5 * k + i]);
        proof {
            assert(out@ =~= big@.subrange(5 * k as int, 5 * k + i + 1));
        }
        i = i + 1;
    }
    out
}

/// The blocks of a sequence of eighty qubits lie in it and have five
/// qubits; when its qubits are distinct, so are each block's, and two blocks
/// do not meet.
pub proof fn lemma_blocks(big: Seq<QubitId>)
    requires
        big.len() == 5 * SCRATCH_BLOCKS,
    ensures
        forall|k: int| 0 <= k < SCRATCH_BLOCKS ==> #[trigger] qubit_set(block(big, k)).subset_of(qubit_set(big))
            && block(big, k).len() == 5,
        distinct_qubits(big) ==> forall|k: int| 0 <= k < SCRATCH_BLOCKS ==> #[trigger] distinct_qubits(block(big, k)),
        distinct_qubits(big) ==> forall|j: int, k: int|
            0 <= j < SCRATCH_BLOCKS && 0 <= k < SCRATCH_BLOCKS && j != k ==> #[trigger] qubit_set(block(big, j)).disjoint(
                #[trigger] qubit_set(block(big, k)),
            ),
{
    assert forall|k: int| 0 <= k < SCRATCH_BLOCKS implies #[trigger] qubit_set(block(big, k)).subset_of(qubit_set(big))
        && block(big, k).len() == 5 by {
        let b = block(big, k);
        assert forall|q: u64| qubit_set(b).contains(q) implies qubit_set(big).contains(q) by {
            let i = choose|i: int| 0 <= i < b.len() && (#[trigger] b[i]).0 == q;
            assert(big[5 * k + i] == b[i]);
        }
    }
    if distinct_qubits(big) {
        assert forall|k: int| 0 <= k < SCRATCH_BLOCKS implies #[trigger] distinct_qubits(block(big, k)) by {
            let b = block(big, k);
            assert forall|i: int, j: int| 0 <= i < j < b.len() implies b[i] != b[j] by {
                assert(big[5 * k + i] == b[i]);
                assert(big[5 * k + j] == b[j]);
            }
        }
        assert forall|j: int, k: int|
            0 <= j < SCRATCH_BLOCKS && 0 <= k < SCRATCH_BLOCKS && j != k implies #[trigger] qubit_set(block(big, j)).disjoint(
                #[trigger] qubit_set(block(big, k)),
            ) by {
            assert forall|q: u64| qubit_set(block(big, j)).contains(q) implies !qubit_set(block(big, k)).contains(q) by {
                let a = choose|a: int| 0 <= a < block(big, j).len() && (#[trigger] block(big, j)[a]).0 == q;
                if qubit_set(block(big, k)).contains(q) {
                    let b = choose|b: int| 0 <= b < block(big, k).len() && (#[trigger] block(big, k)[b]).0 == q;
                    assert(big[5 * j + a] == block(big, j)[a]);
                    assert(big[5 * k + b] == block(big, k)[b]);
                    assert(5 * j + a != 5 * k + b);
                }
            }
        }
    }
}

/// A field kernel may write block `k` of the held scratch while it reads
/// live qubits of `ext` and other blocks.
pub proof fn lemma_block_io(pool: Set<u64>, big: Seq<QubitId>, ext: Set<u64>, k: int, reads: Set<u64>)
    requires
        big.len() == 5 * SCRATCH_BLOCKS,
        distinct_qubits(big),
        qubit_set(big).disjoint(pool),
        ext.disjoint(pool),
        ext.disjoint(qubit_set(big)),
        0 <= k < SCRATCH_BLOCKS,
        reads.subset_of(ext + (qubit_set(big) - qubit_set(block(big, k)))),
    ensures
        field_circuits::field_io_ok(pool, reads, block(big, k)),
{
    lemma_blocks(big);
    let b = block(big, k);
    assert(b.subrange(0, 5) =~= b);
    assert forall|i: int| 0 <= i < 5 implies !pool.contains(#[trigger] b[i].0) && !reads.contains(b[i].0) by {
        assert(qubit_set(b).contains(b[i].0));
    }
}

/// Signals that read live qubits of `ext` and other blocks may be XORed into
/// block `k` of the held scratch.
pub proof fn lemma_block_copy(pool: Set<u64>, big: Seq<QubitId>, ext: Set<u64>, k: int, sigs: Seq<Signal>)
    requires
        big.len() == 5 * SCRATCH_BLOCKS,
        distinct_qubits(big),
        qubit_set(big).disjoint(pool),
        ext.disjoint(pool),
        ext.disjoint(qubit_set(big)),
        0 <= k < SCRATCH_BLOCKS,
        sigs.len() == 5,
        all_within(sigs, ext + (qubit_set(big) - qubit_set(block(big, k)))),
    ensures
        builder::xor_targets_ok(pool, sigs, block(big, k), 5),
        supports(sigs).subset_of(ext + qubit_set(big)),
{
    lemma_blocks(big);
    let b = block(big, k);
    assert(b.subrange(0, 5) =~= b);
    signal::lemma_supports(sigs);
    assert forall|i: int| 0 <= i < 5 implies !pool.contains(#[trigger] b[i].0) by {
        assert(qubit_set(b).contains(b[i].0));
    }
    assert forall|i: int, j: int| 0 <= i < 5 && 0 <= j < 5 implies !support(#[trigger] sigs[i]).contains(#[trigger] b[j].0) by {
        assert(qubit_set(b).contains(b[j].0));
        assert(support(sigs[i]).subset_of(ext + (qubit_set(big) - qubit_set(b))));
    }
    assert forall|i: int| 0 <= i < 5 implies support(#[trigger] sigs[i]).disjoint(pool) by {
        assert(support(sigs[i]).subset_of(ext + (qubit_set(big) - qubit_set(b))));
    }
}

/// Two pure steps in turn, the second within a smaller set, form one.
pub proof fn lemma_chain<S: OpSink>(a: &Builder<S>, b: &Builder<S>, c: &Builder<S>, x: Set<u64>, all: Set<u64>)
    requires
        a.pure_step(b, all),
        b.pure_step(c, x),
        x.subset_of(all),
    ensures
        a.pure_step(c, all),
{
    Builder::lemma_pure_step_widen(b, c, x, all);
    Builder::lemma_pure_step_trans(a, b, c, all);
}

/// The qubits an addition's compute phase works with: live operands,
/// distinct held scratch outside the pool, and operands that do not meet
/// the scratch.
pub open spec fn add_scratch_ok(pool: Set<u64>, left: PointRegister, right: PointRegister, big: Seq<QubitId>) -> bool {
    &&& point_qubits(left).disjoint(pool)
    &&& point_qubits(right).disjoint(pool)
    &&& distinct_qubits(big)
    &&& qubit_set(big).disjoint(pool)
    &&& (point_qubits(left) + point_qubits(right)).disjoint(qubit_set(big))
}

/// Steps 0 to 3 of an addition's compute phase. The sum of the operands' y (block 16) and the flags of the inverse case
/// and of doubling (block 17).
fn add_steps_sums_and_flags<S: OpSink>(
    builder: &mut Builder<S>,
    left: &PointRegister,
    right: &PointRegister,
    big: &Vec<QubitId>,
    Ghost(start): Ghost<Seq<Op>>,
)
    requires
        old(builder).wf(),
        left.x@.len() == WIDTH,
        left.y@.len() == WIDTH,
        right.x@.len() == WIDTH,
        right.y@.len() == WIDTH,
        big@.len() == 5 * SCRATCH_BLOCKS,
        !old(builder).failed() ==> add_scratch_ok(old(builder).pool(), *left, *right, big@),
        !old(builder).failed() ==> extends(start, old(builder).emitted()) && add_traced(
            added(start, old(builder).emitted()),
            old(builder).pool() + qubit_set(big@),
            *left,
            *right,
            big@,
            0,
        ),
    ensures
        old(builder).pure_step(final(builder), point_qubits(*left) + point_qubits(*right) + qubit_set(big@)),
        !final(builder).failed() ==> extends(start, final(builder).emitted()) && add_traced(
            added(start, final(builder).emitted()),
            old(builder).pool() + qubit_set(big@),
            *left,
            *right,
            big@,
            3,
        ),
{
    let ghost ext = point_qubits(*left) + point_qubits(*right);
    let ghost all = ext + qubit_set(big@);
    let ghost z = old(builder).pool() + qubit_set(big@);
    let b16 = block_of(big, 16);
    let b17 = block_of(big, 17);
    proof {
        builder.lemma_step_refl();
        Builder::lemma_pure_step_widen(builder, builder, Set::empty(), all);
        lemma_point_covers(*left);
        lemma_point_covers(*right);
        lemma_blocks(big@);
    }
    let ghost before = *builder;
    proof {
        if !builder.failed() {
            lemma_block_io(builder.pool(), big@, ext, 16, qubit_set(left.y@) + qubit_set(right.y@));
        }
    }
    builder.xor_add_mod_into(&left.y, &right.y, &b16);
    proof {
        lemma_chain(old(builder), &before, builder, qubit_set(left.y@) + qubit_set(right.y@) + qubit_set(b16@), all);
        assert(!builder.failed() ==> extends(start, builder.emitted()) && add_traced(
            added(start, builder.emitted()),
            z,
            *left,
            *right,
            big@,
            1,
        )) by {
            if !builder.failed() {
                assert forall|s: spec_fn(u64) -> bool| zero_on(s, z) implies #[trigger] run(
                    added(before.emitted(), builder.emitted()),
                    add_state(*left, *right, big@, s, 0),
                ) == add_state(*left, *right, big@, s, 1) by {
                    point_semantics::lemma_step_ready(*left, *right, big@, s, 0, old(builder).pool());
                    point_semantics::lemma_regs_blocks(big@);
                    assert(b16@ == point_semantics::add_regs(big@)[0]);
                }
                point_semantics::lemma_trace_next(
                    added(start, before.emitted()),
                    added(before.emitted(), builder.emitted()),
                    z,
                    *left,
                    *right,
                    big@,
                    0,
                );
                builder::lemma_extends_trans(start, before.emitted(), builder.emitted());
            }
        }
    }
    let lv = held_point(left);
    let rv = held_point(right);
    let same_x = builder.eq_bits(&lv.x, &rv.x);
    let same_y = builder.eq_bits(&lv.y, &rv.y);
    let not_left_inf = builder.not(lv.inf.dup());
    let not_right_inf = builder.not(rv.inf.dup());
    let neither_inf = builder.and(not_left_inf, not_right_inf);
    let y_sum = qubit_signals(&b16);
    let y_sum_zero = builder.is_zero(&y_sum);
    let same_x_and_neg_y = builder.and(same_x.dup(), y_sum_zero);
    let inverse_case = builder.and(same_x_and_neg_y, neither_inf.dup());
    let same_point_xy = builder.and(same_x, same_y);
    let same_point = builder.and(same_point_xy, neither_inf);
    proof {
        lemma_value_support(lv, point_qubits(*left));
        lemma_value_support(rv, point_qubits(*right));
        field_circuits::lemma_qubit_sigs_support(b16@, y_sum@);
        assert(support(same_point).subset_of(ext));
        assert(support(inverse_case).subset_of(ext + qubit_set(b16@)));
        assert(qubit_set(b17@).contains(b17@[0].0));
        assert(qubit_set(b17@).contains(b17@[1].0));
    }
    let ghost before = *builder;
    builder.xor_signal_into(&inverse_case, b17[0]);
    proof {
        lemma_chain(old(builder), &before, builder, support(inverse_case).insert(b17@[0].0), all);
        assert(!builder.failed() ==> extends(start, builder.emitted()) && add_traced(
            added(start, builder.emitted()),
            z,
            *left,
            *right,
            big@,
            2,
        )) by {
            if !builder.failed() {
                assert forall|s: spec_fn(u64) -> bool| zero_on(s, z) implies #[trigger] run(
                    added(before.emitted(), builder.emitted()),
                    add_state(*left, *right, big@, s, 1),
                ) == add_state(*left, *right, big@, s, 2) by {
                    point_semantics::lemma_step_ready(*left, *right, big@, s, 1, old(builder).pool());
                    point_semantics::lemma_regs_blocks(big@);
                    let t = add_state(*left, *right, big@, s, 1);
                    let l = point_semantics::reg_point(s, *left);
                    let r = point_semantics::reg_point(s, *right);
                    point_semantics::lemma_eq_bits_meaning(lv.x@, rv.x@, left.x@, right.x@, t, eval(same_x, t));
                    point_semantics::lemma_is_zero_meaning(y_sum@, b16@, t, eval(y_sum_zero, t));
                    assert(eval(inverse_case, t) == inverse_flag(l, r));
                    assert(b17@[0] == big@[85]);
                }
                point_semantics::lemma_trace_next(
                    added(start, before.emitted()),
                    added(before.emitted(), builder.emitted()),
                    z,
                    *left,
                    *right,
                    big@,
                    1,
                );
                builder::lemma_extends_trans(start, before.emitted(), builder.emitted());
            }
        }
    }
    let ghost before = *builder;
    builder.xor_signal_into(&same_point, b17[1]);
    proof {
        lemma_chain(old(builder), &before, builder, support(same_point).insert(b17@[1].0), all);
        assert(!builder.failed() ==> extends(start, builder.emitted()) && add_traced(
            added(start, builder.emitted()),
            z,
            *left,
            *right,
            big@,
            3,
        )) by {
            if !builder.failed() {
                assert forall|s: spec_fn(u64) -> bool| zero_on(s, z) implies #[trigger] run(
                    added(before.emitted(), builder.emitted()),
                    add_state(*left, *right, big@, s, 2),
                ) == add_state(*left, *right, big@, s, 3) by {
                    point_semantics::lemma_step_ready(*left, *right, big@, s, 2, old(builder).pool());
                    point_semantics::lemma_regs_blocks(big@);
                    let t = add_state(*left, *right, big@, s, 2);
                    let l = point_semantics::reg_point(s, *left);
                    let r = point_semantics::reg_point(s, *right);
                    point_semantics::lemma_eq_bits_meaning(lv.x@, rv.x@, left.x@, right.x@, t, eval(same_x, t));
                    point_semantics::lemma_eq_bits_meaning(lv.y@, rv.y@, left.y@, right.y@, t, eval(same_y, t));
                    assert(eval(same_point, t) == doubling_flag(l, r));
                    assert(b17@[1] == big@[86]);
                }
                point_semantics::lemma_trace_next(
                    added(start, before.emitted()),
                    added(before.emitted(), builder.emitted()),
                    z,
                    *left,
                    *right,
                    big@,
                    2,
                );
                builder::lemma_extends_trans(start, before.emitted(), builder.emitted());
            }
        }
    }
}

/// Steps 3 to 5 of an addition's compute phase. The chord's differences `y_r - y_l` and `x_r - x_l` (blocks 0 and 1).
fn add_steps_chord_differences<S: OpSink>(
    builder: &mut Builder<S>,
    left: &PointRegister,
    right: &PointRegister,
    big: &Vec<QubitId>,
    Ghost(start): Ghost<Seq<Op>>,
)
    requires
        old(builder).wf(),
        left.x@.len() == WIDTH,
        left.y@.len() == WIDTH,
        right.x@.len() == WIDTH,
        right.y@.len() == WIDTH,
        big@.len() == 5 * SCRATCH_BLOCKS,
        !old(builder).failed() ==> add_scratch_ok(old(builder).pool(), *left, *right, big@),
        !old(builder).failed() ==> extends(start, old(builder).emitted()) && add_traced(
            added(start, old(builder).emitted()),
            old(builder).pool() + qubit_set(big@),
            *left,
            *right,
            big@,
            3,
        ),
    ensures
        old(builder).pure_step(final(builder), point_qubits(*left) + point_qubits(*right) + qubit_set(big@)),
        !final(builder).failed() ==> extends(start, final(builder).emitted()) && add_traced(
            added(start, final(builder).emitted()),
            old(builder).pool() + qubit_set(big@),
            *left,
            *right,
            big@,
            5,
        ),
{
    let ghost ext = point_qubits(*left) + point_qubits(*right);
    let ghost all = ext + qubit_set(big@);
    let ghost z = old(builder).pool() + qubit_set(big@);
    let b0 = block_of(big, 0);
    let b1 = block_of(big, 1);
    proof {
        builder.lemma_step_refl();
        Builder::lemma_pure_step_widen(builder, builder, Set::empty(), all);
        lemma_point_covers(*left);
        lemma_point_covers(*right);
        lemma_blocks(big@);
    }
    let ghost before = *builder;
    proof {
        if !builder.failed() {
            lemma_block_io(builder.pool(), big@, ext, 0, qubit_set(right.y@) + qubit_set(left.y@));
        }
    }
    builder.xor_sub_mod_into(&right.y, &left.y, &b0);
    proof {
        lemma_chain(old(builder), &before, builder, qubit_set(right.y@) + qubit_set(left.y@) + qubit_set(b0@), all);
        assert(!builder.failed() ==> extends(start, builder.emitted()) && add_traced(
            added(start, builder.emitted()),
            z,
            *left,
            *right,
            big@,
            4,
        )) by {
            if !builder.failed() {
                assert forall|s: spec_fn(u64) -> bool| zero_on(s, z) implies #[trigger] run(
                    added(before.emitted(), builder.emitted()),
                    add_state(*left, *right, big@, s, 3),
                ) == add_state(*left, *right, big@, s, 4) by {
                    point_semantics::lemma_step_ready(*left, *right, big@, s, 3, old(builder).pool());
                    point_semantics::lemma_regs_blocks(big@);
                    assert(b0@ == point_semantics::add_regs(big@)[1]);
                }
                point_semantics::lemma_trace_next(
                    added(start, before.emitted()),
                    added(before.emitted(), builder.emitted()),
                    z,
                    *left,
                    *right,
                    big@,
                    3,
                );
                builder::lemma_extends_trans(start, before.emitted(), builder.emitted());
            }
        }
    }
    let ghost before = *builder;
    proof {
        if !builder.failed() {
            lemma_block_io(builder.pool(), big@, ext, 1, qubit_set(right.x@) + qubit_set(left.x@));
        }
    }
    builder.xor_sub_mod_into(&right.x, &left.x, &b1);
    proof {
        lemma_chain(old(builder), &before, builder, qubit_set(right.x@) + qubit_set(left.x@) + qubit_set(b1@), all);
        assert(!builder.failed() ==> extends(start, builder.emitted()) && add_traced(
            added(start, builder.emitted()),
            z,
            *left,
            *right,
            big@,
            5,
        )) by {
            if !builder.failed() {
                assert forall|s: spec_fn(u64) -> bool| zero_on(s, z) implies #[trigger] run(
                    added(before.emitted(), builder.emitted()),
                    add_state(*left, *right, big@, s, 4),
                ) == add_state(*left, *right, big@, s, 5) by {
                    point_semantics::lemma_step_ready(*left, *right, big@, s, 4, old(builder).pool());
                    point_semantics::lemma_regs_blocks(big@);
                    assert(b1@ == point_semantics::add_regs(big@)[2]);
                }
                point_semantics::lemma_trace_next(
                    added(start, before.emitted()),
                    added(before.emitted(), builder.emitted()),
                    z,
                    *left,
                    *right,
                    big@,
                    4,
                );
                builder::lemma_extends_trans(start, before.emitted(), builder.emitted());
            }
        }
    }
}

/// Steps 5 to 8 of an addition's compute phase. The chord slope: the inverse of `x_r - x_l` and its product with
/// `y_r - y_l` (blocks 2 and 3), and `x_l^2` (block 4).
fn add_steps_chord_slope<S: OpSink>(
    builder: &mut Builder<S>,
    left: &PointRegister,
    right: &PointRegister,
    big: &Vec<QubitId>,
    Ghost(start): Ghost<Seq<Op>>,
)
    requires
        old(builder).wf(),
        left.x@.len() == WIDTH,
        left.y@.len() == WIDTH,
        right.x@.len() == WIDTH,
        right.y@.len() == WIDTH,
        big@.len() == 5 * SCRATCH_BLOCKS,
        !old(builder).failed() ==> add_scratch_ok(old(builder).pool(), *left, *right, big@),
        !old(builder).failed() ==> extends(start, old(builder).emitted()) && add_traced(
            added(start, old(builder).emitted()),
            old(builder).pool() + qubit_set(big@),
            *left,
            *right,
            big@,
            5,
        ),
    ensures
        old(builder).pure_step(final(builder), point_qubits(*left) + point_qubits(*right) + qubit_set(big@)),
        !final(builder).failed() ==> extends(start, final(builder).emitted()) && add_traced(
            added(start, final(builder).emitted()),
            old(builder).pool() + qubit_set(big@),
            *left,
            *right,
            big@,
            8,
        ),
{
    let ghost ext = point_qubits(*left) + point_qubits(*right);
    let ghost all = ext + qubit_set(big@);
    let ghost z = old(builder).pool() + qubit_set(big@);
    let b0 = block_of(big, 0);
    let b1 = block_of(big, 1);
    let b2 = block_of(big, 2);
    let b3 = block_of(big, 3);
    let b4 = block_of(big, 4);
    proof {
        builder.lemma_step_refl();
        Builder::lemma_pure_step_widen(builder, builder, Set::empty(), all);
        lemma_point_covers(*left);
        lemma_point_covers(*right);
        lemma_blocks(big@);
    }
    let ghost before = *builder;
    proof {
        if !builder.failed() {
            lemma_block_io(builder.pool(), big@, ext, 2, qubit_set(b1@));
        }
    }
    builder.xor_inv_mod_into(&b1, &b2);
    proof {
        lemma_chain(old(builder), &before, builder, qubit_set(b1@) + qubit_set(b2@), all);
        assert(!builder.failed() ==> extends(start, builder.emitted()) && add_traced(
            added(start, builder.emitted()),
            z,
            *left,
            *right,
            big@,
            6,
        )) by {
            if !builder.failed() {
                assert forall|s: spec_fn(u64) -> bool| zero_on(s, z) implies #[trigger] run(
                    added(before.emitted(), builder.emitted()),
                    add_state(*left, *right, big@, s, 5),
                ) == add_state(*left, *right, big@, s, 6) by {
                    point_semantics::lemma_step_ready(*left, *right, big@, s, 5, old(builder).pool());
                    point_semantics::lemma_regs_blocks(big@);
                    assert(b1@ == point_semantics::add_regs(big@)[2]);
                    assert(b2@ == point_semantics::add_regs(big@)[3]);
                }
                point_semantics::lemma_trace_next(
                    added(start, before.emitted()),
                    added(before.emitted(), builder.emitted()),
                    z,
                    *left,
                    *right,
                    big@,
                    5,
                );
                builder::lemma_extends_trans(start, before.emitted(), builder.emitted());
            }
        }
    }
    let ghost before = *builder;
    proof {
        if !builder.failed() {
            lemma_block_io(builder.pool(), big@, ext, 3, qubit_set(b0@) + qubit_set(b2@));
        }
    }
    builder.xor_mul_mod_into(&b0, &b2, &b3);
    proof {
        lemma_chain(old(builder), &before, builder, qubit_set(b0@) + qubit_set(b2@) + qubit_set(b3@), all);
        assert(!builder.failed() ==> extends(start, builder.emitted()) && add_traced(
            added(start, builder.emitted()),
            z,
            *left,
            *right,
            big@,
            7,
        )) by {
            if !builder.failed() {
                assert forall|s: spec_fn(u64) -> bool| zero_on(s, z) implies #[trigger] run(
                    added(before.emitted(), builder.emitted()),
                    add_state(*left, *right, big@, s, 6),
                ) == add_state(*left, *right, big@, s, 7) by {
                    point_semantics::lemma_step_ready(*left, *right, big@, s, 6, old(builder).pool());
                    point_semantics::lemma_regs_blocks(big@);
                    assert(b0@ == point_semantics::add_regs(big@)[1]);
                    assert(b2@ == point_semantics::add_regs(big@)[3]);
                    assert(b3@ == point_semantics::add_regs(big@)[4]);
                }
                point_semantics::lemma_trace_next(
                    added(start, before.emitted()),
                    added(before.emitted(), builder.emitted()),
                    z,
                    *left,
                    *right,
                    big@,
                    6,
                );
                builder::lemma_extends_trans(start, before.emitted(), builder.emitted());
            }
        }
    }
    let ghost before = *builder;
    proof {
        if !builder.failed() {
            lemma_block_io(builder.pool(), big@, ext, 4, qubit_set(left.x@) + qubit_set(left.x@));
        }
    }
    builder.xor_mul_mod_into(&left.x, &left.x, &b4);
    proof {
        lemma_chain(old(builder), &before, builder, qubit_set(left.x@) + qubit_set(left.x@) + qubit_set(b4@), all);
        assert(!builder.failed() ==> extends(start, builder.emitted()) && add_traced(
            added(start, builder.emitted()),
            z,
            *left,
            *right,
            big@,
            8,
        )) by {
            if !builder.failed() {
                assert forall|s: spec_fn(u64) -> bool| zero_on(s, z) implies #[trigger] run(
                    added(before.emitted(), builder.emitted()),
                    add_state(*left, *right, big@, s, 7),
                ) == add_state(*left, *right, big@, s, 8) by {
                    point_semantics::lemma_step_ready(*left, *right, big@, s, 7, old(builder).pool());
                    point_semantics::lemma_regs_blocks(big@);
                    assert(b4@ == point_semantics::add_regs(big@)[5]);
                }
                point_semantics::lemma_trace_next(
                    added(start, before.emitted()),
                    added(before.emitted(), builder.emitted()),
                    z,
                    *left,
                    *right,
                    big@,
                    7,
                );
                builder::lemma_extends_trans(start, before.emitted(), builder.emitted());
            }
        }
    }
}

/// Steps 8 to 10 of an addition's compute phase. The tangent's numerator `3 x_l^2` and `2 y_l` (blocks 5 and 6).
fn add_steps_tangent_numerator<S: OpSink>(
    builder: &mut Builder<S>,
    left: &PointRegister,
    right: &PointRegister,
    big: &Vec<QubitId>,
    Ghost(start): Ghost<Seq<Op>>,
)
    requires
        old(builder).wf(),
        left.x@.len() == WIDTH,
        left.y@.len() == WIDTH,
        right.x@.len() == WIDTH,
        right.y@.len() == WIDTH,
        big@.len() == 5 * SCRATCH_BLOCKS,
        !old(builder).failed() ==> add_scratch_ok(old(builder).pool(), *left, *right, big@),
        !old(builder).failed() ==> extends(start, old(builder).emitted()) && add_traced(
            added(start, old(builder).emitted()),
            old(builder).pool() + qubit_set(big@),
            *left,
            *right,
            big@,
            8,
        ),
    ensures
        old(builder).pure_step(final(builder), point_qubits(*left) + point_qubits(*right) + qubit_set(big@)),
        !final(builder).failed() ==> extends(start, final(builder).emitted()) && add_traced(
            added(start, final(builder).emitted()),
            old(builder).pool() + qubit_set(big@),
            *left,
            *right,
            big@,
            10,
        ),
{
    let ghost ext = point_qubits(*left) + point_qubits(*right);
    let ghost all = ext + qubit_set(big@);
    let ghost z = old(builder).pool() + qubit_set(big@);
    let b4 = block_of(big, 4);
    let b5 = block_of(big, 5);
    let b6 = block_of(big, 6);
    proof {
        builder.lemma_step_refl();
        Builder::lemma_pure_step_widen(builder, builder, Set::empty(), all);
        lemma_point_covers(*left);
        lemma_point_covers(*right);
        lemma_blocks(big@);
    }
    let ghost before = *builder;
    proof {
        if !builder.failed() {
            lemma_block_io(builder.pool(), big@, ext, 5, qubit_set(b4@));
        }
    }
    builder.xor_mul_const_mod_into(&b4, 3, &b5);
    proof {
        lemma_chain(old(builder), &before, builder, qubit_set(b4@) + qubit_set(b5@), all);
        assert(!builder.failed() ==> extends(start, builder.emitted()) && add_traced(
            added(start, builder.emitted()),
            z,
            *left,
            *right,
            big@,
            9,
        )) by {
            if !builder.failed() {
                assert forall|s: spec_fn(u64) -> bool| zero_on(s, z) implies #[trigger] run(
                    added(before.emitted(), builder.emitted()),
                    add_state(*left, *right, big@, s, 8),
                ) == add_state(*left, *right, big@, s, 9) by {
                    point_semantics::lemma_step_ready(*left, *right, big@, s, 8, old(builder).pool());
                    point_semantics::lemma_regs_blocks(big@);
                    assert(b4@ == point_semantics::add_regs(big@)[5]);
                    assert(b5@ == point_semantics::add_regs(big@)[6]);
                }
                point_semantics::lemma_trace_next(
                    added(start, before.emitted()),
                    added(before.emitted(), builder.emitted()),
                    z,
                    *left,
                    *right,
                    big@,
                    8,
                );
                builder::lemma_extends_trans(start, before.emitted(), builder.emitted());
            }
        }
    }
    let ghost before = *builder;
    proof {
        if !builder.failed() {
            lemma_block_io(builder.pool(), big@, ext, 6, qubit_set(left.y@));
        }
    }
    builder.xor_mul_const_mod_into(&left.y, 2, &b6);
    proof {
        lemma_chain(old(builder), &before, builder, qubit_set(left.y@) + qubit_set(b6@), all);
        assert(!builder.failed() ==> extends(start, builder.emitted()) && add_traced(
            added(start, builder.emitted()),
            z,
            *left,
            *right,
            big@,
            10,
        )) by {
            if !builder.failed() {
                assert forall|s: spec_fn(u64) -> bool| zero_on(s, z) implies #[trigger] run(
                    added(before.emitted(), builder.emitted()),
                    add_state(*left, *right, big@, s, 9),
                ) == add_state(*left, *right, big@, s, 10) by {
                    point_semantics::lemma_step_ready(*left, *right, big@, s, 9, old(builder).pool());
                    point_semantics::lemma_regs_blocks(big@);
                    assert(b6@ == point_semantics::add_regs(big@)[7]);
                }
                point_semantics::lemma_trace_next(
                    added(start, before.emitted()),
                    added(before.emitted(), builder.emitted()),
                    z,
                    *left,
                    *right,
                    big@,
                    9,
                );
                builder::lemma_extends_trans(start, before.emitted(), builder.emitted());
            }
        }
    }
}

/// Steps 10 to 12 of an addition's compute phase. The tangent slope: the inverse of `2 y_l` and its product with
/// `3 x_l^2` (blocks 7 and 8).
fn add_steps_tangent_slope<S: OpSink>(
    builder: &mut Builder<S>,
    left: &PointRegister,
    right: &PointRegister,
    big: &Vec<QubitId>,
    Ghost(start): Ghost<Seq<Op>>,
)
    requires
        old(builder).wf(),
        left.x@.len() == WIDTH,
        left.y@.len() == WIDTH,
        right.x@.len() == WIDTH,
        right.y@.len() == WIDTH,
        big@.len() == 5 * SCRATCH_BLOCKS,
        !old(builder).failed() ==> add_scratch_ok(old(builder).pool(), *left, *right, big@),
        !old(builder).failed() ==> extends(start, old(builder).emitted()) && add_traced(
            added(start, old(builder).emitted()),
            old(builder).pool() + qubit_set(big@),
            *left,
            *right,
            big@,
            10,
        ),
    ensures
        old(builder).pure_step(final(builder), point_qubits(*left) + point_qubits(*right) + qubit_set(big@)),
        !final(builder).failed() ==> extends(start, final(builder).emitted()) && add_traced(
            added(start, final(builder).emitted()),
            old(builder).pool() + qubit_set(big@),
            *left,
            *right,
            big@,
            12,
        ),
{
    let ghost ext = point_qubits(*left) + point_qubits(*right);
    let ghost all = ext + qubit_set(big@);
    let ghost z = old(builder).pool() + qubit_set(big@);
    let b5 = block_of(big, 5);
    let b6 = block_of(big, 6);
    let b7 = block_of(big, 7);
    let b8 = block_of(big, 8);
    proof {
        builder.lemma_step_refl();
        Builder::lemma_pure_step_widen(builder, builder, Set::empty(), all);
        lemma_point_covers(*left);
        lemma_point_covers(*right);
        lemma_blocks(big@);
    }
    let ghost before = *builder;
    proof {
        if !builder.failed() {
            lemma_block_io(builder.pool(), big@, ext, 7, qubit_set(b6@));
        }
    }
    builder.xor_inv_mod_into(&b6, &b7);
    proof {
        lemma_chain(old(builder), &before, builder, qubit_set(b6@) + qubit_set(b7@), all);
        assert(!builder.failed() ==> extends(start, builder.emitted()) && add_traced(
            added(start, builder.emitted()),
            z,
            *left,
            *right,
            big@,
            11,
        )) by {
            if !builder.failed() {
                assert forall|s: spec_fn(u64) -> bool| zero_on(s, z) implies #[trigger] run(
                    added(before.emitted(), builder.emitted()),
                    add_state(*left, *right, big@, s, 10),
                ) == add_state(*left, *right, big@, s, 11) by {
                    point_semantics::lemma_step_ready(*left, *right, big@, s, 10, old(builder).pool());
                    point_semantics::lemma_regs_blocks(big@);
                    assert(b6@ == point_semantics::add_regs(big@)[7]);
                    assert(b7@ == point_semantics::add_regs(big@)[8]);
                }
                point_semantics::lemma_trace_next(
                    added(start, before.emitted()),
                    added(before.emitted(), builder.emitted()),
                    z,
                    *left,
                    *right,
                    big@,
                    10,
                );
                builder::lemma_extends_trans(start, before.emitted(), builder.emitted());
            }
        }
    }
    let ghost before = *builder;
    proof {
        if !builder.failed() {
            lemma_block_io(builder.pool(), big@, ext, 8, qubit_set(b5@) + qubit_set(b7@));
        }
    }
    builder.xor_mul_mod_into(&b5, &b7, &b8);
    proof {
        lemma_chain(old(builder), &before, builder, qubit_set(b5@) + qubit_set(b7@) + qubit_set(b8@), all);
        assert(!builder.failed() ==> extends(start, builder.emitted()) && add_traced(
            added(start, builder.emitted()),
            z,
            *left,
            *right,
            big@,
            12,
        )) by {
            if !builder.failed() {
                assert forall|s: spec_fn(u64) -> bool| zero_on(s, z) implies #[trigger] run(
                    added(before.emitted(), builder.emitted()),
                    add_state(*left, *right, big@, s, 11),
                ) == add_state(*left, *right, big@, s, 12) by {
                    point_semantics::lemma_step_ready(*left, *right, big@, s, 11, old(builder).pool());
                    point_semantics::lemma_regs_blocks(big@);
                    assert(b5@ == point_semantics::add_regs(big@)[6]);
                    assert(b7@ == point_semantics::add_regs(big@)[8]);
                    assert(b8@ == point_semantics::add_regs(big@)[9]);
                }
                point_semantics::lemma_trace_next(
                    added(start, before.emitted()),
                    added(before.emitted(), builder.emitted()),
                    z,
                    *left,
                    *right,
                    big@,
                    11,
                );
                builder::lemma_extends_trans(start, before.emitted(), builder.emitted());
            }
        }
    }
}

/// Steps 12 to 15 of an addition's compute phase. The slope that applies (block 9), `lambda^2` and `lambda^2 - x_l` (blocks
/// 10 and 11).
fn add_steps_slope_and_x<S: OpSink>(
    builder: &mut Builder<S>,
    left: &PointRegister,
    right: &PointRegister,
    big: &Vec<QubitId>,
    Ghost(start): Ghost<Seq<Op>>,
)
    requires
        old(builder).wf(),
        left.x@.len() == WIDTH,
        left.y@.len() == WIDTH,
        right.x@.len() == WIDTH,
        right.y@.len() == WIDTH,
        big@.len() == 5 * SCRATCH_BLOCKS,
        !old(builder).failed() ==> add_scratch_ok(old(builder).pool(), *left, *right, big@),
        !old(builder).failed() ==> extends(start, old(builder).emitted()) && add_traced(
            added(start, old(builder).emitted()),
            old(builder).pool() + qubit_set(big@),
            *left,
            *right,
            big@,
            12,
        ),
    ensures
        old(builder).pure_step(final(builder), point_qubits(*left) + point_qubits(*right) + qubit_set(big@)),
        !final(builder).failed() ==> extends(start, final(builder).emitted()) && add_traced(
            added(start, final(builder).emitted()),
            old(builder).pool() + qubit_set(big@),
            *left,
            *right,
            big@,
            15,
        ),
{
    let ghost ext = point_qubits(*left) + point_qubits(*right);
    let ghost all = ext + qubit_set(big@);
    let ghost z = old(builder).pool() + qubit_set(big@);
    let b3 = block_of(big, 3);
    let b8 = block_of(big, 8);
    let b9 = block_of(big, 9);
    let b10 = block_of(big, 10);
    let b11 = block_of(big, 11);
    let b17 = block_of(big, 17);
    proof {
        builder.lemma_step_refl();
        Builder::lemma_pure_step_widen(builder, builder, Set::empty(), all);
        lemma_point_covers(*left);
        lemma_point_covers(*right);
        lemma_blocks(big@);
    }
    let lam_dbl = qubit_signals(&b8);
    let lam_add = qubit_signals(&b3);
    let lam = builder.mux_bits(Signal::qubit(b17[1]), &lam_dbl, &lam_add);
    let ghost before = *builder;
    proof {
        field_circuits::lemma_qubit_sigs_support(b8@, lam_dbl@);
        field_circuits::lemma_qubit_sigs_support(b3@, lam_add@);
        let sel = Signal(SignalKind::Qubit(b17@[1]));
        assert(support(sel) =~= set![b17@[1].0]);
        assert forall|i: int| 0 <= i < lam@.len() implies #[trigger] support(lam@[i]).subset_of(all) by {
            assert(support(lam@[i]).subset_of(support(sel) + supports(lam_dbl@) + supports(lam_add@)));
        }
        signal::lemma_supports(lam@);
        if !builder.failed() {
            assert forall|i: int| 0 <= i < lam@.len() implies #[trigger] support(lam@[i]).subset_of(ext + (qubit_set(big@) - qubit_set(block(big@, 9)))) by {
                assert(support(lam@[i]).subset_of(support(sel) + supports(lam_dbl@) + supports(lam_add@)));
            }
            lemma_block_copy(builder.pool(), big@, ext, 9, lam@);
        }
    }
    builder.copy_bits_ops(&lam, &b9);
    proof {
        lemma_chain(old(builder), &before, builder, supports(lam@) + qubit_set(b9@), all);
        assert(!builder.failed() ==> extends(start, builder.emitted()) && add_traced(
            added(start, builder.emitted()),
            z,
            *left,
            *right,
            big@,
            13,
        )) by {
            if !builder.failed() {
                assert forall|s: spec_fn(u64) -> bool| zero_on(s, z) implies #[trigger] run(
                    added(before.emitted(), builder.emitted()),
                    add_state(*left, *right, big@, s, 12),
                ) == add_state(*left, *right, big@, s, 13) by {
                    point_semantics::lemma_step_ready(*left, *right, big@, s, 12, old(builder).pool());
                    point_semantics::lemma_regs_blocks(big@);
                    assert(b9@ == point_semantics::add_regs(big@)[10]);
                    let t = add_state(*left, *right, big@, s, 12);
                    let l = point_semantics::reg_point(s, *left);
                    let r = point_semantics::reg_point(s, *right);
                    let v = point_arith::add_values(l, r);
                    point_semantics::lemma_held_bits(lam_dbl@, b8@, t);
                    point_semantics::lemma_held_bits(lam_add@, b3@, t);
                    assert(b17@[1] == big@[86]);
                    assert forall|i: int| 0 <= i < 5 implies eval(#[trigger] lam@[i], t) == signal::nat_bit(v[10], i as nat) by {
                        assert(b8@[i] == point_semantics::add_regs(big@)[9][i]);
                        assert(b3@[i] == point_semantics::add_regs(big@)[4][i]);
                    }
                    field_circuits::lemma_xor_each_bits(t, b9@, lam@, v[10], 5);
                }
                point_semantics::lemma_trace_next(
                    added(start, before.emitted()),
                    added(before.emitted(), builder.emitted()),
                    z,
                    *left,
                    *right,
                    big@,
                    12,
                );
                builder::lemma_extends_trans(start, before.emitted(), builder.emitted());
            }
        }
    }
    let ghost before = *builder;
    proof {
        if !builder.failed() {
            lemma_block_io(builder.pool(), big@, ext, 10, qubit_set(b9@) + qubit_set(b9@));
        }
    }
    builder.xor_mul_mod_into(&b9, &b9, &b10);
    proof {
        lemma_chain(old(builder), &before, builder, qubit_set(b9@) + qubit_set(b9@) + qubit_set(b10@), all);
        assert(!builder.failed() ==> extends(start, builder.emitted()) && add_traced(
            added(start, builder.emitted()),
            z,
            *left,
            *right,
            big@,
            14,
        )) by {
            if !builder.failed() {
                assert forall|s: spec_fn(u64) -> bool| zero_on(s, z) implies #[trigger] run(
                    added(before.emitted(), builder.emitted()),
                    add_state(*left, *right, big@, s, 13),
                ) == add_state(*left, *right, big@, s, 14) by {
                    point_semantics::lemma_step_ready(*left, *right, big@, s, 13, old(builder).pool());
                    point_semantics::lemma_regs_blocks(big@);
                    assert(b9@ == point_semantics::add_regs(big@)[10]);
                    assert(b10@ == point_semantics::add_regs(big@)[11]);
                }
                point_semantics::lemma_trace_next(
                    added(start, before.emitted()),
                    added(before.emitted(), builder.emitted()),
                    z,
                    *left,
                    *right,
                    big@,
                    13,
                );
                builder::lemma_extends_trans(start, before.emitted(), builder.emitted());
            }
        }
    }
    let ghost before = *builder;
    proof {
        if !builder.failed() {
            lemma_block_io(builder.pool(), big@, ext, 11, qubit_set(b10@) + qubit_set(left.x@));
        }
    }
    builder.xor_sub_mod_into(&b10, &left.x, &b11);
    proof {
        lemma_chain(old(builder), &before, builder, qubit_set(b10@) + qubit_set(left.x@) + qubit_set(b11@), all);
        assert(!builder.failed() ==> extends(start, builder.emitted()) && add_traced(
            added(start, builder.emitted()),
            z,
            *left,
            *right,
            big@,
            15,
        )) by {
            if !builder.failed() {
                assert forall|s: spec_fn(u64) -> bool| zero_on(s, z) implies #[trigger] run(
                    added(before.emitted(), builder.emitted()),
                    add_state(*left, *right, big@, s, 14),
                ) == add_state(*left, *right, big@, s, 15) by {
                    point_semantics::lemma_step_ready(*left, *right, big@, s, 14, old(builder).pool());
                    point_semantics::lemma_regs_blocks(big@);
                    assert(b10@ == point_semantics::add_regs(big@)[11]);
                    assert(b11@ == point_semantics::add_regs(big@)[12]);
                }
                point_semantics::lemma_trace_next(
                    added(start, before.emitted()),
                    added(before.emitted(), builder.emitted()),
                    z,
                    *left,
                    *right,
                    big@,
                    14,
                );
                builder::lemma_extends_trans(start, before.emitted(), builder.emitted());
            }
        }
    }
}

/// Steps 15 to 17 of an addition's compute phase. The sum's x (block 12) and `x_l - x` (block 13).
fn add_steps_sum_x<S: OpSink>(
    builder: &mut Builder<S>,
    left: &PointRegister,
    right: &PointRegister,
    big: &Vec<QubitId>,
    Ghost(start): Ghost<Seq<Op>>,
)
    requires
        old(builder).wf(),
        left.x@.len() == WIDTH,
        left.y@.len() == WIDTH,
        right.x@.len() == WIDTH,
        right.y@.len() == WIDTH,
        big@.len() == 5 * SCRATCH_BLOCKS,
        !old(builder).failed() ==> add_scratch_ok(old(builder).pool(), *left, *right, big@),
        !old(builder).failed() ==> extends(start, old(builder).emitted()) && add_traced(
            added(start, old(builder).emitted()),
            old(builder).pool() + qubit_set(big@),
            *left,
            *right,
            big@,
            15,
        ),
    ensures
        old(builder).pure_step(final(builder), point_qubits(*left) + point_qubits(*right) + qubit_set(big@)),
        !final(builder).failed() ==> extends(start, final(builder).emitted()) && add_traced(
            added(start, final(builder).emitted()),
            old(builder).pool() + qubit_set(big@),
            *left,
            *right,
            big@,
            17,
        ),
{
    let ghost ext = point_qubits(*left) + point_qubits(*right);
    let ghost all = ext + qubit_set(big@);
    let ghost z = old(builder).pool() + qubit_set(big@);
    let b11 = block_of(big, 11);
    let b12 = block_of(big, 12);
    let b13 = block_of(big, 13);
    proof {
        builder.lemma_step_refl();
        Builder::lemma_pure_step_widen(builder, builder, Set::empty(), all);
        lemma_point_covers(*left);
        lemma_point_covers(*right);
        lemma_blocks(big@);
    }
    let ghost before = *builder;
    proof {
        if !builder.failed() {
            lemma_block_io(builder.pool(), big@, ext, 12, qubit_set(b11@) + qubit_set(right.x@));
        }
    }
    builder.xor_sub_mod_into(&b11, &right.x, &b12);
    proof {
        lemma_chain(old(builder), &before, builder, qubit_set(b11@) + qubit_set(right.x@) + qubit_set(b12@), all);
        assert(!builder.failed() ==> extends(start, builder.emitted()) && add_traced(
            added(start, builder.emitted()),
            z,
            *left,
            *right,
            big@,
            16,
        )) by {
            if !builder.failed() {
                assert forall|s: spec_fn(u64) -> bool| zero_on(s, z) implies #[trigger] run(
                    added(before.emitted(), builder.emitted()),
                    add_state(*left, *right, big@, s, 15),
                ) == add_state(*left, *right, big@, s, 16) by {
                    point_semantics::lemma_step_ready(*left, *right, big@, s, 15, old(builder).pool());
                    point_semantics::lemma_regs_blocks(big@);
                    assert(b11@ == point_semantics::add_regs(big@)[12]);
                    assert(b12@ == point_semantics::add_regs(big@)[13]);
                }
                point_semantics::lemma_trace_next(
                    added(start, before.emitted()),
                    added(before.emitted(), builder.emitted()),
                    z,
                    *left,
                    *right,
                    big@,
                    15,
                );
                builder::lemma_extends_trans(start, before.emitted(), builder.emitted());
            }
        }
    }
    let ghost before = *builder;
    proof {
        if !builder.failed() {
            lemma_block_io(builder.pool(), big@, ext, 13, qubit_set(left.x@) + qubit_set(b12@));
        }
    }
    builder.xor_sub_mod_into(&left.x, &b12, &b13);
    proof {
        lemma_chain(old(builder), &before, builder, qubit_set(left.x@) + qubit_set(b12@) + qubit_set(b13@), all);
        assert(!builder.failed() ==> extends(start, builder.emitted()) && add_traced(
            added(start, builder.emitted()),
            z,
            *left,
            *right,
            big@,
            17,
        )) by {
            if !builder.failed() {
                assert forall|s: spec_fn(u64) -> bool| zero_on(s, z) implies #[trigger] run(
                    added(before.emitted(), builder.emitted()),
                    add_state(*left, *right, big@, s, 16),
                ) == add_state(*left, *right, big@, s, 17) by {
                    point_semantics::lemma_step_ready(*left, *right, big@, s, 16, old(builder).pool());
                    point_semantics::lemma_regs_blocks(big@);
                    assert(b12@ == point_semantics::add_regs(big@)[13]);
                    assert(b13@ == point_semantics::add_regs(big@)[14]);
                }
                point_semantics::lemma_trace_next(
                    added(start, before.emitted()),
                    added(before.emitted(), builder.emitted()),
                    z,
                    *left,
                    *right,
                    big@,
                    16,
                );
                builder::lemma_extends_trans(start, before.emitted(), builder.emitted());
            }
        }
    }
}

/// Steps 17 to 19 of an addition's compute phase. `lambda (x_l - x)` and the sum's y (blocks 14 and 15).
fn add_steps_sum_y<S: OpSink>(
    builder: &mut Builder<S>,
    left: &PointRegister,
    right: &PointRegister,
    big: &Vec<QubitId>,
    Ghost(start): Ghost<Seq<Op>>,
)
    requires
        old(builder).wf(),
        left.x@.len() == WIDTH,
        left.y@.len() == WIDTH,
        right.x@.len() == WIDTH,
        right.y@.len() == WIDTH,
        big@.len() == 5 * SCRATCH_BLOCKS,
        !old(builder).failed() ==> add_scratch_ok(old(builder).pool(), *left, *right, big@),
        !old(builder).failed() ==> extends(start, old(builder).emitted()) && add_traced(
            added(start, old(builder).emitted()),
            old(builder).pool() + qubit_set(big@),
            *left,
            *right,
            big@,
            17,
        ),
    ensures
        old(builder).pure_step(final(builder), point_qubits(*left) + point_qubits(*right) + qubit_set(big@)),
        !final(builder).failed() ==> extends(start, final(builder).emitted()) && add_traced(
            added(start, final(builder).emitted()),
            old(builder).pool() + qubit_set(big@),
            *left,
            *right,
            big@,
            19,
        ),
{
    let ghost ext = point_qubits(*left) + point_qubits(*right);
    let ghost all = ext + qubit_set(big@);
    let ghost z = old(builder).pool() + qubit_set(big@);
    let b9 = block_of(big, 9);
    let b13 = block_of(big, 13);
    let b14 = block_of(big, 14);
    let b15 = block_of(big, 15);
    proof {
        builder.lemma_step_refl();
        Builder::lemma_pure_step_widen(builder, builder, Set::empty(), all);
        lemma_point_covers(*left);
        lemma_point_covers(*right);
        lemma_blocks(big@);
    }
    let ghost before = *builder;
    proof {
        if !builder.failed() {
            lemma_block_io(builder.pool(), big@, ext, 14, qubit_set(b9@) + qubit_set(b13@));
        }
    }
    builder.xor_mul_mod_into(&b9, &b13, &b14);
    proof {
        lemma_chain(old(builder), &before, builder, qubit_set(b9@) + qubit_set(b13@) + qubit_set(b14@), all);
        assert(!builder.failed() ==> extends(start, builder.emitted()) && add_traced(
            added(start, builder.emitted()),
            z,
            *left,
            *right,
            big@,
            18,
        )) by {
            if !builder.failed() {
                assert forall|s: spec_fn(u64) -> bool| zero_on(s, z) implies #[trigger] run(
                    added(before.emitted(), builder.emitted()),
                    add_state(*left, *right, big@, s, 17),
                ) == add_state(*left, *right, big@, s, 18) by {
                    point_semantics::lemma_step_ready(*left, *right, big@, s, 17, old(builder).pool());
                    point_semantics::lemma_regs_blocks(big@);
                    assert(b9@ == point_semantics::add_regs(big@)[10]);
                    assert(b13@ == point_semantics::add_regs(big@)[14]);
                    assert(b14@ == point_semantics::add_regs(big@)[15]);
                }
                point_semantics::lemma_trace_next(
                    added(start, before.emitted()),
                    added(before.emitted(), builder.emitted()),
                    z,
                    *left,
                    *right,
                    big@,
                    17,
                );
                builder::lemma_extends_trans(start, before.emitted(), builder.emitted());
            }
        }
    }
    let ghost before = *builder;
    proof {
        if !builder.failed() {
            lemma_block_io(builder.pool(), big@, ext, 15, qubit_set(b14@) + qubit_set(left.y@));
        }
    }
    builder.xor_sub_mod_into(&b14, &left.y, &b15);
    proof {
        lemma_chain(old(builder), &before, builder, qubit_set(b14@) + qubit_set(left.y@) + qubit_set(b15@), all);
        assert(!builder.failed() ==> extends(start, builder.emitted()) && add_traced(
            added(start, builder.emitted()),
            z,
            *left,
            *right,
            big@,
            19,
        )) by {
            if !builder.failed() {
                assert forall|s: spec_fn(u64) -> bool| zero_on(s, z) implies #[trigger] run(
                    added(before.emitted(), builder.emitted()),
                    add_state(*left, *right, big@, s, 18),
                ) == add_state(*left, *right, big@, s, 19) by {
                    point_semantics::lemma_step_ready(*left, *right, big@, s, 18, old(builder).pool());
                    point_semantics::lemma_regs_blocks(big@);
                    assert(b14@ == point_semantics::add_regs(big@)[15]);
                    assert(b15@ == point_semantics::add_regs(big@)[16]);
                }
                point_semantics::lemma_trace_next(
                    added(start, before.emitted()),
                    added(before.emitted(), builder.emitted()),
                    z,
                    *left,
                    *right,
                    big@,
                    18,
                );
                builder::lemma_extends_trans(start, before.emitted(), builder.emitted());
            }
        }
    }
}

/// The scratch computation of a point addition, each value XORed into its
/// own block of `big`: the sum of the operands' y (block 16), the flags of
/// the inverse case and of doubling (the first two qubits of block 17), the
/// chord slope (blocks 0 to 3), the tangent slope (4 to 8), the slope that
/// applies (9), and from it the sum's x (10 to 12) and y (13 to 15). From
/// an assignment with the pool and the scratch clear, it ends in the state
/// with every block at its value.
fn point_add_compute<S: OpSink>(
    builder: &mut Builder<S>,
    left: &PointRegister,
    right: &PointRegister,
    big: &Vec<QubitId>,
)
    requires
        old(builder).wf(),
        left.x@.len() == WIDTH,
        left.y@.len() == WIDTH,
        right.x@.len() == WIDTH,
        right.y@.len() == WIDTH,
        big@.len() == 5 * SCRATCH_BLOCKS,
        !old(builder).failed() ==> add_scratch_ok(old(builder).pool(), *left, *right, big@),
    ensures
        old(builder).pure_step(final(builder), point_qubits(*left) + point_qubits(*right) + qubit_set(big@)),
        !final(builder).failed() ==> add_traced(
            added(old(builder).emitted(), final(builder).emitted()),
            old(builder).pool() + qubit_set(big@),
            *left,
            *right,
            big@,
            19,
        ),
{
    let ghost all = point_qubits(*left) + point_qubits(*right) + qubit_set(big@);
    let ghost start = builder.emitted();
    let ghost z = builder.pool() + qubit_set(big@);
    proof {
        builder.lemma_step_refl();
        builder::lemma_added_none(start);
        point_semantics::lemma_trace_start(added(start, start), z, *left, *right, big@);
    }
    let ghost b0 = *builder;
    add_steps_sums_and_flags(builder, left, right, big, Ghost(start));
    let ghost b1 = *builder;
    add_steps_chord_differences(builder, left, right, big, Ghost(start));
    let ghost b2 = *builder;
    add_steps_chord_slope(builder, left, right, big, Ghost(start));
    let ghost b3 = *builder;
    add_steps_tangent_numerator(builder, left, right, big, Ghost(start));
    let ghost b4 = *builder;
    add_steps_tangent_slope(builder, left, right, big, Ghost(start));
    let ghost b5 = *builder;
    add_steps_slope_and_x(builder, left, right, big, Ghost(start));
    let ghost b6 = *builder;
    add_steps_sum_x(builder, left, right, big, Ghost(start));
    let ghost b7 = *builder;
    add_steps_sum_y(builder, left, right, big, Ghost(start));
    proof {
        Builder::lemma_pure_step_trans(&b0, &b1, &b2, all);
        Builder::lemma_pure_step_trans(&b0, &b2, &b3, all);
        Builder::lemma_pure_step_trans(&b0, &b3, &b4, all);
        Builder::lemma_pure_step_trans(&b0, &b4, &b5, all);
        Builder::lemma_pure_step_trans(&b0, &b5, &b6, all);
        Builder::lemma_pure_step_trans(&b0, &b6, &b7, all);
        Builder::lemma_pure_step_trans(&b0, &b7, builder, all);
    }
}

/// The registers of a point addition are well shaped and live, and the
/// output shares no qubit with the operands.
pub open spec fn add_io_ok(pool: Set<u64>, left: PointRegister, right: PointRegister, out: PointRegister) -> bool {
    &&& point_live(pool, left)
    &&& point_live(pool, right)
    &&& point_live(pool, out)
    &&& point_qubits(out).disjoint(point_qubits(left) + point_qubits(right))
}

/// XORs the curve sum `left + right` into `out`. The scratch values are
/// computed on held qubits, the sum is selected by the cases of the group
/// law (an operand at infinity, a point plus its negation, doubling, the
/// chord), copied into `out`, and the scratch is uncomputed and released.
pub fn point_add_xor<S: OpSink>(
    builder: &mut Builder<S>,
    left: &PointRegister,
    right: &PointRegister,
    out: &PointRegister,
)
    requires
        old(builder).wf(),
        left.x@.len() == WIDTH,
        left.y@.len() == WIDTH,
        right.x@.len() == WIDTH,
        right.y@.len() == WIDTH,
        out.x@.len() == WIDTH,
        out.y@.len() == WIDTH,
        !old(builder).failed() ==> add_io_ok(old(builder).pool(), *left, *right, *out),
    ensures
        old(builder).pure_step(final(builder), point_qubits(*left) + point_qubits(*right) + point_qubits(*out)),
        !final(builder).failed() ==> effect(
            added(old(builder).emitted(), final(builder).emitted()),
            old(builder).pool(),
            |s: spec_fn(u64) -> bool|
                xor_point(s, *out, point_add_circuit(reg_point(s, *left), reg_point(s, *right))),
        ),
{
    let ghost ext = point_qubits(*left) + point_qubits(*right);
    let ghost b0 = *builder;
    let big = builder.hold_qubits(5 * SCRATCH_BLOCKS);
    let ghost b1 = *builder;
    let ghost all = ext + qubit_set(big@);
    proof {
        lemma_point_covers(*left);
        lemma_point_covers(*right);
        lemma_point_covers(*out);
        lemma_blocks(big@);
        if !builder.failed() {
            assert(ext.disjoint(qubit_set(big@))) by {
                assert forall|q: u64| qubit_set(big@).contains(q) implies !ext.contains(q) by {
                    let i = choose|i: int| 0 <= i < big@.len() && (#[trigger] big@[i]).0 == q;
                    assert(b0.pool().contains(big@[i].0));
                }
            }
            assert(qubit_set(big@).subset_of(b0.pool())) by {
                assert forall|q: u64| qubit_set(big@).contains(q) implies b0.pool().contains(q) by {
                    let i = choose|i: int| 0 <= i < big@.len() && (#[trigger] big@[i]).0 == q;
                }
            }
        }
    }
    builder.begin_recording();
    let ghost b2 = *builder;
    point_add_compute(builder, left, right, &big);
    let ghost b3 = *builder;
    let tape = builder.end_recording();
    let ghost b4 = *builder;
    proof {
        assert(b3.recording_start() == b2.recording_start());
        assert(tape@ == added(b2.emitted(), b3.emitted()));
        assert(b4.recording_starts() =~= b1.recording_starts());
        assert(b1.pure_step(&b4, all));
    }
    let x3 = block_of(&big, 12);
    let y3 = block_of(&big, 15);
    let flags = block_of(&big, 17);
    let inverse_case = Signal::qubit(flags[0]);
    let lv = held_point(left);
    let rv = held_point(right);
    let formula = PointValue { x: qubit_signals(&x3), y: qubit_signals(&y3), inf: Signal::constant(false) };
    let infinity = point_const(0, 0, true);
    proof {
        field_circuits::lemma_qubit_sigs_support(x3@, formula.x@);
        field_circuits::lemma_qubit_sigs_support(y3@, formula.y@);
        signal::lemma_supports(formula.x@);
        signal::lemma_supports(formula.y@);
        assert(value_within(formula, all));
        assert forall|i: int| 0 <= i < infinity.x@.len() implies #[trigger] support(infinity.x@[i]).subset_of(all) by {
            assert(support(infinity.x@[i]).subset_of(Set::empty()));
        }
        assert forall|i: int| 0 <= i < infinity.y@.len() implies #[trigger] support(infinity.y@[i]).subset_of(all) by {
            assert(support(infinity.y@[i]).subset_of(Set::empty()));
        }
        assert(value_within(infinity, all));
        signal::lemma_supports(lv.x@);
        signal::lemma_supports(lv.y@);
        signal::lemma_supports(rv.x@);
        signal::lemma_supports(rv.y@);
        assert(value_within(lv, all));
        assert(value_within(rv, all));
        assert(qubit_set(flags@).contains(flags@[0].0));
        assert(support(inverse_case) + all =~= all);
        assert(support(rv.inf) + all =~= all);
        assert(support(lv.inf) + all =~= all);
    }
    let after_inverse = mux_point(builder, &inverse_case, &infinity, &formula, Ghost(all));
    let after_right_inf = mux_point(builder, &rv.inf, &lv, &after_inverse, Ghost(all));
    let result = mux_point(builder, &lv.inf, &rv, &after_right_inf, Ghost(all));
    proof {
        lemma_value_support(result, all);
    }
    let ghost b5 = *builder;
    copy_point(builder, &result, out);
    let ghost b6 = *builder;
    builder.append_reverse_tape(&tape);
    let ghost b7 = *builder;
    proof {
        if !b7.failed() {
            assert forall|i: int| 0 <= i < tape@.reverse().len() implies #[trigger] semantics::op_qubits(tape@.reverse()[i]).subset_of(all + b1.pool()) by {
                assert(tape@.reverse()[i] == tape@[tape@.len() - 1 - i]);
            }
        }
    }
    builder.release_hold_qubits(big);
    proof {
        Builder::lemma_step_trans(&b0, &b1, &b4);
        Builder::lemma_pure_step_widen(&b5, &b6, value_support(result) + point_qubits(*out), all + point_qubits(*out));
        Builder::lemma_step_trans(&b4, &b6, &b7);
        Builder::lemma_step_trans(&b0, &b4, &b7);
        Builder::lemma_step_trans(&b0, &b7, builder);
        if !builder.failed() {
            assert(builder.pool() =~= b0.pool());
            let a1 = added(b1.emitted(), b4.emitted());
            let a2 = added(b4.emitted(), b6.emitted());
            let a3 = added(b6.emitted(), b7.emitted());
            let target = point_qubits(*left) + point_qubits(*right) + point_qubits(*out) + b0.pool();
            assert(a3 == tape@.reverse()) by {
                assert(b7.emitted() == b6.emitted() + tape@.reverse());
                assert(added(b6.emitted(), b7.emitted()) =~= tape@.reverse());
            }
            builder::lemma_ops_within_mono(a1, all + b1.pool(), target);
            builder::lemma_ops_within_mono(a2, all + point_qubits(*out) + b4.pool(), target);
            builder::lemma_ops_within_mono(a3, all + b1.pool(), target);
            builder::lemma_ops_within_concat(a1, a2, target);
            builder::lemma_ops_within_concat(a1 + a2, a3, target);
            assert(added(b0.emitted(), builder.emitted()) =~= a1 + a2 + a3) by {
                assert(added(b0.emitted(), b1.emitted()) =~= Seq::<crate::circuit::Op>::empty());
            }
            assert(point_semantics::selects_sum(result, *left, *right, big@)) by {
                point_semantics::lemma_zero_bits();
                assert(flags@[0] == big@[85]);
                assert forall|i: int, s: spec_fn(u64) -> bool| 0 <= i < 5 implies #[trigger] eval(result.x@[i], s)
                    == point_semantics::selected(
                    s,
                    *left,
                    *right,
                    big@,
                    s(right.x@[i].0),
                    s(left.x@[i].0),
                    false,
                    s(block(big@, 12)[i].0),
                ) by {
                    assert(eval(after_right_inf.x@[i], s) == if s(right.inf.0) {
                        s(left.x@[i].0)
                    } else {
                        eval(after_inverse.x@[i], s)
                    });
                    assert(eval(after_inverse.x@[i], s) == if s(big@[85].0) {
                        false
                    } else {
                        s(x3@[i].0)
                    });
                }
                assert forall|i: int, s: spec_fn(u64) -> bool| 0 <= i < 5 implies #[trigger] eval(result.y@[i], s)
                    == point_semantics::selected(
                    s,
                    *left,
                    *right,
                    big@,
                    s(right.y@[i].0),
                    s(left.y@[i].0),
                    false,
                    s(block(big@, 15)[i].0),
                ) by {
                    assert(eval(after_right_inf.y@[i], s) == if s(right.inf.0) {
                        s(left.y@[i].0)
                    } else {
                        eval(after_inverse.y@[i], s)
                    });
                    assert(eval(after_inverse.y@[i], s) == if s(big@[85].0) {
                        false
                    } else {
                        s(y3@[i].0)
                    });
                }
                assert forall|s: spec_fn(u64) -> bool| #[trigger] eval(result.inf, s) == point_semantics::selected(
                    s,
                    *left,
                    *right,
                    big@,
                    s(right.inf.0),
                    s(left.inf.0),
                    true,
                    false,
                ) by {
                    assert(eval(after_right_inf.inf, s) == if s(right.inf.0) {
                        s(left.inf.0)
                    } else {
                        eval(after_inverse.inf, s)
                    });
                }
            }
            let p1 = b1.pool();
            assert(p1 + qubit_set(big@) =~= b0.pool());
            assert(point_qubits(*out).disjoint(point_qubits(*left) + point_qubits(*right) + qubit_set(big@) + p1));
            assert forall|i: int| 0 <= i < tape@.len() implies #[trigger] semantics::op_qubits(tape@[i]).disjoint(
                point_qubits(*out),
            ) by {
                assert(semantics::op_qubits(tape@[i]).subset_of(all + b2.pool()));
            }
            assert(a2 == added(b5.emitted(), b6.emitted()));
            point_semantics::lemma_add_xor_run(tape@, a2, p1, *left, *right, *out, big@, result);
        }
    }
}

/// A step whose added operations stay within `x` when it does not fail.
pub open spec fn step_within<S: OpSink>(a: &Builder<S>, b: &Builder<S>, x: Set<u64>) -> bool {
    &&& a.step(b)
    &&& !b.failed() ==> ops_within(added(a.emitted(), b.emitted()), x)
}

/// Steps within `x` compose.
pub proof fn lemma_within_trans<S: OpSink>(a: &Builder<S>, b: &Builder<S>, c: &Builder<S>, x: Set<u64>)
    requires
        step_within(a, b, x),
        step_within(b, c, x),
    ensures
        step_within(a, c, x),
{
    Builder::lemma_step_trans(a, b, c);
    if !c.failed() {
        builder::lemma_ops_within_concat(added(a.emitted(), b.emitted()), added(b.emitted(), c.emitted()), x);
    }
}

/// A pure step is a step within its qubits and the pool it starts from.
pub proof fn lemma_pure_within<S: OpSink>(a: &Builder<S>, b: &Builder<S>, y: Set<u64>, x: Set<u64>)
    requires
        a.pure_step(b, y),
        !b.failed() ==> (y + a.pool()).subset_of(x),
    ensures
        step_within(a, b, x),
{
    if !b.failed() {
        builder::lemma_ops_within_mono(added(a.emitted(), b.emitted()), y + a.pool(), x);
    }
}

/// A step that emits nothing is a step within any set.
pub proof fn lemma_silent_within<S: OpSink>(a: &Builder<S>, b: &Builder<S>, x: Set<u64>)
    requires
        a.step(b),
        b.emitted() == a.emitted(),
    ensures
        step_within(a, b, x),
{
    builder::lemma_added_none(a.emitted());
}

/// XORs the negation of `point` into `out`: x is copied, y becomes
/// `-y` in F_31, and the flag is copied.
pub fn point_neg_xor<S: OpSink>(builder: &mut Builder<S>, point: &PointRegister, out: &PointRegister)
    requires
        old(builder).wf(),
        point.x@.len() == WIDTH,
        point.y@.len() == WIDTH,
        out.x@.len() == WIDTH,
        out.y@.len() == WIDTH,
        !old(builder).failed() ==> point_live(old(builder).pool(), *point) && point_live(old(builder).pool(), *out)
            && point_qubits(*out).disjoint(point_qubits(*point)),
    ensures
        old(builder).pure_step(final(builder), point_qubits(*point) + point_qubits(*out)),
        !final(builder).failed() ==> effect(
            added(old(builder).emitted(), final(builder).emitted()),
            old(builder).pool(),
            |s: spec_fn(u64) -> bool| xor_point(s, *out, point_neg_circuit(reg_point(s, *point))),
        ),
{
    let ghost a = point_qubits(*point) + point_qubits(*out);
    let ghost b0 = *builder;
    proof {
        lemma_point_covers(*point);
        lemma_point_covers(*out);
    }
    builder.xor_bits_into(&point.x, &out.x);
    let ghost b1 = *builder;
    let zero: Vec<QubitId> = Vec::new();
    proof {
        assert(qubit_set(zero@) =~= Set::empty());
        if !builder.failed() {
            lemma_point_parts(*out);
            assert(out.y@.subrange(0, 5) =~= out.y@);
            assert forall|i: int| 0 <= i < 5 implies !builder.pool().contains(#[trigger] out.y@[i].0)
                && !(qubit_set(zero@) + qubit_set(point.y@)).contains(out.y@[i].0) by {
                assert(qubit_set(out.y@).contains(out.y@[i].0));
            }
        }
    }
    builder.xor_sub_mod_into(&zero, &point.y, &out.y);
    let ghost b2 = *builder;
    builder.xor_qubit_into(point.inf, out.inf);
    proof {
        lemma_pure_within(&b1, &b2, qubit_set(zero@) + qubit_set(point.y@) + qubit_set(out.y@), a + b0.pool());
        assert(step_within(&b0, &b1, a + b0.pool())) by {
            if !b1.failed() {
                builder::lemma_ops_within_mono(added(b0.emitted(), b1.emitted()), qubit_set(point.x@) + qubit_set(out.x@), a + b0.pool());
            }
        }
        assert(step_within(&b2, builder, a + b0.pool())) by {
            builder::lemma_ops_within_mono(added(b2.emitted(), builder.emitted()), set![point.inf.0, out.inf.0], a + b0.pool());
        }
        lemma_within_trans(&b0, &b1, &b2, a + b0.pool());
        lemma_within_trans(&b0, &b2, builder, a + b0.pool());
        if !builder.failed() {
            lemma_point_parts(*point);
            lemma_point_parts(*out);
            let a1 = added(b0.emitted(), b1.emitted());
            let a2 = added(b1.emitted(), b2.emitted());
            let a3 = added(b2.emitted(), builder.emitted());
            builder::lemma_extends_trans(b0.emitted(), b1.emitted(), b2.emitted());
            builder::lemma_extends_trans(b0.emitted(), b2.emitted(), builder.emitted());
            assert(out.inf != point.inf) by {
                assert(point_qubits(*out).contains(out.inf.0));
                assert(point_qubits(*point).contains(point.inf.0));
            }
            assert(builder::copy_qubits_ok(point.x@, out.x@)) by {
                assert forall|i: int, j: int| 0 <= i < 5 && 0 <= j < 5 implies point.x@[i] != out.x@[j] by {
                    assert(qubit_set(point.x@).contains(point.x@[i].0));
                    assert(qubit_set(out.x@).contains(out.x@[j].0));
                }
            }
            assert(a3 == seq![Builder::<S>::cx_gate(point.inf, out.inf)]) by {
                assert(a3 =~= seq![Builder::<S>::cx_gate(point.inf, out.inf)]);
            }
            assert forall|s: spec_fn(u64) -> bool| zero_on(s, b0.pool()) implies #[trigger] run(
                added(b0.emitted(), builder.emitted()),
                s,
            ) == xor_point(s, *out, point_neg_circuit(reg_point(s, *point))) by {
                let p = reg_point(s, *point);
                let px = signal::qubits_value(point.x@, 5, s);
                let py = signal::qubits_value(point.y@, 5, s);
                field_circuits::lemma_qubits_value_bound(point.x@, 5, s);
                field_circuits::lemma_qubits_value_bound(point.y@, 5, s);
                vstd::arithmetic::power2::lemma2_to64();
                assert forall|k: int| 0 <= k < 5 implies s(#[trigger] point.x@[k].0) == signal::nat_bit(px, k as nat) by {
                    field_circuits::lemma_qubits_value_bit(point.x@, s, k);
                }
                field_circuits::lemma_xor_qubits_bits(s, point.x@, out.x@, px, 5);
                let s1 = field_circuits::xor_bits_of(s, out.x@, px, 5);
                assert(run(a1, s) == s1);
                assert forall|q: u64| !qubit_set(out.x@).contains(q) implies s1(q) == s(q) by {
                    assert forall|k: int| 0 <= k < 5 implies (#[trigger] out.x@[k]).0 != q by {
                        assert(qubit_set(out.x@).contains(out.x@[k].0));
                    }
                    field_circuits::lemma_xor_bits_outside(s, out.x@, px, 5, q);
                }
                assert(zero_on(s1, b1.pool()));
                field_circuits::lemma_qubits_value_frame(point.y@, 5, s1, s);
                assert(signal::qubits_value(zero@, 5, s1) == 0) by {
                    reveal_with_fuel(signal::qubits_value, 6);
                }
                let ny = point_arith::fsub(0, py);
                let s2 = field_circuits::xor_value(s1, out.y@, ny);
                assert(run(a2, s1) == s2);
                assert(s2(point.inf.0) == s(point.inf.0)) by {
                    assert forall|k: int| 0 <= k < 5 implies (#[trigger] out.y@[k]).0 != point.inf.0 by {
                        assert(qubit_set(out.y@).contains(out.y@[k].0));
                    }
                    field_circuits::lemma_xor_bits_outside(s1, out.y@, ny, 5, point.inf.0);
                    assert forall|k: int| 0 <= k < 5 implies (#[trigger] out.x@[k]).0 != point.inf.0 by {
                        assert(qubit_set(out.x@).contains(out.x@[k].0));
                    }
                    field_circuits::lemma_xor_bits_outside(s, out.x@, px, 5, point.inf.0);
                }
                assert(a3.drop_last() =~= Seq::<crate::circuit::Op>::empty());
                assert(run(a3, s2) == semantics::apply_gate(s2, Builder::<S>::cx_gate(point.inf, out.inf))) by {
                    reveal_with_fuel(run, 2);
                }
                assert(ny < 31);
                semantics::lemma_run_append(a1, a2, s);
                semantics::lemma_run_append(a1 + a2, a3, s);
            }
        }
    }
}

/// The controlled addition's steps, from the snapshots between them, run
/// as the addition of the selected addend to the accumulator.
proof fn lemma_cadd_law<S: OpSink>(
    b0: &Builder<S>,
    b2: &Builder<S>,
    b3: &Builder<S>,
    b4: &Builder<S>,
    b5: &Builder<S>,
    b6: &Builder<S>,
    b7: &Builder<S>,
    b8: &Builder<S>,
    b9: &Builder<S>,
    b10: &Builder<S>,
    b11: &Builder<S>,
    b12: &Builder<S>,
    b13: &Builder<S>,
    bf: &Builder<S>,
    acc: PointRegister,
    addend: PointRegister,
    tmp: PointRegister,
    sum: PointRegister,
    neg: PointRegister,
    prev: PointRegister,
    selector: QubitId,
    next: PointValue,
    previous: PointValue,
)
    requires
        !bf.failed(),
        controlled_add::cadd_regs_ok(controlled_add::cadd_regs(acc, addend, tmp, sum, neg, prev), selector.0),
        b2.pool().subset_of(b0.pool()),
        b7.pool().subset_of(b2.pool()),
        b9.pool().subset_of(b7.pool()),
        b2.pool().disjoint(point_qubits(acc) + point_qubits(tmp) + point_qubits(sum)),
        b7.pool().disjoint(point_qubits(neg)),
        b9.pool().disjoint(point_qubits(prev)),
        (point_qubits(tmp) + point_qubits(sum) + point_qubits(neg) + point_qubits(prev)).subset_of(b0.pool()),
        b3.pool() == b2.pool(),
        b4.pool() == b2.pool(),
        b10.pool() == b9.pool(),
        b11.pool() == b9.pool(),
        b12.pool() == b9.pool(),
        extends(b0.emitted(), b2.emitted()),
        b2.emitted() == b0.emitted(),
        extends(b2.emitted(), b3.emitted()),
        extends(b3.emitted(), b4.emitted()),
        extends(b4.emitted(), b5.emitted()),
        extends(b5.emitted(), b6.emitted()),
        b7.emitted() == b6.emitted(),
        extends(b7.emitted(), b8.emitted()),
        b9.emitted() == b8.emitted(),
        extends(b9.emitted(), b10.emitted()),
        extends(b10.emitted(), b11.emitted()),
        extends(b11.emitted(), b12.emitted()),
        extends(b12.emitted(), b13.emitted()),
        bf.emitted() == b13.emitted(),
        effect(
            added(b2.emitted(), b3.emitted()),
            b2.pool(),
            |t: spec_fn(u64) -> bool|
                xor_point(t, sum, point_add_circuit(reg_point(t, acc), reg_point(t, addend))),
        ),
        effect(
            added(b3.emitted(), b4.emitted()),
            b3.pool(),
            |t: spec_fn(u64) -> bool|
                xor_point_bits(t, tmp, value_of(next.x@, 5, t), value_of(next.y@, 5, t), eval(next.inf, t)),
        ),
        effect(
            added(b4.emitted(), b5.emitted()),
            b4.pool(),
            |t: spec_fn(u64) -> bool|
                xor_point(t, sum, point_add_circuit(reg_point(t, acc), reg_point(t, addend))),
        ),
        forall|t: spec_fn(u64) -> bool| #[trigger] run(added(b5.emitted(), b6.emitted()), t) == swap_pairs(
            t,
            point_seq(acc),
            point_seq(tmp),
            11,
        ),
        effect(
            added(b7.emitted(), b8.emitted()),
            b7.pool(),
            |t: spec_fn(u64) -> bool| xor_point(t, neg, point_neg_circuit(reg_point(t, addend))),
        ),
        effect(
            added(b9.emitted(), b10.emitted()),
            b9.pool(),
            |t: spec_fn(u64) -> bool| xor_point(t, prev, point_add_circuit(reg_point(t, acc), reg_point(t, neg))),
        ),
        effect(
            added(b10.emitted(), b11.emitted()),
            b10.pool(),
            |t: spec_fn(u64) -> bool|
                xor_point_bits(
                    t,
                    tmp,
                    value_of(previous.x@, 5, t),
                    value_of(previous.y@, 5, t),
                    eval(previous.inf, t),
                ),
        ),
        effect(
            added(b11.emitted(), b12.emitted()),
            b11.pool(),
            |t: spec_fn(u64) -> bool| xor_point(t, prev, point_add_circuit(reg_point(t, acc), reg_point(t, neg))),
        ),
        effect(
            added(b12.emitted(), b13.emitted()),
            b12.pool(),
            |t: spec_fn(u64) -> bool| xor_point(t, neg, point_neg_circuit(reg_point(t, addend))),
        ),
        controlled_add::selects_register(next, selector.0, sum, acc),
        controlled_add::selects_register(previous, selector.0, prev, acc),
    ensures
        forall|s: spec_fn(u64) -> bool|
            zero_on(s, b0.pool()) && in_group(reg_point(s, acc)) && in_group(reg_point(s, addend)) ==> #[trigger] cadd_done(
                run(added(b0.emitted(), bf.emitted()), s),
                s,
                acc,
                addend,
                selector.0,
            ),
{
    let o = seq![
        added(b2.emitted(), b3.emitted()),
        added(b3.emitted(), b4.emitted()),
        added(b4.emitted(), b5.emitted()),
        added(b5.emitted(), b6.emitted()),
        added(b7.emitted(), b8.emitted()),
        added(b9.emitted(), b10.emitted()),
        added(b10.emitted(), b11.emitted()),
        added(b11.emitted(), b12.emitted()),
        added(b12.emitted(), b13.emitted()),
    ];
    controlled_add::lemma_cadd_run(o, b0.pool(), b2.pool(), b7.pool(), b9.pool(), acc, addend, tmp, sum, neg, prev, selector.0, next, previous);
    builder::lemma_extends_trans(b2.emitted(), b3.emitted(), b4.emitted());
    builder::lemma_extends_trans(b2.emitted(), b4.emitted(), b5.emitted());
    builder::lemma_extends_trans(b2.emitted(), b5.emitted(), b6.emitted());
    builder::lemma_extends_trans(b2.emitted(), b6.emitted(), b8.emitted());
    builder::lemma_extends_trans(b2.emitted(), b8.emitted(), b10.emitted());
    builder::lemma_extends_trans(b2.emitted(), b10.emitted(), b11.emitted());
    builder::lemma_extends_trans(b2.emitted(), b11.emitted(), b12.emitted());
    builder::lemma_extends_trans(b2.emitted(), b12.emitted(), b13.emitted());
    builder::lemma_added_none(b0.emitted());
    assert(added(b0.emitted(), bf.emitted()) =~= o[0] + o[1] + o[2] + o[3] + o[4] + o[5] + o[6] + o[7] + o[8]);
}

/// Adds `addend` into `acc` where `selector` holds, reversibly: the sum or
/// the old value is copied into a scratch register, which is swapped with
/// `acc`, and the scratch is then cleared by XORing in the new value minus
/// the addend (or the new value itself where `selector` does not hold).
pub fn controlled_add_assign<S: OpSink>(
    builder: &mut Builder<S>,
    acc: &PointRegister,
    addend: &PointRegister,
    selector: QubitId,
)
    requires
        old(builder).wf(),
        acc.x@.len() == WIDTH,
        acc.y@.len() == WIDTH,
        addend.x@.len() == WIDTH,
        addend.y@.len() == WIDTH,
        !old(builder).failed() ==> point_live(old(builder).pool(), *acc) && point_live(old(builder).pool(), *addend)
            && point_qubits(*acc).disjoint(point_qubits(*addend)) && !old(builder).pool().contains(selector.0)
            && !point_qubits(*acc).contains(selector.0) && !point_qubits(*addend).contains(selector.0),
    ensures
        old(builder).pure_step(final(builder), point_qubits(*acc) + point_qubits(*addend) + set![selector.0]),
        !final(builder).failed() ==> forall|s: spec_fn(u64) -> bool|
            zero_on(s, old(builder).pool()) && in_group(reg_point(s, *acc)) && in_group(reg_point(s, *addend))
                ==> #[trigger] cadd_done(
                run(added(old(builder).emitted(), final(builder).emitted()), s),
                s,
                *acc,
                *addend,
                selector.0,
            ),
{
    let ghost p0 = builder.pool();
    let ghost a = point_qubits(*acc) + point_qubits(*addend) + set![selector.0];
    let ghost x = a + p0;
    let ghost b0 = *builder;
    proof {
        lemma_point_covers(*acc);
        lemma_point_covers(*addend);
    }
    let tmp = hold_point(builder);
    let ghost b1 = *builder;
    let sum = hold_point(builder);
    let ghost b2 = *builder;
    proof {
        lemma_silent_within(&b0, &b1, x);
        lemma_silent_within(&b1, &b2, x);
        lemma_point_covers(tmp);
        lemma_point_covers(sum);
    }
    point_add_xor(builder, acc, addend, &sum);
    let ghost b3 = *builder;
    let sel = Signal::qubit(selector);
    let accv = held_point(acc);
    let sumv = held_point(&sum);
    proof {
        assert(value_within(accv, point_qubits(*acc) + point_qubits(sum)));
        assert(value_within(sumv, point_qubits(*acc) + point_qubits(sum)));
    }
    let next = mux_point(builder, &sel, &sumv, &accv, Ghost(point_qubits(*acc) + point_qubits(sum)));
    proof {
        lemma_value_support(next, support(sel) + (point_qubits(*acc) + point_qubits(sum)));
        assert(support(sel) =~= set![selector.0]);
    }
    copy_point(builder, &next, &tmp);
    let ghost b4 = *builder;
    point_add_xor(builder, acc, addend, &sum);
    let ghost b5 = *builder;
    swap_points(builder, acc, &tmp);
    let ghost b6 = *builder;
    let neg = hold_point(builder);
    let ghost b7 = *builder;
    proof {
        lemma_point_covers(neg);
    }
    point_neg_xor(builder, addend, &neg);
    let ghost b8 = *builder;
    let prev = hold_point(builder);
    let ghost b9 = *builder;
    proof {
        lemma_point_covers(prev);
    }
    point_add_xor(builder, acc, &neg, &prev);
    let ghost b10 = *builder;
    let accv2 = held_point(acc);
    let prevv = held_point(&prev);
    proof {
        assert(value_within(accv2, point_qubits(*acc) + point_qubits(prev)));
        assert(value_within(prevv, point_qubits(*acc) + point_qubits(prev)));
    }
    let previous = mux_point(builder, &sel, &prevv, &accv2, Ghost(point_qubits(*acc) + point_qubits(prev)));
    proof {
        lemma_value_support(previous, support(sel) + (point_qubits(*acc) + point_qubits(prev)));
    }
    copy_point(builder, &previous, &tmp);
    let ghost b11 = *builder;
    point_add_xor(builder, acc, &neg, &prev);
    let ghost b12 = *builder;
    point_neg_xor(builder, addend, &neg);
    let ghost b13 = *builder;
    let ghost prev_q = point_qubits(prev);
    let ghost neg_q = point_qubits(neg);
    let ghost sum_q = point_qubits(sum);
    let ghost tmp_q = point_qubits(tmp);
    release_point(builder, prev);
    let ghost b14 = *builder;
    release_point(builder, neg);
    let ghost b15 = *builder;
    release_point(builder, sum);
    let ghost b16 = *builder;
    release_point(builder, tmp);
    proof {
        lemma_pure_within(&b2, &b3, point_qubits(*acc) + point_qubits(*addend) + sum_q, x);
        lemma_pure_within(&b3, &b4, value_support(next) + tmp_q, x);
        lemma_pure_within(&b4, &b5, point_qubits(*acc) + point_qubits(*addend) + sum_q, x);
        assert(step_within(&b5, &b6, x)) by {
            if !b6.failed() {
                assert(!b1.failed());
                assert(tmp_q.subset_of(p0));
                builder::lemma_ops_within_mono(added(b5.emitted(), b6.emitted()), point_qubits(*acc) + tmp_q, x);
            }
        }
        lemma_silent_within(&b6, &b7, x);
        lemma_pure_within(&b7, &b8, point_qubits(*addend) + neg_q, x);
        lemma_silent_within(&b8, &b9, x);
        lemma_pure_within(&b9, &b10, point_qubits(*acc) + neg_q + prev_q, x);
        lemma_pure_within(&b10, &b11, value_support(previous) + tmp_q, x);
        lemma_pure_within(&b11, &b12, point_qubits(*acc) + neg_q + prev_q, x);
        lemma_pure_within(&b12, &b13, point_qubits(*addend) + neg_q, x);
        lemma_silent_within(&b13, &b14, x);
        lemma_silent_within(&b14, &b15, x);
        lemma_silent_within(&b15, &b16, x);
        lemma_silent_within(&b16, builder, x);
        lemma_within_trans(&b0, &b1, &b2, x);
        lemma_within_trans(&b0, &b2, &b3, x);
        lemma_within_trans(&b0, &b3, &b4, x);
        lemma_within_trans(&b0, &b4, &b5, x);
        lemma_within_trans(&b0, &b5, &b6, x);
        lemma_within_trans(&b0, &b6, &b7, x);
        lemma_within_trans(&b0, &b7, &b8, x);
        lemma_within_trans(&b0, &b8, &b9, x);
        lemma_within_trans(&b0, &b9, &b10, x);
        lemma_within_trans(&b0, &b10, &b11, x);
        lemma_within_trans(&b0, &b11, &b12, x);
        lemma_within_trans(&b0, &b12, &b13, x);
        lemma_within_trans(&b0, &b13, &b14, x);
        lemma_within_trans(&b0, &b14, &b15, x);
        lemma_within_trans(&b0, &b15, &b16, x);
        lemma_within_trans(&b0, &b16, builder, x);
        if !builder.failed() {
            assert(builder.pool() =~= p0);
            lemma_cadd_law(
                &b0, &b2, &b3, &b4, &b5, &b6, &b7, &b8, &b9, &b10, &b11, &b12, &b13, builder,
                *acc, *addend, tmp, sum, neg, prev, selector, next, previous,
            );
        }
    }
}

/// XORs `2 * point` into `out`: the sum of the point with itself.
pub fn point_double_xor<S: OpSink>(builder: &mut Builder<S>, point: &PointRegister, out: &PointRegister)
    requires
        old(builder).wf(),
        point.x@.len() == WIDTH,
        point.y@.len() == WIDTH,
        out.x@.len() == WIDTH,
        out.y@.len() == WIDTH,
        !old(builder).failed() ==> add_io_ok(old(builder).pool(), *point, *point, *out),
    ensures
        old(builder).pure_step(final(builder), point_qubits(*point) + point_qubits(*out)),
        !final(builder).failed() ==> effect(
            added(old(builder).emitted(), final(builder).emitted()),
            old(builder).pool(),
            |s: spec_fn(u64) -> bool|
                xor_point(s, *out, point_add_circuit(reg_point(s, *point), reg_point(s, *point))),
        ),
{
    point_add_xor(builder, point, point, out);
    proof {
        assert(point_qubits(*point) + point_qubits(*point) + point_qubits(*out) =~= point_qubits(*point) + point_qubits(*out));
    }
}

/// `n` consecutive qubits from `start`.
pub open spec fn qubit_range(start: u64, n: nat) -> Seq<QubitId> {
    Seq::new(n, |i: int| QubitId((start + i) as u64))
}

/// The number of declaration operations the oracle starts with.
pub const DECLARATION_OPS: usize = 40;

/// The oracle's register declarations: a (qubits 0 to 4), b (5 to 9), the
/// x, y and flag of Q (10 to 14, 15 to 19, 20) and of the result R (21 to
/// 25, 26 to 30, 31), as registers 0 to 7.
pub open spec fn oracle_declarations() -> Seq<Op> {
    register_decl_ops(qubit_range(0, 5), 0) + register_decl_ops(qubit_range(5, 5), 1)
        + register_decl_ops(qubit_range(10, 5), 2) + register_decl_ops(qubit_range(15, 5), 3)
        + register_decl_ops(qubit_range(20, 1), 4) + register_decl_ops(qubit_range(21, 5), 5)
        + register_decl_ops(qubit_range(26, 5), 6) + register_decl_ops(qubit_range(31, 1), 7)
}

/// A recorded section is a step: opening a recording, stepping, and closing
/// it again.
pub proof fn lemma_recorded_step<S: OpSink>(
    before: &Builder<S>,
    opened: &Builder<S>,
    inner: &Builder<S>,
    after: &Builder<S>,
)
    requires
        before.wf(),
        opened.emitted() == before.emitted(),
        opened.failed() == before.failed(),
        opened.recording_depth() == before.recording_depth() + 1,
        opened.recording_starts() == before.recording_starts().push(before.emitted().len() as int),
        opened.next_id() == before.next_id(),
        opened.registers() == before.registers(),
        opened.step(inner),
        after.wf(),
        after.emitted() == inner.emitted(),
        after.failed() == inner.failed(),
        after.recording_depth() == inner.recording_depth() - 1,
        after.recording_starts() == inner.recording_starts().drop_last(),
        after.next_id() == inner.next_id(),
        after.registers() == inner.registers(),
    ensures
        before.step(after),
{
    assert(after.recording_starts() =~= before.recording_starts());
}

/// Declares a register of one qubit.
fn declare_single<S: OpSink>(builder: &mut Builder<S>, q: QubitId)
    requires
        old(builder).wf(),
    ensures
        old(builder).step(final(builder)),
        final(builder).pool() == old(builder).pool(),
        final(builder).next_id() == old(builder).next_id(),
        !old(builder).failed() && old(builder).registers() < NO_INDEX && q.0 != NO_INDEX ==> !final(builder).failed()
            && final(builder).emitted() == old(builder).emitted() + register_decl_ops(seq![q], old(builder).registers())
            && final(builder).registers() == old(builder).registers() + 1,
{
    let mut v: Vec<QubitId> = Vec::new();
    v.push(q);
    proof {
        assert(v@ =~= seq![q]);
    }
    builder.declare_qubit_register(&v);
}

/// The inputs of the oracle are in place: the point registers `q` and `r`
/// well shaped, live and apart, and the scalars' qubits live and apart from
/// both.
pub open spec fn oracle_io_ok(
    pool: Set<u64>,
    a: Seq<QubitId>,
    b: Seq<QubitId>,
    q: PointRegister,
    r: PointRegister,
) -> bool {
    &&& point_live(pool, q)
    &&& point_live(pool, r)
    &&& point_qubits(q).disjoint(point_qubits(r))
    &&& qubit_set(a).disjoint(pool + point_qubits(q) + point_qubits(r))
    &&& qubit_set(b).disjoint(pool + point_qubits(q) + point_qubits(r))
}

/// XORs `aG + bQ` into `r`, for the scalars in `a` and `b` and the point in
/// `q`. The generator is XORed into a held point; `aG` and `bQ` are
/// computed into two more held points, each set to the point at infinity
/// and then accumulated by the scalar schedule under a recording; their sum
/// is XORed into `r`; the recordings are replayed in reverse and the
/// generator is XORed out again, so that the held points end clear. For a
/// point `Q` of the group generated by `G`, the result is the reference
/// `aG + bQ`, and no other qubit changes.
pub fn oracle_into<S: OpSink>(
    builder: Builder<S>,
    a: &Vec<QubitId>,
    b: &Vec<QubitId>,
    q: &PointRegister,
    r: &PointRegister,
) -> (out: Builder<S>)
    requires
        builder.wf(),
        a@.len() == WIDTH,
        b@.len() == WIDTH,
        q.x@.len() == WIDTH,
        q.y@.len() == WIDTH,
        r.x@.len() == WIDTH,
        r.y@.len() == WIDTH,
        !builder.failed() ==> oracle_io_ok(builder.pool(), a@, b@, *q, *r),
    ensures
        builder.step(&out),
        !out.failed() ==> forall|s: spec_fn(u64) -> bool|
            zero_on(s, builder.pool()) && in_group(reg_point(s, *q)) ==> #[trigger] run(
                added(builder.emitted(), out.emitted()),
                s,
            ) == xor_point(
                s,
                *r,
                oracle_point_spec(qubits_value(a@, 5, s) as u16, qubits_value(b@, 5, s) as u16, reg_point(s, *q)),
            ),
{
    let mut builder = builder;
    let ghost b0 = builder;
    proof {
        lemma_point_covers(*q);
        lemma_point_covers(*r);
    }
    let g = hold_point(&mut builder);
    let ghost b3 = builder;
    let generator = point_const(1, 15, false);
    let infinity = point_const(0, 0, true);
    proof {
        lemma_value_support(generator, Set::empty());
        lemma_value_support(infinity, Set::empty());
    }
    copy_point(&mut builder, &generator, &g);
    let ghost b4 = builder;
    let a_hold = hold_point(&mut builder);
    let ghost b5 = builder;
    let b_hold = hold_point(&mut builder);
    let ghost b6 = builder;
    proof {
        lemma_point_covers(g);
        lemma_point_covers(a_hold);
        lemma_point_covers(b_hold);
    }
    builder.begin_recording();
    let ghost b7 = builder;
    copy_point(&mut builder, &infinity, &a_hold);
    let ghost b7c = builder;
    let mut ctx = ScalarMulContext::new(builder, copy_qubits(a), copy_register(&g), copy_register(&a_hold));
    let ghost ca = ctx;
    scalar_mul_into(&mut ctx);
    let ghost ce = ctx.builder;
    let mut builder = ctx.release_points();
    let ghost b8 = builder;
    let a_tape = builder.end_recording();
    let ghost b9 = builder;
    proof {
        Builder::lemma_step_trans(&b7, &b7c, &ce);
        Builder::lemma_step_trans(&b7, &ce, &b8);
        assert(a_tape@ == added(b7.emitted(), b8.emitted()));
        lemma_recorded_step(&b6, &b7, &b8, &b9);
    }
    builder.begin_recording();
    let ghost b10 = builder;
    copy_point(&mut builder, &infinity, &b_hold);
    let ghost b10c = builder;
    let mut ctx = ScalarMulContext::new(builder, copy_qubits(b), copy_register(q), copy_register(&b_hold));
    let ghost cb = ctx;
    scalar_mul_into(&mut ctx);
    let ghost cf = ctx.builder;
    let mut builder = ctx.release_points();
    let ghost b11 = builder;
    let b_tape = builder.end_recording();
    let ghost b12 = builder;
    proof {
        Builder::lemma_step_trans(&b10, &b10c, &cf);
        Builder::lemma_step_trans(&b10, &cf, &b11);
        assert(b_tape@ == added(b10.emitted(), b11.emitted()));
        lemma_recorded_step(&b9, &b10, &b11, &b12);
    }
    point_add_xor(&mut builder, &a_hold, &b_hold, r);
    let ghost b13 = builder;
    builder.append_reverse_tape(&b_tape);
    let ghost b14 = builder;
    let ghost bh = b_hold;
    release_point(&mut builder, b_hold);
    let ghost b15 = builder;
    builder.append_reverse_tape(&a_tape);
    let ghost b16 = builder;
    let ghost ah = a_hold;
    release_point(&mut builder, a_hold);
    let ghost b17 = builder;
    copy_point(&mut builder, &generator, &g);
    let ghost b18 = builder;
    let ghost gg = g;
    release_point(&mut builder, g);
    proof {
        Builder::lemma_step_trans(&b0, &b3, &b4);
        Builder::lemma_step_trans(&b0, &b4, &b5);
        Builder::lemma_step_trans(&b0, &b5, &b6);
        Builder::lemma_step_trans(&b0, &b6, &b9);
        Builder::lemma_step_trans(&b0, &b9, &b12);
        Builder::lemma_step_trans(&b0, &b12, &b13);
        Builder::lemma_step_trans(&b0, &b13, &b14);
        Builder::lemma_step_trans(&b0, &b14, &b15);
        Builder::lemma_step_trans(&b0, &b15, &b16);
        Builder::lemma_step_trans(&b0, &b16, &b17);
        Builder::lemma_step_trans(&b0, &b17, &b18);
        Builder::lemma_step_trans(&b0, &b18, &builder);
        if !builder.failed() {
            let p0 = b0.pool();
            let p3 = b3.pool();
            let p6 = b6.pool();
            let og = added(b3.emitted(), b4.emitted());
            let ac = added(b7.emitted(), b7c.emitted());
            let amul = added(b7c.emitted(), ce.emitted());
            let bc = added(b10.emitted(), b10c.emitted());
            let bmul = added(b10c.emitted(), cf.emitted());
            let oadd = added(b12.emitted(), b13.emitted());
            let og2 = added(b17.emitted(), b18.emitted());
            // The pools as the points are held and released.
            assert(b17.pool() =~= p3);
            // What each piece does.
            oracle_law::lemma_copy_const(og, p3, generator, gg, generator_spec());
            oracle_law::lemma_copy_const(ac, p6, infinity, ah, infinity_point());
            oracle_law::lemma_copy_const(bc, p6, infinity, bh, infinity_point());
            oracle_law::lemma_copy_const(og2, p3, generator, gg, generator_spec());
            assert forall|t: spec_fn(u64) -> bool|
                zero_on(t, p6) && in_group(reg_point(t, gg)) && in_group(reg_point(t, ah)) implies #[trigger] scalar_api::smul_done(
                run(amul, t),
                t,
                gg,
                ah,
                a@,
            ) by {
                assert(reg_point(t, ca.point) == reg_point(t, gg));
                assert(reg_point(t, ca.out) == reg_point(t, ah));
                assert(scalar_api::smul_done(run(amul, t), t, ca.point, ca.out, ca.scalar@));
                assert(point_qubits(ca.out) == point_qubits(ah));
                assert(reg_point(run(amul, t), ca.out) == reg_point(run(amul, t), ah));
            }
            assert forall|t: spec_fn(u64) -> bool|
                zero_on(t, p6) && in_group(reg_point(t, *q)) && in_group(reg_point(t, bh)) implies #[trigger] scalar_api::smul_done(
                run(bmul, t),
                t,
                *q,
                bh,
                b@,
            ) by {
                assert(reg_point(t, cb.point) == reg_point(t, *q));
                assert(reg_point(t, cb.out) == reg_point(t, bh));
                assert(scalar_api::smul_done(run(bmul, t), t, cb.point, cb.out, cb.scalar@));
                assert(point_qubits(cb.out) == point_qubits(bh));
                assert(reg_point(run(bmul, t), cb.out) == reg_point(run(bmul, t), bh));
            }
            builder::lemma_extends_trans(b7.emitted(), b7c.emitted(), ce.emitted());
            builder::lemma_extends_trans(b10.emitted(), b10c.emitted(), cf.emitted());
            assert(oracle_law::oracle_pieces(og, ac, amul, bc, bmul, oadd, og2, p3, p6, gg, ah, bh, *q, *r, a@, b@));
            assert(oracle_law::oracle_frame(p0, p3, p6, gg, ah, bh, *q, *r, a@, b@));
            // The emitted operations are the pieces one after another.
            let at = ac + amul;
            let bt = bc + bmul;
            assert(added(b13.emitted(), b14.emitted()) =~= bt.reverse());
            assert(added(b15.emitted(), b16.emitted()) =~= at.reverse());
            builder::lemma_extends_trans(b3.emitted(), b4.emitted(), b8.emitted());
            builder::lemma_extends_trans(b3.emitted(), b8.emitted(), b11.emitted());
            builder::lemma_extends_trans(b3.emitted(), b11.emitted(), b13.emitted());
            builder::lemma_extends_trans(b3.emitted(), b13.emitted(), b14.emitted());
            builder::lemma_extends_trans(b3.emitted(), b14.emitted(), b16.emitted());
            builder::lemma_extends_trans(b3.emitted(), b16.emitted(), b18.emitted());
            assert(added(b0.emitted(), builder.emitted()) == og + at + bt + oadd + bt.reverse() + at.reverse() + og2);
            assert forall|s: spec_fn(u64) -> bool|
                zero_on(s, p0) && in_group(reg_point(s, *q)) implies #[trigger] run(
                added(b0.emitted(), builder.emitted()),
                s,
            ) == xor_point(
                s,
                *r,
                oracle_point_spec(qubits_value(a@, 5, s) as u16, qubits_value(b@, 5, s) as u16, reg_point(s, *q)),
            ) by {
                oracle_law::lemma_oracle_run(s, og, ac, amul, bc, bmul, oadd, og2, p0, p3, p6, gg, ah, bh, *q, *r, a@, b@);
            }
        }
    }
    builder
}

/// Emits the oracle `|a>|b>|Q>|0> -> |a>|b>|Q>|aG + bQ>` into `sink`: the
/// eight registers are declared first, then `oracle_into` XORs `aG + bQ`
/// into R.
pub fn build_into<S: OpSink>(sink: S) -> (out: S)
    requires
        sink.sink_inv(),
    ensures
        out.sink_inv(),
        extends(sink.emitted(), out.emitted()),
        all_reversible(added(sink.emitted(), out.emitted())),
        added(sink.emitted(), out.emitted()).len() >= DECLARATION_OPS,
        added(sink.emitted(), out.emitted()).subrange(0, DECLARATION_OPS as int) == oracle_declarations(),
{
    let (out, _built) = build_checked_into(sink);
    out
}

/// The register views of the oracle's input point `Q` (qubits 10 to 20) and
/// output point `R` (qubits 21 to 31).
pub open spec fn q_register_view() -> (Seq<QubitId>, Seq<QubitId>, QubitId) {
    (qubit_range(10, 5), qubit_range(15, 5), QubitId(20))
}

/// The view of the output register `R`.
pub open spec fn r_register_view() -> (Seq<QubitId>, Seq<QubitId>, QubitId) {
    (qubit_range(21, 5), qubit_range(26, 5), QubitId(31))
}

/// The oracle law for the operations after the declarations: on every basis
/// state whose qubits from 32 on are clear, with `a` in qubits 0 to 4, `b` in
/// qubits 5 to 9 and a point `Q` of the group generated by `G` in qubits 10
/// to 20, running them XORs the reference `aG + bQ` into qubits 21 to 31 and
/// changes nothing else.
pub open spec fn oracle_law(ops: Seq<Op>) -> bool {
    forall|q: PointRegister, r: PointRegister|
        #![trigger q@, r@]
        q@ == q_register_view() && r@ == r_register_view() ==> forall|s: spec_fn(u64) -> bool|
            (forall|x: u64| x >= 32 ==> !#[trigger] s(x)) && in_group(reg_point(s, q)) ==> #[trigger] run(ops, s)
                == xor_point(
                s,
                r,
                oracle_point_spec(
                    qubits_value(qubit_range(0, 5), 5, s) as u16,
                    qubits_value(qubit_range(5, 5), 5, s) as u16,
                    reg_point(s, q),
                ),
            )
}

/// Emits the oracle into `sink` and says whether building succeeded; when
/// it did, the operations after the declarations obey the oracle law.
pub fn build_checked_into<S: OpSink>(sink: S) -> (res: (S, bool))
    requires
        sink.sink_inv(),
    ensures
        res.0.sink_inv(),
        extends(sink.emitted(), res.0.emitted()),
        all_reversible(added(sink.emitted(), res.0.emitted())),
        added(sink.emitted(), res.0.emitted()).len() >= DECLARATION_OPS,
        added(sink.emitted(), res.0.emitted()).subrange(0, DECLARATION_OPS as int) == oracle_declarations(),
        res.1 ==> oracle_law(
            added(sink.emitted(), res.0.emitted()).subrange(
                DECLARATION_OPS as int,
                added(sink.emitted(), res.0.emitted()).len() as int,
            ),
        ),
{
    let mut builder = Builder::with_sink(sink);
    let ghost b0 = builder;
    proof {
        builder.lemma_step_refl();
    }
    let ghost m = builder;
    let a = builder.alloc_qubits(WIDTH);
    proof {
        Builder::lemma_step_trans(&b0, &m, &builder);
    }
    let ghost m = builder;
    let b = builder.alloc_qubits(WIDTH);
    proof {
        Builder::lemma_step_trans(&b0, &m, &builder);
    }
    let ghost m = builder;
    let qx = builder.alloc_qubits(WIDTH);
    proof {
        Builder::lemma_step_trans(&b0, &m, &builder);
    }
    let ghost m = builder;
    let qy = builder.alloc_qubits(WIDTH);
    proof {
        Builder::lemma_step_trans(&b0, &m, &builder);
    }
    let ghost m = builder;
    let qinf = builder.alloc_qubit();
    proof {
        Builder::lemma_step_trans(&b0, &m, &builder);
    }
    let ghost m = builder;
    let rx = builder.alloc_qubits(WIDTH);
    proof {
        Builder::lemma_step_trans(&b0, &m, &builder);
    }
    let ghost m = builder;
    let ry = builder.alloc_qubits(WIDTH);
    proof {
        Builder::lemma_step_trans(&b0, &m, &builder);
    }
    let ghost m = builder;
    let rinf = builder.alloc_qubit();
    proof {
        Builder::lemma_step_trans(&b0, &m, &builder);
    }
    let ghost b1 = builder;
    proof {
        assert(a@ =~= qubit_range(0, 5));
        assert(b@ =~= qubit_range(5, 5));
        assert(qx@ =~= qubit_range(10, 5));
        assert(qy@ =~= qubit_range(15, 5));
        assert(seq![qinf] =~= qubit_range(20, 1));
        assert(rx@ =~= qubit_range(21, 5));
        assert(ry@ =~= qubit_range(26, 5));
        assert(seq![rinf] =~= qubit_range(31, 1));
        assert(!builder.failed());
        assert forall|q: u64| q < 32 implies !#[trigger] builder.pool().contains(q) by {
            if q < 5 {
                assert(a@[q as int].0 == q);
            } else if q < 10 {
                assert(b@[q - 5].0 == q);
            } else if q < 15 {
                assert(qx@[q - 10].0 == q);
            } else if q < 20 {
                assert(qy@[q - 15].0 == q);
            } else if q < 21 {
            } else if q < 26 {
                assert(rx@[q - 21].0 == q);
            } else if q < 31 {
                assert(ry@[q - 26].0 == q);
            }
        }
    }
    proof {
        builder.lemma_step_refl();
    }
    let ghost m = builder;
    builder.declare_qubit_register(&a);
    proof {
        Builder::lemma_step_trans(&b1, &m, &builder);
    }
    let ghost m = builder;
    builder.declare_qubit_register(&b);
    proof {
        Builder::lemma_step_trans(&b1, &m, &builder);
    }
    let ghost m = builder;
    builder.declare_qubit_register(&qx);
    proof {
        Builder::lemma_step_trans(&b1, &m, &builder);
    }
    let ghost m = builder;
    builder.declare_qubit_register(&qy);
    proof {
        Builder::lemma_step_trans(&b1, &m, &builder);
    }
    let ghost m = builder;
    declare_single(&mut builder, qinf);
    proof {
        Builder::lemma_step_trans(&b1, &m, &builder);
    }
    let ghost m = builder;
    builder.declare_qubit_register(&rx);
    proof {
        Builder::lemma_step_trans(&b1, &m, &builder);
    }
    let ghost m = builder;
    builder.declare_qubit_register(&ry);
    proof {
        Builder::lemma_step_trans(&b1, &m, &builder);
    }
    let ghost m = builder;
    declare_single(&mut builder, rinf);
    proof {
        Builder::lemma_step_trans(&b1, &m, &builder);
    }
    let ghost b2 = builder;
    proof {
        assert(!builder.failed());
        assert(builder.emitted() =~= b0.emitted() + oracle_declarations());
    }
    let q = PointRegister { x: qx, y: qy, inf: qinf };
    let r = PointRegister { x: rx, y: ry, inf: rinf };
    proof {
        assert(point_seq(q) =~= qubit_range(10, 11));
        assert(point_seq(r) =~= qubit_range(21, 11));
        lemma_range(10, 11);
        lemma_range(21, 11);
        lemma_range(0, 5);
        lemma_range(5, 5);
    }
    let builder = oracle_into(builder, &a, &b, &q, &r);
    let built = !builder.has_failed();
    proof {
        Builder::lemma_step_trans(&b0, &b1, &b2);
        Builder::lemma_step_trans(&b0, &b2, &builder);
        builder::lemma_extends_trans(b0.emitted(), b2.emitted(), builder.emitted());
        let all = added(b0.emitted(), builder.emitted());
        assert(all.subrange(0, DECLARATION_OPS as int) =~= oracle_declarations());
        assert(all.subrange(DECLARATION_OPS as int, all.len() as int) =~= added(b2.emitted(), builder.emitted()));
        if built {
            lemma_build_law(b2.pool(), added(b2.emitted(), builder.emitted()), a@, b@, q, r);
        }
    }
    (builder.finish_sink(), built)
}

/// The law of `oracle_into`, on the registers `build_checked_into` declares,
/// is the oracle law.
proof fn lemma_build_law(
    pool: Set<u64>,
    ops: Seq<Op>,
    a: Seq<QubitId>,
    b: Seq<QubitId>,
    q0: PointRegister,
    r0: PointRegister,
)
    requires
        forall|x: u64| #[trigger] pool.contains(x) ==> x >= 32,
        a == qubit_range(0, 5),
        b == qubit_range(5, 5),
        q0@ == q_register_view(),
        r0@ == r_register_view(),
        forall|s: spec_fn(u64) -> bool|
            zero_on(s, pool) && in_group(reg_point(s, q0)) ==> #[trigger] run(ops, s) == xor_point(
                s,
                r0,
                oracle_point_spec(qubits_value(a, 5, s) as u16, qubits_value(b, 5, s) as u16, reg_point(s, q0)),
            ),
    ensures
        oracle_law(ops),
{
    assert forall|q: PointRegister, r: PointRegister|
        #![trigger q@, r@]
        q@ == q_register_view() && r@ == r_register_view() implies forall|s: spec_fn(u64) -> bool|
            (forall|x: u64| x >= 32 ==> !#[trigger] s(x)) && in_group(reg_point(s, q)) ==> #[trigger] run(ops, s)
                == xor_point(
                s,
                r,
                oracle_point_spec(
                    qubits_value(qubit_range(0, 5), 5, s) as u16,
                    qubits_value(qubit_range(5, 5), 5, s) as u16,
                    reg_point(s, q),
                ),
            ) by {
        assert(q.x@ == q0.x@ && q.y@ == q0.y@ && q.inf == q0.inf);
        assert(r.x@ == r0.x@ && r.y@ == r0.y@ && r.inf == r0.inf);
        assert forall|s: spec_fn(u64) -> bool|
            (forall|x: u64| x >= 32 ==> !#[trigger] s(x)) && in_group(reg_point(s, q)) implies #[trigger] run(ops, s)
                == xor_point(
                s,
                r,
                oracle_point_spec(
                    qubits_value(qubit_range(0, 5), 5, s) as u16,
                    qubits_value(qubit_range(5, 5), 5, s) as u16,
                    reg_point(s, q),
                ),
            ) by {
            assert(reg_point(s, q) == reg_point(s, q0));
            assert(zero_on(s, pool));
            assert(run(ops, s) == xor_point(
                s,
                r0,
                oracle_point_spec(qubits_value(a, 5, s) as u16, qubits_value(b, 5, s) as u16, reg_point(s, q0)),
            ));
        }
    }
}

/// The qubits of a range are distinct and are the identifiers from `start`
/// below `start + n`.
pub proof fn lemma_range(start: u64, n: nat)
    requires
        start + n <= NO_INDEX,
    ensures
        distinct_qubits(qubit_range(start, n)),
        forall|q: u64| #[trigger] qubit_set(qubit_range(start, n)).contains(q) <==> start <= q < start + n,
{
    assert forall|q: u64| #[trigger] qubit_set(qubit_range(start, n)).contains(q) <==> start <= q < start + n by {
        if start <= q < start + n {
            assert(qubit_range(start, n)[q - start].0 == q);
        }
    }
}

/// The oracle's operation stream.
pub fn build() -> (ops: Vec<Op>)
    ensures
        all_reversible(ops@),
        ops@.len() >= DECLARATION_OPS,
        ops@.subrange(0, DECLARATION_OPS as int) == oracle_declarations(),
{
    let sink = build_into(VecOpSink::default());
    let ops = sink.into_ops();
    proof {
        assert(added(Seq::<Op>::empty(), ops@) =~= ops@);
    }
    ops
}

} // verus!
