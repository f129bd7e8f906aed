//! Point registers as stores of points on one shot: what a register holds
//! bit by bit, how XORing a point into it and exchanging two registers
//! change that, and what stays unchanged.
use super::builder::{distinct_qubits, qubit_set};
use super::field_circuits::{lemma_qubits_value_bit, lemma_qubits_value_bits, lemma_xor_bits_at, lemma_xor_bits_outside, xor_bits_of};
use super::point_semantics::{lemma_swap_pairs_read, lemma_xor_point_outside, reg_point, swap_pairs, xor_point};
use super::semantics::agree_outside;
use super::signal::{nat_bit, qubits_value};
use super::{lemma_point_parts, point_qubits, point_reg_ok, point_seq, PointRegister};
use crate::circuit::QubitId;
use crate::curve::Point;
use vstd::arithmetic::power2::{lemma2_to64, lemma_pow2_pos};
use vstd::prelude::*;

verus! {

/// Register `r` holds the bits of `p`: five of x, five of y, and the flag.
pub open spec fn holds(t: spec_fn(u64) -> bool, r: PointRegister, p: Point) -> bool {
    &&& forall|i: int| 0 <= i < 5 ==> t(#[trigger] r.x@[i].0) == nat_bit(p.x as nat, i as nat)
    &&& forall|i: int| 0 <= i < 5 ==> t(#[trigger] r.y@[i].0) == nat_bit(p.y as nat, i as nat)
    &&& t(r.inf.0) == p.infinity
}

/// The point whose bits are all clear.
pub open spec fn clear_point() -> Point {
    Point { x: 0, y: 0, infinity: false }
}

/// A register holding a point with five-bit coordinates reads as it.
pub proof fn lemma_holds_read(t: spec_fn(u64) -> bool, r: PointRegister, p: Point)
    requires
        r.x@.len() == 5,
        r.y@.len() == 5,
        holds(t, r, p),
        p.x < 32,
        p.y < 32,
    ensures
        reg_point(t, r) == p,
{
    lemma_qubits_value_bits(r.x@, t, p.x as nat, 5);
    lemma_qubits_value_bits(r.y@, t, p.y as nat, 5);
    lemma2_to64();
}

/// A register holds the point it reads as.
pub proof fn lemma_holds_reg(t: spec_fn(u64) -> bool, r: PointRegister)
    requires
        r.x@.len() == 5,
        r.y@.len() == 5,
    ensures
        holds(t, r, reg_point(t, r)),
{
    super::field_circuits::lemma_qubits_value_bound(r.x@, 5, t);
    super::field_circuits::lemma_qubits_value_bound(r.y@, 5, t);
    lemma2_to64();
    assert forall|i: int| 0 <= i < 5 implies t(#[trigger] r.x@[i].0) == nat_bit(reg_point(t, r).x as nat, i as nat) by {
        lemma_qubits_value_bit(r.x@, t, i);
    }
    assert forall|i: int| 0 <= i < 5 implies t(#[trigger] r.y@[i].0) == nat_bit(reg_point(t, r).y as nat, i as nat) by {
        lemma_qubits_value_bit(r.y@, t, i);
    }
}

/// No bit of zero is set.
proof fn lemma_no_bits()
    ensures
        forall|i: nat| !#[trigger] nat_bit(0, i),
{
    assert forall|i: nat| !#[trigger] nat_bit(0, i) by {
        lemma_pow2_pos(i);
    }
}

/// XORing `p` into a register holding `h` makes it hold `p` when `h` is
/// clear, and clears it when `h` is `p`.
pub proof fn lemma_holds_xor(t: spec_fn(u64) -> bool, r: PointRegister, h: Point, p: Point)
    requires
        point_reg_ok(r),
        holds(t, r, h),
        h == clear_point() || h == p,
    ensures
        holds(xor_point(t, r, p), r, if h == clear_point() { p } else { clear_point() }),
{
    lemma_point_parts(r);
    lemma_no_bits();
    let u = xor_bits_of(t, r.x@, p.x as nat, 5);
    let v = xor_bits_of(u, r.y@, p.y as nat, 5);
    let w = xor_point(t, r, p);
    let e = if h == clear_point() { p } else { clear_point() };
    assert(r.x@.subrange(0, 5) =~= r.x@);
    assert(r.y@.subrange(0, 5) =~= r.y@);
    assert forall|i: int| 0 <= i < 5 implies w(#[trigger] r.x@[i].0) == nat_bit(e.x as nat, i as nat) by {
        lemma_xor_bits_at(t, r.x@, p.x as nat, 5, i);
        assert(qubit_set(r.x@).contains(r.x@[i].0));
        assert forall|j: int| 0 <= j < 5 implies (#[trigger] r.y@[j]).0 != r.x@[i].0 by {
            assert(qubit_set(r.y@).contains(r.y@[j].0));
        }
        lemma_xor_bits_outside(u, r.y@, p.y as nat, 5, r.x@[i].0);
    }
    assert forall|i: int| 0 <= i < 5 implies w(#[trigger] r.y@[i].0) == nat_bit(e.y as nat, i as nat) by {
        lemma_xor_bits_at(u, r.y@, p.y as nat, 5, i);
        assert(qubit_set(r.y@).contains(r.y@[i].0));
        assert forall|j: int| 0 <= j < 5 implies (#[trigger] r.x@[j]).0 != r.y@[i].0 by {
            assert(qubit_set(r.x@).contains(r.x@[j].0));
        }
        lemma_xor_bits_outside(t, r.x@, p.x as nat, 5, r.y@[i].0);
    }
    assert forall|j: int| 0 <= j < 5 implies (#[trigger] r.x@[j]).0 != r.inf.0 by {
        assert(qubit_set(r.x@).contains(r.x@[j].0));
    }
    assert forall|j: int| 0 <= j < 5 implies (#[trigger] r.y@[j]).0 != r.inf.0 by {
        assert(qubit_set(r.y@).contains(r.y@[j].0));
    }
    lemma_xor_bits_outside(t, r.x@, p.x as nat, 5, r.inf.0);
    lemma_xor_bits_outside(u, r.y@, p.y as nat, 5, r.inf.0);
}

/// What a register holds depends only on its qubits.
pub proof fn lemma_holds_frame(t1: spec_fn(u64) -> bool, t2: spec_fn(u64) -> bool, r: PointRegister, p: Point)
    requires
        r.x@.len() == 5,
        r.y@.len() == 5,
        holds(t1, r, p),
        forall|q: u64| point_qubits(r).contains(q) ==> t1(q) == t2(q),
    ensures
        holds(t2, r, p),
{
    super::lemma_point_covers(r);
    assert forall|i: int| 0 <= i < 5 implies t2(#[trigger] r.x@[i].0) == nat_bit(p.x as nat, i as nat) by {
        assert(qubit_set(r.x@).contains(r.x@[i].0));
    }
    assert forall|i: int| 0 <= i < 5 implies t2(#[trigger] r.y@[i].0) == nat_bit(p.y as nat, i as nat) by {
        assert(qubit_set(r.y@).contains(r.y@[i].0));
    }
}

/// XORing a point into one register keeps what another holds.
pub proof fn lemma_holds_other(t: spec_fn(u64) -> bool, r: PointRegister, p: Point, o: PointRegister, h: Point)
    requires
        r.x@.len() == 5,
        r.y@.len() == 5,
        o.x@.len() == 5,
        o.y@.len() == 5,
        holds(t, o, h),
        point_qubits(r).disjoint(point_qubits(o)),
    ensures
        holds(xor_point(t, r, p), o, h),
{
    assert forall|q: u64| point_qubits(o).contains(q) implies t(q) == xor_point(t, r, p)(q) by {
        lemma_xor_point_outside(t, r, p.x as nat, p.y as nat, p.infinity, q);
    }
    lemma_holds_frame(t, xor_point(t, r, p), o, h);
}

/// Exchanging two registers exchanges what they hold and keeps every other
/// qubit.
pub proof fn lemma_holds_swap(t: spec_fn(u64) -> bool, a: PointRegister, b: PointRegister, pa: Point, pb: Point)
    requires
        point_reg_ok(a),
        point_reg_ok(b),
        point_qubits(a).disjoint(point_qubits(b)),
        holds(t, a, pa),
        holds(t, b, pb),
    ensures
        holds(swap_pairs(t, point_seq(a), point_seq(b), 11), a, pb),
        holds(swap_pairs(t, point_seq(a), point_seq(b), 11), b, pa),
        agree_outside(swap_pairs(t, point_seq(a), point_seq(b), 11), t, point_qubits(a) + point_qubits(b)),
{
    let sa = point_seq(a);
    let sb = point_seq(b);
    let w = swap_pairs(t, sa, sb, 11);
    assert forall|i: int| 0 <= i < 5 implies #[trigger] sa[i] == a.x@[i] && sa[i + 5] == a.y@[i] && sb[i] == b.x@[i]
        && sb[i + 5] == b.y@[i] by {}
    assert(sa[10] == a.inf && sb[10] == b.inf);
    assert forall|i: int| 0 <= i < 5 implies w(#[trigger] a.x@[i].0) == nat_bit(pb.x as nat, i as nat) by {
        lemma_swap_pairs_read(t, sa, sb, 11, sa[i].0);
        assert(sa[i] == a.x@[i]);
    }
    assert forall|i: int| 0 <= i < 5 implies w(#[trigger] a.y@[i].0) == nat_bit(pb.y as nat, i as nat) by {
        lemma_swap_pairs_read(t, sa, sb, 11, sa[i + 5].0);
        assert(sa[i + 5] == a.y@[i]);
    }
    lemma_swap_pairs_read(t, sa, sb, 11, sa[10].0);
    assert forall|i: int| 0 <= i < 5 implies w(#[trigger] b.x@[i].0) == nat_bit(pa.x as nat, i as nat) by {
        lemma_swap_pairs_read(t, sa, sb, 11, sb[i].0);
        assert(sb[i] == b.x@[i]);
    }
    assert forall|i: int| 0 <= i < 5 implies w(#[trigger] b.y@[i].0) == nat_bit(pa.y as nat, i as nat) by {
        lemma_swap_pairs_read(t, sa, sb, 11, sb[i + 5].0);
        assert(sb[i + 5] == b.y@[i]);
    }
    lemma_swap_pairs_read(t, sa, sb, 11, sb[10].0);
    assert forall|q: u64| !(point_qubits(a) + point_qubits(b)).contains(q) implies w(q) == t(q) by {
        lemma_swap_pairs_read(t, sa, sb, 11, q);
        assert forall|i: int| 0 <= i < 11 implies sa[i].0 != q && sb[i].0 != q by {
            assert(qubit_set(sa).contains(sa[i].0));
            assert(qubit_set(sb).contains(sb[i].0));
        }
    }
}

/// A register holding the clear point has every qubit clear.
pub proof fn lemma_holds_clear(t: spec_fn(u64) -> bool, r: PointRegister, q: u64)
    requires
        r.x@.len() == 5,
        r.y@.len() == 5,
        holds(t, r, clear_point()),
        point_qubits(r).contains(q),
    ensures
        !t(q),
{
    lemma_no_bits();
    let sq = point_seq(r);
    let i = choose|i: int| 0 <= i < sq.len() && (#[trigger] sq[i]).0 == q;
    if i < 5 {
        assert(sq[i] == r.x@[i]);
        assert(t(r.x@[i].0) == nat_bit(0, i as nat));
    } else if i < 10 {
        assert(sq[i] == r.y@[i - 5]);
        assert(t(r.y@[i - 5].0) == nat_bit(0, (i - 5) as nat));
    } else {
        assert(sq[i] == r.inf);
    }
}

/// A register of qubits that are all clear holds the clear point.
pub proof fn lemma_clear_holds(t: spec_fn(u64) -> bool, r: PointRegister)
    requires
        r.x@.len() == 5,
        r.y@.len() == 5,
        forall|q: u64| point_qubits(r).contains(q) ==> !t(q),
    ensures
        holds(t, r, clear_point()),
{
    lemma_no_bits();
    super::lemma_point_covers(r);
    assert forall|i: int| 0 <= i < 5 implies t(#[trigger] r.x@[i].0) == nat_bit(0, i as nat) by {
        assert(qubit_set(r.x@).contains(r.x@[i].0));
    }
    assert forall|i: int| 0 <= i < 5 implies t(#[trigger] r.y@[i].0) == nat_bit(0, i as nat) by {
        assert(qubit_set(r.y@).contains(r.y@[i].0));
    }
}

} // verus!
