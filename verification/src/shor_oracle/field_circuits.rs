//! Register-level F_31 kernels. Each XORs a field result into target qubits,
//! computing its intermediates into held scratch registers, copying the
//! result out, and uncomputing the scratch so that it returns to the pool
//! clean.
use super::builder::{
    lemma_mul_const_step, lemma_rotate_value, rotate_source, times_pow2_mod31, added, distinct_qubits, effect, lemma_bit_at_within, qubit_set, set_wire, Builder, WIDTH,
};
use super::semantics::{flip, ops_within, run, zero_on};
use super::signal::{
    const_bits, qubit_signals, SignalKind, support, bit_at_spec, bval, eval, lemma_eval_frame, nat_bit, qubits_value, supports, value_of, Signal,
};
use crate::circuit::{Op, QubitId};
use crate::ops_io::OpSink;
use vstd::arithmetic::power2::pow2;
use vstd::prelude::*;

verus! {

/// Bit `k` of a little-endian signal vector under `s`; bits past the end read
/// false.
pub open spec fn sig_bit(bits: Seq<Signal>, k: int, s: spec_fn(u64) -> bool) -> bool {
    eval(bit_at_spec(bits, k), s)
}

/// The carry out of bit `k` when a ripple-carry adder adds `l` and `r`.
pub open spec fn rc_carry(l: Seq<Signal>, r: Seq<Signal>, s: spec_fn(u64) -> bool, k: nat) -> bool
    decreases k,
{
    let a = sig_bit(l, k as int, s);
    let b = sig_bit(r, k as int, s);
    let c = if k == 0 {
        false
    } else {
        rc_carry(l, r, s, (k - 1) as nat)
    };
    (a && b) != (c && (a != b))
}

/// The carry into bit `k`.
pub open spec fn rc_cin(l: Seq<Signal>, r: Seq<Signal>, s: spec_fn(u64) -> bool, k: nat) -> bool {
    if k == 0 {
        false
    } else {
        rc_carry(l, r, s, (k - 1) as nat)
    }
}

/// Sum bit `k` of the ripple-carry adder.
pub open spec fn rc_sum(l: Seq<Signal>, r: Seq<Signal>, s: spec_fn(u64) -> bool, k: nat) -> bool {
    (sig_bit(l, k as int, s) != sig_bit(r, k as int, s)) != rc_cin(l, r, s, k)
}

/// The value of the sum bits below `k`.
pub open spec fn rc_sums_value(l: Seq<Signal>, r: Seq<Signal>, s: spec_fn(u64) -> bool, k: nat) -> nat
    decreases k,
{
    if k == 0 {
        0
    } else {
        rc_sums_value(l, r, s, (k - 1) as nat) + bval(rc_sum(l, r, s, (k - 1) as nat)) * pow2(
            (k - 1) as nat,
        )
    }
}

/// The F_31 sum of the five-bit values of two signal vectors.
pub open spec fn add_mod31_value(l: Seq<Signal>, r: Seq<Signal>, s: spec_fn(u64) -> bool) -> nat {
    (value_of(l, 5, s) + value_of(r, 5, s)) % 31
}

/// How many target qubits a field kernel writes: at most five.
pub open spec fn field_width(targets: Seq<QubitId>) -> nat {
    if targets.len() < 5 {
        targets.len()
    } else {
        5
    }
}

/// `s` with `targets[i]` flipped by bit `i` of `v`, for each `i < n`.
pub open spec fn xor_bits_of(s: spec_fn(u64) -> bool, targets: Seq<QubitId>, v: nat, n: nat) -> spec_fn(
    u64,
) -> bool
    decreases n,
{
    if n == 0 {
        s
    } else {
        flip(xor_bits_of(s, targets, v, (n - 1) as nat), targets[n - 1].0, nat_bit(v, (n - 1) as nat))
    }
}

/// `s` with the bits of `v` XORed into the (at most five) targets.
pub open spec fn xor_value(s: spec_fn(u64) -> bool, targets: Seq<QubitId>, v: nat) -> spec_fn(u64) -> bool {
    xor_bits_of(s, targets, v, field_width(targets))
}

/// A field kernel may write `targets` when, among the targets it writes, no
/// qubit occurs twice, each is live and none is read; and what it reads is
/// live.
pub open spec fn field_io_ok(pool: Set<u64>, reads: Set<u64>, targets: Seq<QubitId>) -> bool {
    &&& distinct_qubits(targets.subrange(0, field_width(targets) as int))
    &&& forall|i: int|
        0 <= i < field_width(targets) ==> !pool.contains(#[trigger] targets[i].0) && !reads.contains(
            targets[i].0,
        )
    &&& reads.disjoint(pool)
}

/// The qubit values while an adder holds its sums and carries: each carry and
/// sum below `k` set to its value for the inputs in `s`.
pub open spec fn adder_state(
    s: spec_fn(u64) -> bool,
    l: Seq<Signal>,
    r: Seq<Signal>,
    sums: Seq<QubitId>,
    carries: Seq<QubitId>,
    k: nat,
) -> spec_fn(u64) -> bool
    decreases k,
{
    if k == 0 {
        s
    } else {
        let j = (k - 1) as nat;
        set_wire(
            set_wire(adder_state(s, l, r, sums, carries, j), carries[j as int].0, rc_carry(l, r, s, j)),
            sums[j as int].0,
            rc_sum(l, r, s, j),
        )
    }
}

/// The ripple-carry adder adds: its sum bits and carry in at `k` spell the
/// sum of the low `k` bits.
pub proof fn lemma_ripple(l: Seq<Signal>, r: Seq<Signal>, s: spec_fn(u64) -> bool, k: nat)
    ensures
        rc_sums_value(l, r, s, k) + bval(rc_cin(l, r, s, k)) * pow2(k) == value_of(l, k, s) + value_of(
            r,
            k,
            s,
        ),
        rc_sums_value(l, r, s, k) < pow2(k),
    decreases k,
{
    vstd::arithmetic::power2::lemma_pow2_pos(k);
    if k == 0 {
        vstd::arithmetic::power2::lemma2_to64();
    } else {
        let j = (k - 1) as nat;
        lemma_ripple(l, r, s, j);
        vstd::arithmetic::power2::lemma_pow2_unfold(k);
        let p = pow2(j);
        let a = sig_bit(l, j as int, s);
        let b = sig_bit(r, j as int, s);
        let c = rc_cin(l, r, s, j);
        assert(rc_cin(l, r, s, k) == rc_carry(l, r, s, j));
        let prev = rc_sums_value(l, r, s, j);
        assert(value_of(l, k, s) == value_of(l, j, s) + if a { p } else { 0 });
        assert(value_of(r, k, s) == value_of(r, j, s) + if b { p } else { 0 });
        assert(rc_sums_value(l, r, s, k) == prev + bval(rc_sum(l, r, s, j)) * p);
        assert(prev + bval(c) * p == value_of(l, j, s) + value_of(r, j, s));
        if c {
            assert(bval(c) * p == p);
        } else {
            assert(bval(c) * p == 0);
        }
        if rc_sum(l, r, s, j) {
            assert(bval(rc_sum(l, r, s, j)) * p == p);
        } else {
            assert(bval(rc_sum(l, r, s, j)) * p == 0);
        }
        if rc_carry(l, r, s, j) {
            assert(bval(rc_carry(l, r, s, j)) * pow2(k) == 2 * p);
        } else {
            assert(bval(rc_carry(l, r, s, j)) * pow2(k) == 0);
        }
    }
}

/// The adder's values depend on the inputs only through the qubits they
/// read.
pub proof fn lemma_rc_frame(
    l: Seq<Signal>,
    r: Seq<Signal>,
    s1: spec_fn(u64) -> bool,
    s2: spec_fn(u64) -> bool,
    k: nat,
)
    requires
        forall|q: u64| (supports(l) + supports(r)).contains(q) ==> s1(q) == s2(q),
    ensures
        rc_carry(l, r, s1, k) == rc_carry(l, r, s2, k),
        rc_cin(l, r, s1, k) == rc_cin(l, r, s2, k),
        rc_sum(l, r, s1, k) == rc_sum(l, r, s2, k),
        rc_sums_value(l, r, s1, k) == rc_sums_value(l, r, s2, k),
    decreases k,
{
    assert forall|q: u64| supports(l).contains(q) implies s1(q) == s2(q) by {
        assert((supports(l) + supports(r)).contains(q));
    }
    assert forall|q: u64| supports(r).contains(q) implies s1(q) == s2(q) by {
        assert((supports(l) + supports(r)).contains(q));
    }
    lemma_sig_bit_frame(l, s1, s2, k as int);
    lemma_sig_bit_frame(r, s1, s2, k as int);
    if k > 0 {
        lemma_rc_frame(l, r, s1, s2, (k - 1) as nat);
    }
}

/// A signal bit depends only on the qubits the vector reads.
pub proof fn lemma_sig_bit_frame(bits: Seq<Signal>, s1: spec_fn(u64) -> bool, s2: spec_fn(u64) -> bool, k: int)
    requires
        forall|q: u64| supports(bits).contains(q) ==> s1(q) == s2(q),
    ensures
        sig_bit(bits, k, s1) == sig_bit(bits, k, s2),
{
    lemma_bit_at_within(bits, k);
    lemma_eval_frame(bit_at_spec(bits, k), s1, s2);
}

/// The adder state leaves every qubit but its sums and carries as it was.
pub proof fn lemma_adder_outside(
    s: spec_fn(u64) -> bool,
    l: Seq<Signal>,
    r: Seq<Signal>,
    sums: Seq<QubitId>,
    carries: Seq<QubitId>,
    k: nat,
    q: u64,
)
    requires
        forall|j: int|
            #![trigger sums[j]]
            #![trigger carries[j]]
            0 <= j < k ==> sums[j].0 != q && carries[j].0 != q,
    ensures
        adder_state(s, l, r, sums, carries, k)(q) == s(q),
    decreases k,
{
    if k > 0 {
        let j = (k - 1) as int;
        assert(sums[j].0 != q && carries[j].0 != q);
        lemma_adder_outside(s, l, r, sums, carries, (k - 1) as nat, q);
    }
}

/// Ten distinct qubits: five sums and five carries.
pub open spec fn adder_regs_ok(sums: Seq<QubitId>, carries: Seq<QubitId>) -> bool {
    &&& sums.len() == 5
    &&& carries.len() == 5
    &&& distinct_qubits(sums)
    &&& distinct_qubits(carries)
    &&& forall|i: int, j: int| 0 <= i < 5 && 0 <= j < 5 ==> #[trigger] sums[i] != #[trigger] carries[j]
}

/// The adder state holds each carry and sum below `k`.
pub proof fn lemma_adder_at(
    s: spec_fn(u64) -> bool,
    l: Seq<Signal>,
    r: Seq<Signal>,
    sums: Seq<QubitId>,
    carries: Seq<QubitId>,
    k: nat,
    j: int,
)
    requires
        adder_regs_ok(sums, carries),
        0 <= j < k <= 5,
    ensures
        adder_state(s, l, r, sums, carries, k)(carries[j].0) == rc_carry(l, r, s, j as nat),
        adder_state(s, l, r, sums, carries, k)(sums[j].0) == rc_sum(l, r, s, j as nat),
    decreases k,
{
    let top = (k - 1) as int;
    assert(sums[j] != carries[j]);
    if j < top {
        assert(sums[top] != sums[j]);
        assert(sums[top] != carries[j]);
        assert(carries[top] != sums[j]);
        assert(carries[top] != carries[j]);
        lemma_adder_at(s, l, r, sums, carries, (k - 1) as nat, j);
    }
}

/// Flipping a qubit the adder neither reads nor writes commutes with the
/// adder state.
pub proof fn lemma_adder_flip(
    b: spec_fn(u64) -> bool,
    l: Seq<Signal>,
    r: Seq<Signal>,
    sums: Seq<QubitId>,
    carries: Seq<QubitId>,
    k: nat,
    q: u64,
    v: bool,
)
    requires
        forall|j: int|
            #![trigger sums[j]]
            #![trigger carries[j]]
            0 <= j < k ==> sums[j].0 != q && carries[j].0 != q,
        !(supports(l) + supports(r)).contains(q),
    ensures
        adder_state(flip(b, q, v), l, r, sums, carries, k) == flip(
            adder_state(b, l, r, sums, carries, k),
            q,
            v,
        ),
    decreases k,
{
    if k > 0 {
        let j = (k - 1) as nat;
        assert(sums[j as int].0 != q && carries[j as int].0 != q);
        lemma_adder_flip(b, l, r, sums, carries, j, q, v);
        lemma_rc_frame(l, r, flip(b, q, v), b, j);
        assert(adder_state(flip(b, q, v), l, r, sums, carries, k) =~= flip(
            adder_state(b, l, r, sums, carries, k),
            q,
            v,
        ));
    }
}

/// `xor_bits_of` changes only the first `n` targets.
pub proof fn lemma_xor_bits_outside(s: spec_fn(u64) -> bool, targets: Seq<QubitId>, v: nat, n: nat, q: u64)
    requires
        forall|i: int| 0 <= i < n ==> (#[trigger] targets[i]).0 != q,
    ensures
        xor_bits_of(s, targets, v, n)(q) == s(q),
    decreases n,
{
    if n > 0 {
        assert(targets[n - 1].0 != q);
        lemma_xor_bits_outside(s, targets, v, (n - 1) as nat, q);
    }
}

/// With distinct targets, target `j < n` ends flipped by bit `j` of `v`.
pub proof fn lemma_xor_bits_at(s: spec_fn(u64) -> bool, targets: Seq<QubitId>, v: nat, n: nat, j: int)
    requires
        0 <= j < n <= targets.len(),
        distinct_qubits(targets.subrange(0, n as int)),
    ensures
        xor_bits_of(s, targets, v, n)(targets[j].0) == (s(targets[j].0) != nat_bit(v, j as nat)),
    decreases n,
{
    let t = targets.subrange(0, n as int);
    if j < n - 1 {
        assert(t[n - 1] == targets[n - 1] && t[j] == targets[j]);
        assert(targets.subrange(0, n - 1) =~= t.subrange(0, n - 1));
        lemma_xor_bits_at(s, targets, v, (n - 1) as nat, j);
    } else {
        assert forall|i: int| 0 <= i < n - 1 implies (#[trigger] targets[i]).0 != targets[j].0 by {
            assert(t[i] == targets[i] && t[j] == targets[j]);
        }
        lemma_xor_bits_outside(s, targets, v, (n - 1) as nat, targets[j].0);
    }
}


/// The registers and pool an adder kernel works with: ten distinct held
/// qubits taken from the pool `p0`, inputs read outside the pool, and
/// writable targets.
pub open spec fn adder_ctx(
    p0: Set<u64>,
    x: Set<u64>,
    sums: Seq<QubitId>,
    carries: Seq<QubitId>,
    targets: Seq<QubitId>,
) -> bool {
    &&& adder_regs_ok(sums, carries)
    &&& forall|j: int| 0 <= j < 5 ==> p0.contains(#[trigger] sums[j].0)
    &&& forall|j: int| 0 <= j < 5 ==> p0.contains(#[trigger] carries[j].0)
    &&& field_io_ok(p0, x, targets)
}

/// The pool while the adder holds its registers.
pub open spec fn adder_pool(p0: Set<u64>, sums: Seq<QubitId>, carries: Seq<QubitId>) -> Set<u64> {
    p0 - qubit_set(sums) - qubit_set(carries)
}

/// What the adder state keeps of its base: every qubit outside the held
/// registers, so in particular what the inputs read and the pool it leaves.
pub proof fn lemma_adder_keeps(
    s: spec_fn(u64) -> bool,
    l: Seq<Signal>,
    r: Seq<Signal>,
    sums: Seq<QubitId>,
    carries: Seq<QubitId>,
    targets: Seq<QubitId>,
    p0: Set<u64>,
    k: nat,
)
    requires
        adder_ctx(p0, supports(l) + supports(r), sums, carries, targets),
        k <= 5,
    ensures
        forall|q: u64|
            (supports(l) + supports(r)).contains(q) ==> #[trigger] adder_state(s, l, r, sums, carries, k)(q)
                == s(q),
        forall|i: int|
            0 <= i < field_width(targets) ==> #[trigger] adder_state(s, l, r, sums, carries, k)(
                targets[i].0,
            ) == s(targets[i].0),
        zero_on(s, p0) ==> zero_on(adder_state(s, l, r, sums, carries, k), adder_pool(p0, sums, carries)),
        zero_on(s, p0) ==> forall|j: int|
            k <= j < 5 ==> !#[trigger] adder_state(s, l, r, sums, carries, k)(sums[j].0) && !adder_state(
                s,
                l,
                r,
                sums,
                carries,
                k,
            )(carries[j].0),
{
    let x = supports(l) + supports(r);
    let st = adder_state(s, l, r, sums, carries, k);
    assert forall|q: u64| x.contains(q) implies #[trigger] st(q) == s(q) by {
        assert forall|j: int|
            #![trigger sums[j]]
            #![trigger carries[j]]
            0 <= j < k implies sums[j].0 != q && carries[j].0 != q by {
            assert(p0.contains(sums[j].0));
            assert(p0.contains(carries[j].0));
        }
        lemma_adder_outside(s, l, r, sums, carries, k, q);
    }
    assert forall|i: int| 0 <= i < field_width(targets) implies #[trigger] st(targets[i].0) == s(
        targets[i].0,
    ) by {
        let q = targets[i].0;
        assert forall|j: int|
            #![trigger sums[j]]
            #![trigger carries[j]]
            0 <= j < k implies sums[j].0 != q && carries[j].0 != q by {
            assert(p0.contains(sums[j].0));
            assert(p0.contains(carries[j].0));
        }
        lemma_adder_outside(s, l, r, sums, carries, k, q);
    }
    if zero_on(s, p0) {
        let p1 = adder_pool(p0, sums, carries);
        assert forall|q: u64| p1.contains(q) implies !st(q) by {
            assert forall|j: int|
                #![trigger sums[j]]
                #![trigger carries[j]]
                0 <= j < k implies sums[j].0 != q && carries[j].0 != q by {
                assert(qubit_set(sums).contains(sums[j].0));
                assert(qubit_set(carries).contains(carries[j].0));
            }
            lemma_adder_outside(s, l, r, sums, carries, k, q);
        }
        assert forall|j: int| k <= j < 5 implies !#[trigger] st(sums[j].0) && !st(carries[j].0) by {
            assert forall|i: int|
                #![trigger sums[i]]
                #![trigger carries[i]]
                0 <= i < k implies sums[i].0 != sums[j].0 && carries[i].0 != sums[j].0 by {
                assert(sums[i] != sums[j]);
                assert(sums[j] != carries[i]);
            }
            lemma_adder_outside(s, l, r, sums, carries, k, sums[j].0);
            assert forall|i: int|
                #![trigger sums[i]]
                #![trigger carries[i]]
                0 <= i < k implies sums[i].0 != carries[j].0 && carries[i].0 != carries[j].0 by {
                assert(carries[i] != carries[j]);
                assert(sums[i] != carries[j]);
            }
            lemma_adder_outside(s, l, r, sums, carries, k, carries[j].0);
        }
    }
}

/// Flipping targets keeps an assignment zero on a pool that holds none of
/// them, and keeps what the inputs read.
pub proof fn lemma_xor_bits_keeps(
    s: spec_fn(u64) -> bool,
    targets: Seq<QubitId>,
    v: nat,
    n: nat,
    p0: Set<u64>,
    x: Set<u64>,
)
    requires
        n <= field_width(targets),
        field_io_ok(p0, x, targets),
    ensures
        forall|q: u64| (p0 + x).contains(q) ==> #[trigger] xor_bits_of(s, targets, v, n)(q) == s(q),
{
    assert forall|q: u64| (p0 + x).contains(q) implies #[trigger] xor_bits_of(s, targets, v, n)(q) == s(q) by {
        assert forall|i: int| 0 <= i < n implies (#[trigger] targets[i]).0 != q by {
            assert(!p0.contains(targets[i].0) && !x.contains(targets[i].0));
        }
        lemma_xor_bits_outside(s, targets, v, n, q);
    }
}

/// The bits of a five-bit value are the bits of its signals.
pub proof fn lemma_bits_of_value5(a: Seq<Signal>, s: spec_fn(u64) -> bool, i: int)
    requires
        0 <= i < 5,
    ensures
        sig_bit(a, i, s) == nat_bit(value_of(a, 5, s), i as nat),
        value_of(a, 5, s) < 32,
{
    crate::shor_oracle::signal::lemma_value5(a, s);
    vstd::arithmetic::power2::lemma2_to64();
    let b0 = sig_bit(a, 0, s);
    let b1 = sig_bit(a, 1, s);
    let b2 = sig_bit(a, 2, s);
    let b3 = sig_bit(a, 3, s);
    let b4 = sig_bit(a, 4, s);
    let v = value_of(a, 5, s);
    assert(v == bval(b0) + 2 * bval(b1) + 4 * bval(b2) + 8 * bval(b3) + 16 * bval(b4));
    assert(pow2(0) == 1 && pow2(1) == 2 && pow2(2) == 4 && pow2(3) == 8 && pow2(4) == 16);
    let lo: nat = if i == 0 {
        0
    } else if i == 1 {
        bval(b0)
    } else if i == 2 {
        bval(b0) + 2 * bval(b1)
    } else if i == 3 {
        bval(b0) + 2 * bval(b1) + 4 * bval(b2)
    } else {
        bval(b0) + 2 * bval(b1) + 4 * bval(b2) + 8 * bval(b3)
    };
    let hi: nat = if i == 0 {
        v
    } else if i == 1 {
        bval(b1) + 2 * bval(b2) + 4 * bval(b3) + 8 * bval(b4)
    } else if i == 2 {
        bval(b2) + 2 * bval(b3) + 4 * bval(b4)
    } else if i == 3 {
        bval(b3) + 2 * bval(b4)
    } else {
        bval(b4)
    };
    let bi = if i == 0 {
        b0
    } else if i == 1 {
        b1
    } else if i == 2 {
        b2
    } else if i == 3 {
        b3
    } else {
        b4
    };
    if i == 0 {
        vstd::arithmetic::div_mod::lemma_fundamental_div_mod_converse(v as int, 1, hi as int, lo as int);
    } else if i == 1 {
        vstd::arithmetic::div_mod::lemma_fundamental_div_mod_converse(v as int, 2, hi as int, lo as int);
    } else if i == 2 {
        vstd::arithmetic::div_mod::lemma_fundamental_div_mod_converse(v as int, 4, hi as int, lo as int);
    } else if i == 3 {
        vstd::arithmetic::div_mod::lemma_fundamental_div_mod_converse(v as int, 8, hi as int, lo as int);
    } else {
        vstd::arithmetic::div_mod::lemma_fundamental_div_mod_converse(v as int, 16, hi as int, lo as int);
    }
    assert(v / pow2(i as nat) == hi);
    assert(hi == (hi - bval(bi)) / 2 * 2 + bval(bi));
    vstd::arithmetic::div_mod::lemma_fundamental_div_mod_converse(
        hi as int,
        2,
        ((hi - bval(bi)) / 2) as int,
        bval(bi) as int,
    );
    assert(sig_bit(a, i, s) == bi);
}

/// The end-around reduction of the adder result gives the sum modulo 31.
pub proof fn lemma_reduce31(sums: nat, carry: bool, total: nat)
    requires
        sums < 32,
        sums + bval(carry) * 32 == total,
        total <= 62,
    ensures
        ({
            let w = (sums + bval(carry)) % 32;
            (if w == 31 {
                0
            } else {
                w
            }) == total % 31
        }),
{
    if carry {
        assert(total == sums + 32);
        assert(sums <= 30);
        assert((sums + 1) % 32 == sums + 1);
        if sums + 1 != 31 {
            assert(total % 31 == sums + 1);
        }
    } else {
        assert(total == sums);
        assert(sums % 32 == sums);
        if sums != 31 {
            assert(total % 31 == sums);
        }
    }
}

impl<S: OpSink> Builder<S> {
    /// XORs `(left + right) mod 31` into `target`: a ripple-carry adder
    /// computes the six-bit sum into held sum and carry qubits, the
    /// end-around reduction of that sum is XORed into the targets, and the
    /// adder is run again to return the held qubits clean.
    pub(crate) fn xor_add_mod31_signals_into(&mut self, left: &[Signal], right: &[Signal], target: &[QubitId])
        requires
            old(self).wf(),
            !old(self).failed() ==> field_io_ok(
                old(self).pool(),
                supports(left@) + supports(right@),
                target@,
            ),
        ensures
            old(self).pure_step(final(self), supports(left@) + supports(right@) + qubit_set(target@)),
            !final(self).failed() ==> effect(
                added(old(self).emitted(), final(self).emitted()),
                old(self).pool(),
                |s: spec_fn(u64) -> bool| xor_value(s, target@, add_mod31_value(left@, right@, s)),
            ),
    {
        let ghost p0 = self.pool();
        let ghost x = supports(left@) + supports(right@);
        let ghost tset = qubit_set(target@);
        let ghost st0 = *self;
        let sums = self.hold_qubits(WIDTH);
        let ghost st_a = *self;
        let carries = self.hold_qubits(WIDTH);
        let ghost st1 = *self;
        let ghost p1 = adder_pool(p0, sums@, carries@);
        let ghost hs = qubit_set(sums@) + qubit_set(carries@);
        let ghost allowed = x + tset + hs;
        let ghost good = !st1.failed();
        proof {
            Self::lemma_step_trans(&st0, &st_a, &st1);
            self.lemma_step_refl();
            crate::shor_oracle::builder::lemma_added_none(self.emitted());
            if good {
                assert(!st_a.failed());
                assert forall|i: int, j: int| 0 <= i < 5 && 0 <= j < 5 implies #[trigger] sums@[i]
                    != #[trigger] carries@[j] by {
                    assert(qubit_set(sums@).contains(sums@[i].0));
                    assert(st_a.pool().contains(carries@[j].0));
                }
                assert(p1 =~= st1.pool());
            }
        }
        let mut bit: usize = 0;
        while bit < WIDTH
            invariant
                0 <= bit <= WIDTH,
                sums@.len() == 5,
                carries@.len() == 5,
                x == supports(left@) + supports(right@),
                p1 == adder_pool(p0, sums@, carries@),
                hs == qubit_set(sums@) + qubit_set(carries@),
                allowed == x + tset + hs,
                good == !st1.failed(),
                good ==> adder_ctx(p0, x, sums@, carries@, target@) && st1.pool() == p1,
                st1.pure_step(self, allowed),
                !self.failed() ==> effect(
                    added(st1.emitted(), self.emitted()),
                    p0,
                    |s: spec_fn(u64) -> bool| adder_state(s, left@, right@, sums@, carries@, bit as nat),
                ),
            decreases WIDTH - bit,
        {
            let lb = Self::bit_at(left, bit);
            let rb = Self::bit_at(right, bit);
            let cin = if bit == 0 {
                Signal::constant(false)
            } else {
                Signal::qubit(carries[bit - 1])
            };
            let ghost mid0 = *self;
            proof {
                lemma_bit_at_within(left@, bit as int);
                lemma_bit_at_within(right@, bit as int);
                if !self.failed() {
                    assert(qubit_set(carries@).contains(carries@[bit as int].0));
                    assert(qubit_set(sums@).contains(sums@[bit as int].0));
                    if bit > 0 {
                        assert(carries@[bit - 1] != carries@[bit as int]);
                        assert(carries@[bit - 1] != sums@[bit as int]);
                        assert(qubit_set(carries@).contains(carries@[bit - 1].0));
                    }
                }
            }
            self.xor_carry_out_into(&lb, &rb, &cin, carries[bit]);
            let ghost mid1 = *self;
            self.xor_sum_bit_into(&lb, &rb, &cin, sums[bit]);
            proof {
                Self::lemma_step_trans(&mid0, &mid1, self);
                let cq = carries@[bit as int].0;
                let sq = sums@[bit as int].0;
                assert(hs.contains(cq) && hs.contains(sq));
                if bit > 0 {
                    assert(hs.contains(carries@[bit - 1].0));
                }
                assert((support(lb) + support(rb) + support(cin)).insert(cq).subset_of(allowed));
                assert((support(lb) + support(rb) + support(cin)).insert(sq).subset_of(allowed));
                Self::lemma_pure_step_widen(&mid0, &mid1, (support(lb) + support(rb) + support(cin)).insert(cq), allowed);
                Self::lemma_pure_step_widen(&mid1, self, (support(lb) + support(rb) + support(cin)).insert(sq), allowed);
                Self::lemma_pure_step_trans(&st1, &mid0, &mid1, allowed);
                Self::lemma_pure_step_trans(&st1, &mid1, self, allowed);
                if !self.failed() {
                    assert forall|s: spec_fn(u64) -> bool| zero_on(s, p0) implies #[trigger] run(
                        added(st1.emitted(), self.emitted()),
                        s,
                    ) == adder_state(s, left@, right@, sums@, carries@, (bit + 1) as nat) by {
                        lemma_fwd_step(s, left@, right@, sums@, carries@, target@, p0, bit as nat);
                        crate::shor_oracle::builder::lemma_run_steps(st1.emitted(), mid0.emitted(), self.emitted(), s);
                        crate::shor_oracle::builder::lemma_run_steps(mid0.emitted(), mid1.emitted(), self.emitted(), run(added(st1.emitted(), mid0.emitted()), s));
                        let cur = adder_state(s, left@, right@, sums@, carries@, bit as nat);
                        assert(run(added(st1.emitted(), mid0.emitted()), s) == cur);
                        assert(eval(cin, cur) == rc_cin(left@, right@, s, bit as nat));
                        let c1 = fwd_carry_state(s, left@, right@, sums@, carries@, bit as nat);
                        assert(run(added(mid0.emitted(), mid1.emitted()), cur) =~= c1);
                        assert(eval(cin, c1) == rc_cin(left@, right@, s, bit as nat));
                        assert(run(added(mid1.emitted(), self.emitted()), c1) =~= set_wire(c1, sq, rc_sum(left@, right@, s, bit as nat)));
                    }
                }
            }
            bit = bit + 1;
        }
        let sum_sigs = qubit_signals(sums.as_slice());
        let reduced = self.increment_by_signal_bits(sum_sigs.as_slice(), Signal::qubit(carries[WIDTH - 1]));
        let all_ones = self.and_many(reduced.as_slice());
        let not_all_ones = self.not(all_ones);
        let n = if target.len() < WIDTH {
            target.len()
        } else {
            WIDTH
        };
        proof {
            crate::shor_oracle::signal::lemma_supports(reduced@);
            assert(supports(sum_sigs@).subset_of(hs)) by {
                assert forall|q: u64| supports(sum_sigs@).contains(q) implies hs.contains(q) by {
                    let j = choose|j: int| 0 <= j < sum_sigs@.len() && #[trigger] support(sum_sigs@[j]).contains(q);
                    assert(sum_sigs@[j] == Signal(SignalKind::Qubit(sums@[j])));
                    assert(qubit_set(sums@).contains(sums@[j].0));
                }
            }
            assert(qubit_set(carries@).contains(carries@[4].0));
            assert(supports(reduced@).subset_of(hs));
            assert forall|t: spec_fn(u64) -> bool| #[trigger] value_of(sum_sigs@, 5, t) == qubits_value(sums@, 5, t) by {
                crate::shor_oracle::signal::lemma_qubit_signals_value(sum_sigs@, sums@, 5, t);
            }
        }
        let mut bit: usize = 0;
        while bit < n
            invariant
                0 <= bit <= n,
                n == field_width(target@),
                sums@.len() == 5,
                carries@.len() == 5,
                reduced@.len() == 5,
                tset == qubit_set(target@),
                x == supports(left@) + supports(right@),
                p1 == adder_pool(p0, sums@, carries@),
                hs == qubit_set(sums@) + qubit_set(carries@),
                allowed == x + tset + hs,
                good == !st1.failed(),
                good ==> adder_ctx(p0, x, sums@, carries@, target@) && st1.pool() == p1,
                supports(reduced@).subset_of(hs),
                support(not_all_ones).subset_of(hs),
                forall|t: spec_fn(u64) -> bool| #[trigger] value_of(reduced@, 5, t) == (qubits_value(sums@, 5, t)
                    + bval(t(carries@[4].0))) % 32,
                forall|t: spec_fn(u64) -> bool| #[trigger] eval(not_all_ones, t) == !(forall|i: int|
                    0 <= i < reduced@.len() ==> #[trigger] eval(reduced@[i], t)),
                st1.pure_step(self, allowed),
                !self.failed() ==> effect(
                    added(st1.emitted(), self.emitted()),
                    p0,
                    |s: spec_fn(u64) -> bool|
                        adder_state(
                            xor_bits_of(s, target@, add_mod31_value(left@, right@, s), bit as nat),
                            left@,
                            right@,
                            sums@,
                            carries@,
                            5,
                        ),
                ),
            decreases n - bit,
        {
            let rb = Self::bit_at(reduced.as_slice(), bit);
            let rbit = self.and(rb, not_all_ones.dup());
            let ghost mid0 = *self;
            proof {
                lemma_bit_at_within(reduced@, bit as int);
                assert(support(rbit).subset_of(hs));
                if !self.failed() {
                    assert(!p0.contains(target@[bit as int].0));
                }
            }
            self.xor_signal_into(&rbit, target[bit]);
            proof {
                let tq = target@[bit as int].0;
                assert(qubit_set(target@).contains(tq));
                assert(support(rbit).insert(tq).subset_of(allowed));
                Self::lemma_pure_step_widen(&mid0, self, support(rbit).insert(tq), allowed);
                Self::lemma_pure_step_trans(&st1, &mid0, self, allowed);
                if !self.failed() {
                    assert forall|s: spec_fn(u64) -> bool| zero_on(s, p0) implies #[trigger] run(
                        added(st1.emitted(), self.emitted()),
                        s,
                    ) == adder_state(
                        xor_bits_of(s, target@, add_mod31_value(left@, right@, s), (bit + 1) as nat),
                        left@,
                        right@,
                        sums@,
                        carries@,
                        5,
                    ) by {
                        crate::shor_oracle::builder::lemma_run_steps(st1.emitted(), mid0.emitted(), self.emitted(), s);
                        let v = add_mod31_value(left@, right@, s);
                        let cur = adder_state(xor_bits_of(s, target@, v, bit as nat), left@, right@, sums@, carries@, 5);
                        lemma_mid_step(s, left@, right@, sums@, carries@, target@, p0, bit as nat);
                        assert(run(added(st1.emitted(), mid0.emitted()), s) == cur);
                        lemma_reduce_bits(reduced@, cur, qubits_value(sums@, 5, cur), cur(carries@[4].0), bit as int);
                        assert(eval(rbit, cur) == nat_bit(v, bit as nat));
                    }
                }
            }
            bit = bit + 1;
        }
        let mut bit: usize = WIDTH;
        while bit > 0
            invariant
                0 <= bit <= WIDTH,
                n == field_width(target@),
                sums@.len() == 5,
                carries@.len() == 5,
                x == supports(left@) + supports(right@),
                p1 == adder_pool(p0, sums@, carries@),
                hs == qubit_set(sums@) + qubit_set(carries@),
                allowed == x + tset + hs,
                good == !st1.failed(),
                good ==> adder_ctx(p0, x, sums@, carries@, target@) && st1.pool() == p1,
                st1.pure_step(self, allowed),
                !self.failed() ==> effect(
                    added(st1.emitted(), self.emitted()),
                    p0,
                    |s: spec_fn(u64) -> bool|
                        adder_state(
                            xor_bits_of(s, target@, add_mod31_value(left@, right@, s), n as nat),
                            left@,
                            right@,
                            sums@,
                            carries@,
                            bit as nat,
                        ),
                ),
            decreases bit,
        {
            bit = bit - 1;
            let lb = Self::bit_at(left, bit);
            let rb = Self::bit_at(right, bit);
            let cin = if bit == 0 {
                Signal::constant(false)
            } else {
                Signal::qubit(carries[bit - 1])
            };
            let ghost mid0 = *self;
            proof {
                lemma_bit_at_within(left@, bit as int);
                lemma_bit_at_within(right@, bit as int);
                if !self.failed() {
                    assert(qubit_set(carries@).contains(carries@[bit as int].0));
                    assert(qubit_set(sums@).contains(sums@[bit as int].0));
                    if bit > 0 {
                        assert(carries@[bit - 1] != carries@[bit as int]);
                        assert(carries@[bit - 1] != sums@[bit as int]);
                        assert(qubit_set(carries@).contains(carries@[bit - 1].0));
                    }
                }
            }
            self.xor_sum_bit_into(&lb, &rb, &cin, sums[bit]);
            let ghost mid1 = *self;
            self.xor_carry_out_into(&lb, &rb, &cin, carries[bit]);
            proof {
                Self::lemma_step_trans(&mid0, &mid1, self);
                let cq = carries@[bit as int].0;
                let sq = sums@[bit as int].0;
                assert(hs.contains(cq) && hs.contains(sq));
                if bit > 0 {
                    assert(hs.contains(carries@[bit - 1].0));
                }
                assert((support(lb) + support(rb) + support(cin)).insert(cq).subset_of(allowed));
                assert((support(lb) + support(rb) + support(cin)).insert(sq).subset_of(allowed));
                Self::lemma_pure_step_widen(&mid0, &mid1, (support(lb) + support(rb) + support(cin)).insert(sq), allowed);
                Self::lemma_pure_step_widen(&mid1, self, (support(lb) + support(rb) + support(cin)).insert(cq), allowed);
                Self::lemma_pure_step_trans(&st1, &mid0, &mid1, allowed);
                Self::lemma_pure_step_trans(&st1, &mid1, self, allowed);
                if !self.failed() {
                    assert forall|s: spec_fn(u64) -> bool| zero_on(s, p0) implies #[trigger] run(
                        added(st1.emitted(), self.emitted()),
                        s,
                    ) == adder_state(
                        xor_bits_of(s, target@, add_mod31_value(left@, right@, s), n as nat),
                        left@,
                        right@,
                        sums@,
                        carries@,
                        bit as nat,
                    ) by {
                        let m = xor_bits_of(s, target@, add_mod31_value(left@, right@, s), n as nat);
                        lemma_xor_bits_keeps(s, target@, add_mod31_value(left@, right@, s), n as nat, p0, x);
                        assert(zero_on(m, p0)) by {
                            assert forall|q: u64| p0.contains(q) implies !m(q) by {
                                assert((p0 + x).contains(q));
                            }
                        }
                        lemma_bwd_step(m, left@, right@, sums@, carries@, target@, p0, bit as nat);
                        crate::shor_oracle::builder::lemma_run_steps(st1.emitted(), mid0.emitted(), self.emitted(), s);
                        crate::shor_oracle::builder::lemma_run_steps(mid0.emitted(), mid1.emitted(), self.emitted(), run(added(st1.emitted(), mid0.emitted()), s));
                        let cur = adder_state(m, left@, right@, sums@, carries@, (bit + 1) as nat);
                        assert(run(added(st1.emitted(), mid0.emitted()), s) == cur);
                        assert(eval(cin, cur) == rc_cin(left@, right@, m, bit as nat));
                        let c1 = fwd_carry_state(m, left@, right@, sums@, carries@, bit as nat);
                        assert(run(added(mid0.emitted(), mid1.emitted()), cur) =~= c1);
                        assert(eval(cin, c1) == rc_cin(left@, right@, m, bit as nat));
                        assert(run(added(mid1.emitted(), self.emitted()), c1) =~= adder_state(m, left@, right@, sums@, carries@, bit as nat));
                    }
                }
            }
        }
        let ghost st2 = *self;
        self.release_hold_qubits(carries);
        let ghost st3 = *self;
        proof {
            if !self.failed() {
                assert forall|i: int| 0 <= i < sums@.len() implies !st3.pool().contains(#[trigger] sums@[i].0) by {
                    assert(qubit_set(sums@).contains(sums@[i].0));
                    assert forall|j: int| 0 <= j < carries@.len() implies carries@[j].0 != sums@[i].0 by {
                        assert(sums@[i] != carries@[j]);
                    }
                }
            }
        }
        self.release_hold_qubits(sums);
        proof {
            Self::lemma_step_trans(&st2, &st3, self);
            Self::lemma_step_trans(&st1, &st2, self);
            Self::lemma_step_trans(&st0, &st1, self);
            assert(added(st0.emitted(), self.emitted()) == added(st1.emitted(), st2.emitted()));
            if !self.failed() {
                assert(self.pool() =~= p0);
                crate::shor_oracle::builder::lemma_ops_within_mono(
                    added(st1.emitted(), st2.emitted()),
                    allowed + p1,
                    x + tset + p0,
                );
                assert forall|s: spec_fn(u64) -> bool| zero_on(s, p0) implies #[trigger] run(
                    added(st0.emitted(), self.emitted()),
                    s,
                ) == xor_value(s, target@, add_mod31_value(left@, right@, s)) by {
                    assert(run(added(st1.emitted(), st2.emitted()), s) == adder_state(
                        xor_bits_of(s, target@, add_mod31_value(left@, right@, s), n as nat),
                        left@,
                        right@,
                        sums@,
                        carries@,
                        0,
                    ));
                }
            }
        }
    }
}

/// One backward step of the adder: the sum and then the carry of bit `k`
/// are XORed again, which clears them.
pub proof fn lemma_bwd_step(
    m: spec_fn(u64) -> bool,
    l: Seq<Signal>,
    r: Seq<Signal>,
    sums: Seq<QubitId>,
    carries: Seq<QubitId>,
    targets: Seq<QubitId>,
    p0: Set<u64>,
    k: nat,
)
    requires
        adder_ctx(p0, supports(l) + supports(r), sums, carries, targets),
        zero_on(m, p0),
        k < 5,
    ensures
        zero_on(adder_state(m, l, r, sums, carries, k + 1), adder_pool(p0, sums, carries)),
        zero_on(fwd_carry_state(m, l, r, sums, carries, k), adder_pool(p0, sums, carries)),
        sig_bit(l, k as int, adder_state(m, l, r, sums, carries, k + 1)) == sig_bit(l, k as int, m),
        sig_bit(r, k as int, adder_state(m, l, r, sums, carries, k + 1)) == sig_bit(r, k as int, m),
        sig_bit(l, k as int, fwd_carry_state(m, l, r, sums, carries, k)) == sig_bit(l, k as int, m),
        sig_bit(r, k as int, fwd_carry_state(m, l, r, sums, carries, k)) == sig_bit(r, k as int, m),
        adder_state(m, l, r, sums, carries, k + 1)(sums[k as int].0) == rc_sum(l, r, m, k),
        fwd_carry_state(m, l, r, sums, carries, k)(carries[k as int].0) == rc_carry(l, r, m, k),
        k > 0 ==> adder_state(m, l, r, sums, carries, k + 1)(carries[k - 1].0) == rc_carry(l, r, m, (k - 1) as nat),
        k > 0 ==> fwd_carry_state(m, l, r, sums, carries, k)(carries[k - 1].0) == rc_carry(l, r, m, (k - 1) as nat),
        flip(adder_state(m, l, r, sums, carries, k + 1), sums[k as int].0, rc_sum(l, r, m, k)) == fwd_carry_state(m, l, r, sums, carries, k),
        flip(fwd_carry_state(m, l, r, sums, carries, k), carries[k as int].0, rc_carry(l, r, m, k)) == adder_state(m, l, r, sums, carries, k),
{
    lemma_fwd_step(m, l, r, sums, carries, targets, p0, k);
    let cur = adder_state(m, l, r, sums, carries, k + 1);
    let c1 = fwd_carry_state(m, l, r, sums, carries, k);
    let sq = sums[k as int].0;
    let cq = carries[k as int].0;
    assert(sums[k as int] != carries[k as int]);
    assert(qubit_set(sums).contains(sq));
    lemma_adder_keeps(m, l, r, sums, carries, targets, p0, k + 1);
    let x = supports(l) + supports(r);
    assert forall|q: u64| supports(l).contains(q) implies cur(q) == m(q) by {
        assert(x.contains(q));
    }
    assert forall|q: u64| supports(r).contains(q) implies cur(q) == m(q) by {
        assert(x.contains(q));
    }
    lemma_sig_bit_frame(l, cur, m, k as int);
    lemma_sig_bit_frame(r, cur, m, k as int);
    if k > 0 {
        assert(carries[k - 1] != sums[k as int]);
    }
    assert(flip(cur, sq, rc_sum(l, r, m, k)) =~= c1);
    assert(flip(c1, cq, rc_carry(l, r, m, k)) =~= adder_state(m, l, r, sums, carries, k));
}

/// One middle step: the reduced bit read from the held adder result is bit
/// `i` of the field sum, and flipping the target commutes with the adder.
pub proof fn lemma_mid_step(
    s: spec_fn(u64) -> bool,
    l: Seq<Signal>,
    r: Seq<Signal>,
    sums: Seq<QubitId>,
    carries: Seq<QubitId>,
    targets: Seq<QubitId>,
    p0: Set<u64>,
    i: nat,
)
    requires
        adder_ctx(p0, supports(l) + supports(r), sums, carries, targets),
        zero_on(s, p0),
        i < field_width(targets),
    ensures
        ({
            let v = add_mod31_value(l, r, s);
            let cur = adder_state(xor_bits_of(s, targets, v, i), l, r, sums, carries, 5);
            &&& zero_on(cur, adder_pool(p0, sums, carries))
            &&& reduce31(qubits_value(sums, 5, cur), cur(carries[4].0)) == v
            &&& qubits_value(sums, 5, cur) < 32
            &&& flip(cur, targets[i as int].0, nat_bit(v, i)) == adder_state(
                xor_bits_of(s, targets, v, i + 1),
                l,
                r,
                sums,
                carries,
                5,
            )
        }),
{
    let x = supports(l) + supports(r);
    let v = add_mod31_value(l, r, s);
    let b = xor_bits_of(s, targets, v, i);
    let cur = adder_state(b, l, r, sums, carries, 5);
    lemma_xor_bits_keeps(s, targets, v, i, p0, x);
    assert(zero_on(b, p0)) by {
        assert forall|q: u64| p0.contains(q) implies !b(q) by {
            assert((p0 + x).contains(q));
        }
    }
    lemma_adder_keeps(b, l, r, sums, carries, targets, p0, 5);
    assert forall|q: u64| x.contains(q) implies b(q) == s(q) by {
        assert((p0 + x).contains(q));
    }
    lemma_rc_frame(l, r, b, s, 5);
    lemma_rc_frame(l, r, b, s, 4);
    lemma_qv_rc(b, l, r, sums, carries, cur, 5);
    lemma_adder_at(b, l, r, sums, carries, 5, 4);
    lemma_ripple(l, r, s, 5);
    crate::shor_oracle::signal::lemma_value_of_bound(l, 5, s);
    crate::shor_oracle::signal::lemma_value_of_bound(r, 5, s);
    vstd::arithmetic::power2::lemma2_to64();
    assert(rc_cin(l, r, s, 5) == rc_carry(l, r, s, 4));
    lemma_reduce31(rc_sums_value(l, r, s, 5), rc_carry(l, r, s, 4), value_of(l, 5, s) + value_of(r, 5, s));
    let q = targets[i as int].0;
    assert forall|j: int|
        #![trigger sums[j]]
        #![trigger carries[j]]
        0 <= j < 5 implies sums[j].0 != q && carries[j].0 != q by {
        assert(p0.contains(sums[j].0));
        assert(p0.contains(carries[j].0));
    }
    lemma_adder_flip(b, l, r, sums, carries, 5, q, nat_bit(v, i));
}

/// The held sum register reads as the adder's sum bits.
pub proof fn lemma_qv_rc(
    b: spec_fn(u64) -> bool,
    l: Seq<Signal>,
    r: Seq<Signal>,
    sums: Seq<QubitId>,
    carries: Seq<QubitId>,
    t: spec_fn(u64) -> bool,
    k: nat,
)
    requires
        adder_regs_ok(sums, carries),
        k <= 5,
        t == adder_state(b, l, r, sums, carries, 5),
    ensures
        qubits_value(sums, k, t) == rc_sums_value(l, r, b, k),
    decreases k,
{
    if k > 0 {
        let j = (k - 1) as nat;
        lemma_qv_rc(b, l, r, sums, carries, t, j);
        lemma_adder_at(b, l, r, sums, carries, 5, j as int);
        if rc_sum(l, r, b, j) {
            assert(bval(true) * pow2(j) == pow2(j));
        } else {
            assert(bval(false) * pow2(j) == 0);
        }
    }
}

/// The end-around reduction of a sum value and carry.
pub open spec fn reduce31(sums: nat, carry: bool) -> nat {
    let w = (sums + bval(carry)) % 32;
    if w == 31 {
        0
    } else {
        w
    }
}

/// A reduced bit, masked off when all five bits are set, is the bit of the
/// reduced value.
pub proof fn lemma_reduce_bits(reduced: Seq<Signal>, t: spec_fn(u64) -> bool, sv: nat, c: bool, i: int)
    requires
        reduced.len() == 5,
        value_of(reduced, 5, t) == (sv + bval(c)) % 32,
        0 <= i < 5,
    ensures
        (sig_bit(reduced, i, t) && !(forall|j: int| 0 <= j < reduced.len() ==> #[trigger] eval(reduced[j], t)))
            == nat_bit(reduce31(sv, c), i as nat),
{
    let w = value_of(reduced, 5, t);
    lemma_bits_of_value5(reduced, t, i);
    lemma_bits_of_value5(reduced, t, 0);
    lemma_bits_of_value5(reduced, t, 1);
    lemma_bits_of_value5(reduced, t, 2);
    lemma_bits_of_value5(reduced, t, 3);
    lemma_bits_of_value5(reduced, t, 4);
    crate::shor_oracle::signal::lemma_value5(reduced, t);
    vstd::arithmetic::power2::lemma2_to64();
    assert(bit_at_spec(reduced, 0) == reduced[0]);
    assert(bit_at_spec(reduced, 1) == reduced[1]);
    assert(bit_at_spec(reduced, 2) == reduced[2]);
    assert(bit_at_spec(reduced, 3) == reduced[3]);
    assert(bit_at_spec(reduced, 4) == reduced[4]);
    let all = forall|j: int| 0 <= j < reduced.len() ==> #[trigger] eval(reduced[j], t);
    if all {
        assert(eval(reduced[0], t) && eval(reduced[1], t) && eval(reduced[2], t) && eval(reduced[3], t) && eval(reduced[4], t));
        assert(w == 31);
        assert(nat_bit(0, i as nat) == false) by {
            vstd::arithmetic::power2::lemma_pow2_pos(i as nat);
        }
    } else {
        let j = choose|j: int| 0 <= j < reduced.len() && !#[trigger] eval(reduced[j], t);
        assert(w != 31) by {
            if w == 31 {
                lemma_bits_of_value5(reduced, t, j);
                assert(bit_at_spec(reduced, j) == reduced[j]);
                assert(nat_bit(31, j as nat)) by {
                    if j == 0 {} else if j == 1 {} else if j == 2 {} else if j == 3 {} else {}
                }
            }
        }
    }
}

/// The adder state at `k` with the carry out of bit `k` written.
pub open spec fn fwd_carry_state(
    s: spec_fn(u64) -> bool,
    l: Seq<Signal>,
    r: Seq<Signal>,
    sums: Seq<QubitId>,
    carries: Seq<QubitId>,
    k: nat,
) -> spec_fn(u64) -> bool {
    set_wire(adder_state(s, l, r, sums, carries, k), carries[k as int].0, rc_carry(l, r, s, k))
}

/// One forward step of the adder: the carry and then the sum of bit `k` are
/// written into qubits that still read zero.
pub proof fn lemma_fwd_step(
    s: spec_fn(u64) -> bool,
    l: Seq<Signal>,
    r: Seq<Signal>,
    sums: Seq<QubitId>,
    carries: Seq<QubitId>,
    targets: Seq<QubitId>,
    p0: Set<u64>,
    k: nat,
)
    requires
        adder_ctx(p0, supports(l) + supports(r), sums, carries, targets),
        zero_on(s, p0),
        k < 5,
    ensures
        zero_on(adder_state(s, l, r, sums, carries, k), adder_pool(p0, sums, carries)),
        zero_on(fwd_carry_state(s, l, r, sums, carries, k), adder_pool(p0, sums, carries)),
        sig_bit(l, k as int, adder_state(s, l, r, sums, carries, k)) == sig_bit(l, k as int, s),
        sig_bit(r, k as int, adder_state(s, l, r, sums, carries, k)) == sig_bit(r, k as int, s),
        sig_bit(l, k as int, fwd_carry_state(s, l, r, sums, carries, k)) == sig_bit(l, k as int, s),
        sig_bit(r, k as int, fwd_carry_state(s, l, r, sums, carries, k)) == sig_bit(r, k as int, s),
        !adder_state(s, l, r, sums, carries, k)(carries[k as int].0),
        !fwd_carry_state(s, l, r, sums, carries, k)(sums[k as int].0),
        k > 0 ==> adder_state(s, l, r, sums, carries, k)(carries[k - 1].0) == rc_carry(l, r, s, (k - 1) as nat),
        k > 0 ==> fwd_carry_state(s, l, r, sums, carries, k)(carries[k - 1].0) == rc_carry(l, r, s, (k - 1) as nat),
        set_wire(fwd_carry_state(s, l, r, sums, carries, k), sums[k as int].0, rc_sum(l, r, s, k)) == adder_state(s, l, r, sums, carries, k + 1),
{
    let x = supports(l) + supports(r);
    let cur = adder_state(s, l, r, sums, carries, k);
    let cq = carries[k as int].0;
    let c1 = set_wire(cur, cq, rc_carry(l, r, s, k));
    lemma_adder_keeps(s, l, r, sums, carries, targets, p0, k);
    assert(p0.contains(cq));
    assert forall|q: u64| x.contains(q) implies c1(q) == s(q) by {
        assert(cur(q) == s(q));
    }
    assert forall|q: u64| supports(l).contains(q) implies cur(q) == s(q) && c1(q) == s(q) by {
        assert(x.contains(q));
    }
    assert forall|q: u64| supports(r).contains(q) implies cur(q) == s(q) && c1(q) == s(q) by {
        assert(x.contains(q));
    }
    lemma_sig_bit_frame(l, cur, s, k as int);
    lemma_sig_bit_frame(r, cur, s, k as int);
    lemma_sig_bit_frame(l, c1, s, k as int);
    lemma_sig_bit_frame(r, c1, s, k as int);
    assert(qubit_set(carries).contains(cq));
    assert(sums[k as int] != carries[k as int]);
    assert forall|i: int|
        #![trigger sums[i]]
        #![trigger carries[i]]
        0 <= i < k implies sums[i].0 != sums[k as int].0 && carries[i].0 != sums[k as int].0
            && sums[i].0 != cq && carries[i].0 != cq by {
        assert(sums[i] != sums[k as int]);
        assert(sums[k as int] != carries[i]);
        assert(carries[i] != carries[k as int]);
        assert(sums[i] != carries[k as int]);
    }
    lemma_adder_outside(s, l, r, sums, carries, k, sums[k as int].0);
    lemma_adder_outside(s, l, r, sums, carries, k, cq);
    assert(p0.contains(sums[k as int].0));
    assert(!cur(sums[k as int].0) && !cur(cq));
    assert(c1(sums[k as int].0) == cur(sums[k as int].0));
    assert(c1 == fwd_carry_state(s, l, r, sums, carries, k));
    assert(adder_state(s, l, r, sums, carries, k + 1) == set_wire(c1, sums[k as int].0, rc_sum(l, r, s, k)));
    if k > 0 {
        lemma_adder_at(s, l, r, sums, carries, k, k - 1);
        assert(carries[k - 1] != carries[k as int]);
    }
}

/// `s` with the first `k` held registers set to their values: register `j`
/// XORed with `vals[j]`.
pub open spec fn set_regs(s: spec_fn(u64) -> bool, regs: Seq<Seq<QubitId>>, vals: Seq<nat>, k: nat) -> spec_fn(
    u64,
) -> bool
    decreases k,
{
    if k == 0 {
        s
    } else {
        xor_bits_of(set_regs(s, regs, vals, (k - 1) as nat), regs[k - 1], vals[k - 1], 5)
    }
}

/// The first `k` registers are five distinct qubits each, and no qubit is in
/// two of them.
pub open spec fn regs_ok(regs: Seq<Seq<QubitId>>, k: nat) -> bool {
    &&& k <= regs.len()
    &&& forall|j: int| 0 <= j < k ==> (#[trigger] regs[j]).len() == 5 && distinct_qubits(regs[j])
    &&& forall|i: int, j: int, a: int, b: int|
        0 <= i < j < k && 0 <= a < 5 && 0 <= b < 5 ==> (#[trigger] regs[i][a]) != (#[trigger] regs[j][b])
}

/// `q` is in none of the registers `lo..k`.
pub open spec fn not_in_regs(regs: Seq<Seq<QubitId>>, lo: nat, k: nat, q: u64) -> bool {
    forall|j: int, a: int| lo <= j < k && 0 <= a < 5 ==> (#[trigger] regs[j][a]).0 != q
}

/// Setting registers `lo..k` leaves every other qubit as it was after `lo`.
pub proof fn lemma_set_regs_outside(s: spec_fn(u64) -> bool, regs: Seq<Seq<QubitId>>, vals: Seq<nat>, lo: nat, k: nat, q: u64)
    requires
        lo <= k,
        not_in_regs(regs, lo, k, q),
    ensures
        set_regs(s, regs, vals, k)(q) == set_regs(s, regs, vals, lo)(q),
    decreases k,
{
    if k > lo {
        let j = (k - 1) as int;
        assert forall|i: int| 0 <= i < 5 implies (#[trigger] regs[j][i]).0 != q by {}
        lemma_xor_bits_outside(set_regs(s, regs, vals, (k - 1) as nat), regs[j], vals[j], 5, q);
        lemma_set_regs_outside(s, regs, vals, lo, (k - 1) as nat, q);
    }
}

/// The value of five qubits whose bits are those of `v < 32`.
pub proof fn lemma_qubits_value_bits(qs: Seq<QubitId>, t: spec_fn(u64) -> bool, v: nat, w: nat)
    requires
        w <= qs.len(),
        forall|a: int| 0 <= a < w ==> t(#[trigger] qs[a].0) == nat_bit(v, a as nat),
    ensures
        qubits_value(qs, w, t) == v % pow2(w),
    decreases w,
{
    vstd::arithmetic::power2::lemma_pow2_pos(w);
    if w == 0 {
        vstd::arithmetic::power2::lemma2_to64();
    } else {
        let k = (w - 1) as nat;
        lemma_qubits_value_bits(qs, t, v, k);
        vstd::arithmetic::power2::lemma_pow2_pos(k);
        vstd::arithmetic::power2::lemma_pow2_unfold(w);
        vstd::arithmetic::div_mod::lemma_mod_breakdown(v as int, pow2(k) as int, 2);
        assert(pow2(w) == pow2(k) * 2) by (nonlinear_arith)
            requires
                pow2(w) == 2 * pow2(k),
        ;
        assert(t(qs[k as int].0) == nat_bit(v, k));
        let hb = (v / pow2(k)) % 2;
        if nat_bit(v, k) {
            assert(hb == 1);
            assert(pow2(k) * hb == pow2(k)) by (nonlinear_arith)
                requires
                    hb == 1,
            ;
        } else {
            assert(hb == 0);
            assert(pow2(k) * hb == 0) by (nonlinear_arith)
                requires
                    hb == 0,
            ;
        }
        assert((v as int) % ((pow2(k) * 2) as int) == (pow2(k) as int) * (((v as int) / (pow2(k) as int)) % 2) + (v as int) % (pow2(k) as int));
    }
}

/// A set register reads as its value.
pub proof fn lemma_set_regs_value(s: spec_fn(u64) -> bool, regs: Seq<Seq<QubitId>>, vals: Seq<nat>, k: nat, j: int)
    requires
        regs_ok(regs, k),
        0 <= j < k,
        vals[j] < 32,
        forall|a: int| 0 <= a < 5 ==> !s(#[trigger] regs[j][a].0),
    ensures
        qubits_value(regs[j], 5, set_regs(s, regs, vals, k)) == vals[j],
        forall|a: int| 0 <= a < 5 ==> #[trigger] set_regs(s, regs, vals, k)(regs[j][a].0) == nat_bit(vals[j], a as nat),
{
    let t = set_regs(s, regs, vals, k);
    let reg = regs[j];
    assert forall|a: int| 0 <= a < 5 implies #[trigger] t(reg[a].0) == nat_bit(vals[j], a as nat) by {
        let q = reg[a].0;
        assert forall|i: int, b: int| j + 1 <= i < k && 0 <= b < 5 implies (#[trigger] regs[i][b]).0 != q by {
            assert(regs[j][a] != regs[i][b]);
        }
        lemma_set_regs_outside(s, regs, vals, (j + 1) as nat, k, q);
        assert(reg.subrange(0, 5) =~= reg);
        lemma_xor_bits_at(set_regs(s, regs, vals, j as nat), reg, vals[j], 5, a);
        assert forall|i: int, b: int| 0 <= i < j && 0 <= b < 5 implies (#[trigger] regs[i][b]).0 != q by {
            assert(regs[i][b] != regs[j][a]);
        }
        lemma_set_regs_outside(s, regs, vals, 0, j as nat, q);
    }
    lemma_qubits_value_bits(reg, t, vals[j], 5);
    vstd::arithmetic::power2::lemma2_to64();
}

/// Flipping a qubit outside the registers commutes with setting them.
pub proof fn lemma_set_regs_flip(s: spec_fn(u64) -> bool, regs: Seq<Seq<QubitId>>, vals: Seq<nat>, k: nat, q: u64, b: bool)
    requires
        not_in_regs(regs, 0, k, q),
    ensures
        set_regs(flip(s, q, b), regs, vals, k) == flip(set_regs(s, regs, vals, k), q, b),
    decreases k,
{
    if k > 0 {
        let j = (k - 1) as int;
        lemma_set_regs_flip(s, regs, vals, (k - 1) as nat, q, b);
        assert forall|i: int| 0 <= i < 5 implies (#[trigger] regs[j][i]).0 != q by {}
        lemma_xor_bits_flip(set_regs(s, regs, vals, (k - 1) as nat), regs[j], vals[j], 5, q, b);
    }
}

/// Flipping a qubit that is not a target commutes with `xor_bits_of`.
pub proof fn lemma_xor_bits_flip(s: spec_fn(u64) -> bool, targets: Seq<QubitId>, v: nat, n: nat, q: u64, b: bool)
    requires
        forall|i: int| 0 <= i < n ==> (#[trigger] targets[i]).0 != q,
    ensures
        xor_bits_of(flip(s, q, b), targets, v, n) == flip(xor_bits_of(s, targets, v, n), q, b),
    decreases n,
{
    if n > 0 {
        assert(targets[n - 1].0 != q);
        lemma_xor_bits_flip(s, targets, v, (n - 1) as nat, q, b);
        assert(xor_bits_of(flip(s, q, b), targets, v, n) =~= flip(xor_bits_of(s, targets, v, n), q, b));
    }
}

/// XORing the same bits twice into distinct targets undoes itself.
pub proof fn lemma_xor_bits_twice(s: spec_fn(u64) -> bool, targets: Seq<QubitId>, v: nat, n: nat)
    requires
        n <= targets.len(),
        distinct_qubits(targets.subrange(0, n as int)),
    ensures
        xor_bits_of(xor_bits_of(s, targets, v, n), targets, v, n) == s,
{
    let once = xor_bits_of(s, targets, v, n);
    let twice = xor_bits_of(once, targets, v, n);
    assert forall|q: u64| #[trigger] twice(q) == s(q) by {
        if exists|i: int| 0 <= i < n && (#[trigger] targets[i]).0 == q {
            let i = choose|i: int| 0 <= i < n && (#[trigger] targets[i]).0 == q;
            lemma_xor_bits_at(s, targets, v, n, i);
            lemma_xor_bits_at(once, targets, v, n, i);
        } else {
            lemma_xor_bits_outside(s, targets, v, n, q);
            lemma_xor_bits_outside(once, targets, v, n, q);
        }
    }
    assert(twice =~= s);
}

/// A five-qubit register as the target of a field kernel: all five written.
pub proof fn lemma_reg_width(reg: Seq<QubitId>)
    requires
        reg.len() == 5,
    ensures
        field_width(reg) == 5,
        reg.subrange(0, 5) == reg,
{
    assert(reg.subrange(0, 5) =~= reg);
}

/// Copying qubits that carry the bits of `v` XORs `v` into the targets.
pub proof fn lemma_xor_qubits_bits(
    s: spec_fn(u64) -> bool,
    source: Seq<QubitId>,
    target: Seq<QubitId>,
    v: nat,
    n: nat,
)
    requires
        n <= source.len(),
        n <= target.len(),
        forall|a: int| 0 <= a < n ==> s(#[trigger] source[a].0) == nat_bit(v, a as nat),
    ensures
        crate::shor_oracle::builder::xor_qubits(s, source, target, n) == xor_bits_of(s, target, v, n),
    decreases n,
{
    if n > 0 {
        lemma_xor_qubits_bits(s, source, target, v, (n - 1) as nat);
        assert(s(source[n - 1].0) == nat_bit(v, (n - 1) as nat));
    }
}

/// The value a controlled rotation XORs: the input times `2^k` in F_31
/// when the selector is set, else zero.
pub open spec fn ctrl_rot_value(input: Seq<QubitId>, sel: QubitId, k: nat, s: spec_fn(u64) -> bool) -> nat {
    if s(sel.0) {
        times_pow2_mod31(qubits_value(input, 5, s), k % 5)
    } else {
        0
    }
}

/// The signals reading each qubit of `qs`.
pub open spec fn qsigs(qs: Seq<QubitId>) -> Seq<Signal> {
    Seq::new(qs.len(), |i: int| Signal(SignalKind::Qubit(qs[i])))
}

/// The bits of a controlled rotation.
pub proof fn lemma_ctrl_rot_bits(input: Seq<QubitId>, sel: QubitId, k: nat, s: spec_fn(u64) -> bool, i: int)
    requires
        5 <= input.len(),
        0 <= i < 5,
    ensures
        nat_bit(ctrl_rot_value(input, sel, k, s), i as nat) == (s(sel.0) && s(
            input[rotate_source(i, k as int)].0,
        )),
        ctrl_rot_value(input, sel, k, s) < 32,
{
    let rot = Seq::new(5, |j: int| bit_at_spec(qsigs(input), rotate_source(j, k as int)));
    lemma_rotate_value(qsigs(input), rot, k, s);
    crate::shor_oracle::signal::lemma_qubit_signals_value(qsigs(input), input, 5, s);
    lemma_bits_of_value5(rot, s, i);
    assert(0 <= rotate_source(i, k as int) < 5);
    assert(bit_at_spec(rot, i) == rot[i]);
    assert(qsigs(input)[rotate_source(i, k as int)] == Signal(SignalKind::Qubit(input[rotate_source(i, k as int)])));
    if !s(sel.0) {
        vstd::arithmetic::power2::lemma_pow2_pos(i as nat);
    }
}

impl<S: OpSink> Builder<S> {
    /// XORs the input rotated left by `shift` into `target`, controlled by
    /// `selector`: a controlled multiplication by `2^shift` in F_31.
    pub(crate) fn xor_controlled_rotated_field_into(&mut self, input: &[QubitId], selector: QubitId, shift: usize, target: &[QubitId])
        requires
            old(self).wf(),
            5 <= input@.len(),
            !old(self).failed() ==> field_io_ok(old(self).pool(), qubit_set(input@).insert(selector.0), target@),
        ensures
            old(self).pure_step(final(self), qubit_set(input@).insert(selector.0) + qubit_set(target@)),
            !final(self).failed() ==> effect(
                added(old(self).emitted(), final(self).emitted()),
                old(self).pool(),
                |s: spec_fn(u64) -> bool| xor_value(s, target@, ctrl_rot_value(input@, selector, shift as nat, s)),
            ),
    {
        let ghost p0 = self.pool();
        let ghost reads = qubit_set(input@).insert(selector.0);
        let ghost allowed = reads + qubit_set(target@);
        let sh = shift % WIDTH;
        let n = if target.len() < WIDTH {
            target.len()
        } else {
            WIDTH
        };
        let mut out_bit: usize = 0;
        proof {
            self.lemma_step_refl();
            crate::shor_oracle::builder::lemma_added_none(self.emitted());
        }
        while out_bit < n
            invariant
                0 <= out_bit <= n,
                n == field_width(target@),
                5 <= input@.len(),
                sh == shift % 5,
                reads == qubit_set(input@).insert(selector.0),
                allowed == reads + qubit_set(target@),
                !old(self).failed() ==> field_io_ok(p0, reads, target@),
                p0 == old(self).pool(),
                old(self).pure_step(self, allowed),
                !self.failed() ==> effect(
                    added(old(self).emitted(), self.emitted()),
                    p0,
                    |s: spec_fn(u64) -> bool| xor_bits_of(s, target@, ctrl_rot_value(input@, selector, shift as nat, s), out_bit as nat),
                ),
            decreases n - out_bit,
        {
            let idx = (out_bit + WIDTH - sh) % WIDTH;
            let source = input[idx];
            let ghost mid = *self;
            let ghost src_i = idx as int;
            proof {
                assert(qubit_set(input@).contains(input@[src_i].0));
                assert(reads.contains(source.0) && reads.contains(selector.0));
            }
            self.xor_and_into(&Signal::qubit(selector), &Signal::qubit(source), target[out_bit]);
            proof {
                let tq = target@[out_bit as int].0;
                assert(qubit_set(target@).contains(tq));
                assert(set![selector.0].subset_of(allowed));
                assert(set![source.0].subset_of(allowed));
                Self::lemma_pure_step_widen(&mid, self, (set![selector.0] + set![source.0]).insert(tq), allowed);
                Self::lemma_pure_step_trans(old(self), &mid, self, allowed);
                if !self.failed() {
                    assert forall|s: spec_fn(u64) -> bool| zero_on(s, p0) implies #[trigger] run(
                        added(old(self).emitted(), self.emitted()),
                        s,
                    ) == xor_bits_of(s, target@, ctrl_rot_value(input@, selector, shift as nat, s), (out_bit + 1) as nat) by {
                        crate::shor_oracle::builder::lemma_run_steps(old(self).emitted(), mid.emitted(), self.emitted(), s);
                        let v = ctrl_rot_value(input@, selector, shift as nat, s);
                        let cur = xor_bits_of(s, target@, v, out_bit as nat);
                        assert(run(added(old(self).emitted(), mid.emitted()), s) == cur);
                        lemma_xor_bits_keeps(s, target@, v, out_bit as nat, p0, reads);
                        assert(zero_on(cur, p0)) by {
                            assert forall|q: u64| p0.contains(q) implies !cur(q) by {
                                assert((p0 + reads).contains(q));
                            }
                        }
                        assert((p0 + reads).contains(selector.0));
                        assert((p0 + reads).contains(source.0));
                        lemma_ctrl_rot_bits(input@, selector, shift as nat, s, out_bit as int);
                        assert(rotate_source(out_bit as int, shift as int) == src_i);
                    }
                }
            }
            out_bit = out_bit + 1;
        }
    }
}

/// The qubits of the first `k` registers.
pub open spec fn regs_set(regs: Seq<Seq<QubitId>>, k: nat) -> Set<u64> {
    Set::new(|q: u64| !not_in_regs(regs, 0, k, q))
}

/// The value of qubits depends only on those qubits.
pub proof fn lemma_qubits_value_frame(qs: Seq<QubitId>, w: nat, s1: spec_fn(u64) -> bool, s2: spec_fn(u64) -> bool)
    requires
        forall|q: u64| qubit_set(qs).contains(q) ==> s1(q) == s2(q),
    ensures
        qubits_value(qs, w, s1) == qubits_value(qs, w, s2),
    decreases w,
{
    if w > 0 {
        lemma_qubits_value_frame(qs, (w - 1) as nat, s1, s2);
        if w - 1 < qs.len() {
            assert(qubit_set(qs).contains(qs[w - 1].0));
        }
    }
}

/// The value of a qubit sequence fits its length: positions past the end
/// read zero.
pub proof fn lemma_qubits_value_bound(qs: Seq<QubitId>, w: nat, s: spec_fn(u64) -> bool)
    ensures
        qubits_value(qs, w, s) < pow2(if w < qs.len() { w } else { qs.len() }),
    decreases w,
{
    let m = if w < qs.len() { w } else { qs.len() };
    vstd::arithmetic::power2::lemma_pow2_pos(m);
    if w == 0 {
        vstd::arithmetic::power2::lemma2_to64();
    } else {
        let k = (w - 1) as nat;
        lemma_qubits_value_bound(qs, k, s);
        if w - 1 < qs.len() {
            vstd::arithmetic::power2::lemma_pow2_unfold(w);
        }
    }
}

/// Bit `k` of the value of a qubit sequence is the qubit at `k`.
pub proof fn lemma_qubits_value_bit(qs: Seq<QubitId>, s: spec_fn(u64) -> bool, k: int)
    requires
        0 <= k < 5,
        k < qs.len(),
    ensures
        nat_bit(qubits_value(qs, 5, s), k as nat) == s(qs[k].0),
{
    crate::shor_oracle::signal::lemma_qubit_signals_value(qsigs(qs), qs, 5, s);
    lemma_bits_of_value5(qsigs(qs), s, k);
    assert(bit_at_spec(qsigs(qs), k) == qsigs(qs)[k]);
}

/// Setting registers commutes with XORing bits into targets outside them.
pub proof fn lemma_set_regs_xor_bits(
    s: spec_fn(u64) -> bool,
    regs: Seq<Seq<QubitId>>,
    vals: Seq<nat>,
    k: nat,
    targets: Seq<QubitId>,
    v: nat,
    n: nat,
)
    requires
        forall|i: int| 0 <= i < n ==> not_in_regs(regs, 0, k, (#[trigger] targets[i]).0),
    ensures
        set_regs(xor_bits_of(s, targets, v, n), regs, vals, k) == xor_bits_of(set_regs(s, regs, vals, k), targets, v, n),
    decreases n,
{
    if n > 0 {
        let m = (n - 1) as nat;
        assert(not_in_regs(regs, 0, k, targets[m as int].0));
        lemma_set_regs_xor_bits(s, regs, vals, k, targets, v, m);
        lemma_set_regs_flip(xor_bits_of(s, targets, v, m), regs, vals, k, targets[m as int].0, nat_bit(v, m));
    }
}

/// The controlled rotation for bit `k` of the multiplier.
pub open spec fn mul_term(left: Seq<QubitId>, right: Seq<QubitId>, k: nat, s: spec_fn(u64) -> bool) -> nat {
    if k < right.len() {
        ctrl_rot_value(left, right[k as int], k, s)
    } else {
        0
    }
}

/// The partial product over the multiplier bits up to `k`.
pub open spec fn mul_acc(left: Seq<QubitId>, right: Seq<QubitId>, k: nat, s: spec_fn(u64) -> bool) -> nat {
    (qubits_value(left, 5, s) * (qubits_value(right, 5, s) % pow2(k + 1))) % 31
}

/// The values a multiplication holds: term and partial product, per
/// multiplier bit.
pub open spec fn mul_vals(left: Seq<QubitId>, right: Seq<QubitId>, s: spec_fn(u64) -> bool) -> Seq<nat> {
    Seq::new(
        10,
        |i: int|
            if i % 2 == 0 {
                mul_term(left, right, (i / 2) as nat, s)
            } else {
                mul_acc(left, right, (i / 2) as nat, s)
            },
    )
}

/// The F_31 product of the five-bit values of two qubit sequences.
pub open spec fn mul_mod31_value(left: Seq<QubitId>, right: Seq<QubitId>, s: spec_fn(u64) -> bool) -> nat {
    (qubits_value(left, 5, s) * qubits_value(right, 5, s)) % 31
}

/// How many multiplier bits a multiplication uses.
pub open spec fn mul_width(right: Seq<QubitId>) -> nat {
    if right.len() < 5 {
        right.len()
    } else {
        5
    }
}

/// Each partial product adds the next term to the previous one.
pub proof fn lemma_mul_step(left: Seq<QubitId>, right: Seq<QubitId>, s: spec_fn(u64) -> bool, k: nat)
    requires
        5 <= left.len(),
        k < mul_width(right),
    ensures
        mul_acc(left, right, k, s) == ((if k == 0 { 0 } else { mul_acc(left, right, (k - 1) as nat, s) })
            + mul_term(left, right, k, s)) % 31,
        mul_term(left, right, k, s) < 32,
        mul_acc(left, right, k, s) < 31,
{
    let l = qubits_value(left, 5, s);
    let r = qubits_value(right, 5, s);
    lemma_qubits_value_bound(left, 5, s);
    vstd::arithmetic::power2::lemma2_to64();
    lemma_qubits_value_bit(right, s, k as int);
    lemma_ctrl_rot_bits(left, right[k as int], k, s, 0);
    let acc: nat = if k == 0 { 0 } else { mul_acc(left, right, (k - 1) as nat, s) };
    assert(acc == (l * (r % pow2(k))) % 31) by {
        if k == 0 {
            assert(r % 1 == 0);
            assert(l * 0 == 0);
        }
    }
    lemma_mul_const_step(l, r, k, acc, nat_bit(r, k));
    assert(k % 5 == k);
    if nat_bit(r, k) {
        assert(times_pow2_mod31(l, k) <= 31) by {
            if l != 31 {
                assert((l * pow2(k)) % 31 < 31);
            }
        }
    }
}

/// The last partial product is the full product.
pub proof fn lemma_mul_product(left: Seq<QubitId>, right: Seq<QubitId>, s: spec_fn(u64) -> bool)
    ensures
        (if mul_width(right) == 0 {
            0
        } else {
            mul_acc(left, right, (mul_width(right) - 1) as nat, s)
        }) == mul_mod31_value(left, right, s),
{
    let n = mul_width(right);
    let r = qubits_value(right, 5, s);
    lemma_qubits_value_bound(right, 5, s);
    vstd::arithmetic::power2::lemma_pow2_pos(n);
    if n == 0 {
        vstd::arithmetic::power2::lemma2_to64();
        assert(r == 0);
        assert(qubits_value(left, 5, s) * 0 == 0);
    } else {
        vstd::arithmetic::div_mod::lemma_small_mod(r, pow2(n));
    }
}

/// XORing zero changes nothing.
pub proof fn lemma_xor_bits_zero(s: spec_fn(u64) -> bool, targets: Seq<QubitId>, n: nat)
    ensures
        xor_bits_of(s, targets, 0, n) == s,
    decreases n,
{
    if n > 0 {
        lemma_xor_bits_zero(s, targets, (n - 1) as nat);
        vstd::arithmetic::power2::lemma_pow2_pos((n - 1) as nat);
        assert(flip(s, targets[n - 1].0, false) =~= s);
    }
}

/// Setting registers reads only the first `k` of them.
pub proof fn lemma_set_regs_prefix(s: spec_fn(u64) -> bool, r1: Seq<Seq<QubitId>>, r2: Seq<Seq<QubitId>>, vals: Seq<nat>, k: nat)
    requires
        k <= r1.len(),
        k <= r2.len(),
        forall|j: int| 0 <= j < k ==> r1[j] == r2[j],
    ensures
        set_regs(s, r1, vals, k) == set_regs(s, r2, vals, k),
    decreases k,
{
    if k > 0 {
        lemma_set_regs_prefix(s, r1, r2, vals, (k - 1) as nat);
        assert(r1[k - 1] == r2[k - 1]);
    }
}

/// Holding one more register: the registers stay disjoint, their qubits grow
/// by the new one, and setting the earlier ones is unchanged.
pub proof fn lemma_regs_push(regs: Seq<Seq<QubitId>>, a: Seq<QubitId>, k: nat)
    requires
        regs.len() == k,
        regs_ok(regs, k),
        a.len() == 5,
        distinct_qubits(a),
        forall|i: int| 0 <= i < 5 ==> !regs_set(regs, k).contains(#[trigger] a[i].0),
    ensures
        regs_ok(regs.push(a), k + 1),
        regs_set(regs.push(a), k + 1) == regs_set(regs, k) + qubit_set(a),
        forall|s: spec_fn(u64) -> bool, vals: Seq<nat>|
            #[trigger] set_regs(s, regs.push(a), vals, k) == set_regs(s, regs, vals, k),
{
    let r2 = regs.push(a);
    assert forall|j: int| 0 <= j < k + 1 implies (#[trigger] r2[j]).len() == 5 && distinct_qubits(r2[j]) by {
        if j < k {
            assert(r2[j] == regs[j]);
        }
    }
    assert forall|i: int, j: int, x: int, y: int|
        0 <= i < j < k + 1 && 0 <= x < 5 && 0 <= y < 5 implies (#[trigger] r2[i][x]) != (#[trigger] r2[j][y]) by {
        assert(r2[i] == regs[i]);
        if j == k {
            assert(r2[j] == a);
            assert(!regs_set(regs, k).contains(a[y].0));
            assert(!not_in_regs(regs, 0, k, regs[i][x].0));
        } else {
            assert(r2[j] == regs[j]);
        }
    }
    assert forall|q: u64| #[trigger] regs_set(r2, k + 1).contains(q) == (regs_set(regs, k) + qubit_set(a)).contains(q) by {
        if regs_set(r2, k + 1).contains(q) {
            let (j, x) = choose|j: int, x: int| 0 <= j < k + 1 && 0 <= x < 5 && (#[trigger] r2[j][x]).0 == q;
            if j == k {
                assert(r2[j] == a);
                assert(qubit_set(a).contains(q));
            } else {
                assert(r2[j] == regs[j]);
                assert(!not_in_regs(regs, 0, k, q));
            }
        }
        if regs_set(regs, k).contains(q) {
            let (j, x) = choose|j: int, x: int| 0 <= j < k && 0 <= x < 5 && (#[trigger] regs[j][x]).0 == q;
            assert(r2[j] == regs[j]);
            assert(r2[j][x].0 == q);
        }
        if qubit_set(a).contains(q) {
            let x = choose|x: int| 0 <= x < a.len() && (#[trigger] a[x]).0 == q;
            assert(r2[k as int] == a);
            assert(r2[k as int][x].0 == q);
        }
    }
    assert(regs_set(r2, k + 1) =~= regs_set(regs, k) + qubit_set(a));
    assert forall|s: spec_fn(u64) -> bool, vals: Seq<nat>|
        #[trigger] set_regs(s, regs.push(a), vals, k) == set_regs(s, regs, vals, k) by {
        assert forall|j: int| 0 <= j < k implies r2[j] == regs[j] by {}
        lemma_set_regs_prefix(s, r2, regs, vals, k);
    }
}

/// Setting registers keeps what lies outside them, so in particular the
/// inputs, the targets and the pool.
pub proof fn lemma_set_regs_keeps(s: spec_fn(u64) -> bool, regs: Seq<Seq<QubitId>>, vals: Seq<nat>, k: nat)
    ensures
        forall|q: u64| !regs_set(regs, k).contains(q) ==> #[trigger] set_regs(s, regs, vals, k)(q) == s(q),
{
    assert forall|q: u64| !regs_set(regs, k).contains(q) implies #[trigger] set_regs(s, regs, vals, k)(q) == s(q) by {
        lemma_set_regs_outside(s, regs, vals, 0, k, q);
    }
}

/// The qubits of the first `k` registers are those of the first `k - 2`
/// and of the last two.
pub proof fn lemma_regs_set_split(regs: Seq<Seq<QubitId>>, k: nat)
    requires
        2 <= k <= regs.len(),
        forall|j: int| 0 <= j < k ==> (#[trigger] regs[j]).len() == 5,
    ensures
        regs_set(regs, k) == regs_set(regs, (k - 2) as nat) + qubit_set(regs[k - 2]) + qubit_set(regs[k - 1]),
{
    let a = regs[k - 2];
    let b = regs[k - 1];
    assert forall|q: u64| #[trigger] regs_set(regs, k).contains(q) == (regs_set(regs, (k - 2) as nat) + qubit_set(a) + qubit_set(b)).contains(q) by {
        if regs_set(regs, k).contains(q) {
            let (j, x) = choose|j: int, x: int| 0 <= j < k && 0 <= x < 5 && (#[trigger] regs[j][x]).0 == q;
            if j == k - 2 {
                assert(qubit_set(a).contains(q));
            } else if j == k - 1 {
                assert(qubit_set(b).contains(q));
            } else {
                assert(!not_in_regs(regs, 0, (k - 2) as nat, q));
            }
        }
        if regs_set(regs, (k - 2) as nat).contains(q) {
            let (j, x) = choose|j: int, x: int| 0 <= j < k - 2 && 0 <= x < 5 && (#[trigger] regs[j][x]).0 == q;
            assert(regs[j][x].0 == q);
        }
        if qubit_set(a).contains(q) {
            let x = choose|x: int| 0 <= x < a.len() && (#[trigger] a[x]).0 == q;
            assert(regs[k - 2][x].0 == q);
        }
        if qubit_set(b).contains(q) {
            let x = choose|x: int| 0 <= x < b.len() && (#[trigger] b[x]).0 == q;
            assert(regs[k - 1][x].0 == q);
        }
    }
    assert(regs_set(regs, k) =~= regs_set(regs, (k - 2) as nat) + qubit_set(a) + qubit_set(b));
}

impl<S: OpSink> Builder<S> {
    /// XORs `left * right` in F_31 into `target`: for each multiplier bit a
    /// controlled rotation of `left` is computed into a held term and added
    /// to the running product in a held accumulator; the last accumulator is
    /// copied out, and terms and accumulators are uncomputed in reverse.
    #[verifier::rlimit(60)]
    #[verifier::spinoff_prover]
    pub(crate) fn xor_mul_mod31_into(&mut self, left: &[QubitId], right: &[QubitId], target: &[QubitId])
        requires
            old(self).wf(),
            right@.len() > 0 ==> 5 <= left@.len(),
            !old(self).failed() ==> field_io_ok(old(self).pool(), qubit_set(left@) + qubit_set(right@), target@),
        ensures
            old(self).pure_step(final(self), qubit_set(left@) + qubit_set(right@) + qubit_set(target@)),
            !final(self).failed() ==> effect(
                added(old(self).emitted(), final(self).emitted()),
                old(self).pool(),
                |s: spec_fn(u64) -> bool| xor_value(s, target@, mul_mod31_value(left@, right@, s)),
            ),
    {
        let ghost p0 = self.pool();
        let ghost reads = qubit_set(left@) + qubit_set(right@);
        let ghost allowed = reads + qubit_set(target@);
        let ghost good = !self.failed();
        let ghost st0 = *self;
        let nr = if right.len() < WIDTH {
            right.len()
        } else {
            WIDTH
        };
        let mut terms: Vec<Vec<QubitId>> = Vec::new();
        let mut accs: Vec<Vec<QubitId>> = Vec::new();
        let mut previous = const_bits(0, WIDTH);
        let ghost mut regs: Seq<Seq<QubitId>> = Seq::empty();
        proof {
            self.lemma_step_refl();
            crate::shor_oracle::builder::lemma_added_none(self.emitted());
            assert(regs_set(regs, 0) =~= Set::<u64>::empty());
            assert(p0 - regs_set(regs, 0) =~= p0);
            assert forall|t: spec_fn(u64) -> bool| #[trigger] value_of(previous@, 5, t) == 0 by {
                vstd::arithmetic::power2::lemma2_to64();
                assert forall|i: int| 0 <= i < 5 implies #[trigger] bit_at_spec(previous@, i) == Signal(SignalKind::Const(nat_bit(0, i as nat))) by {}
                crate::shor_oracle::signal::lemma_const_bits_value(previous@, 0, 5, t);
            }
            assert(supports(previous@) =~= Set::<u64>::empty()) by {
                assert forall|q: u64| !supports(previous@).contains(q) by {
                    if supports(previous@).contains(q) {
                        let i = choose|i: int| 0 <= i < previous@.len() && #[trigger] support(previous@[i]).contains(q);
                        assert(previous@[i] == Signal(SignalKind::Const(nat_bit(0, i as nat))));
                    }
                }
            }
        }
        let mut shift: usize = 0;
        while shift < nr
            invariant
                0 <= shift <= nr,
                nr == mul_width(right@),
                right@.len() > 0 ==> 5 <= left@.len(),
                reads == qubit_set(left@) + qubit_set(right@),
                allowed == reads + qubit_set(target@),
                good == !st0.failed(),
                st0 == *old(self),
                p0 == old(self).pool(),
                terms@.len() == shift,
                accs@.len() == shift,
                regs.len() == 2 * shift,
                forall|j: int| 0 <= j < shift ==> #[trigger] regs[2 * j] == terms@[j]@ && regs[2 * j + 1] == accs@[j]@,
                previous@.len() == 5,
                forall|t: spec_fn(u64) -> bool| #[trigger] value_of(previous@, 5, t) == (if shift == 0 {
                    0
                } else {
                    qubits_value(regs[2 * shift - 1], 5, t)
                }),
                supports(previous@).subset_of(regs_set(regs, 2 * shift as nat)),
                old(self).step(self),
                good ==> field_io_ok(p0, reads, target@),
                !self.failed() ==> regs_ok(regs, 2 * shift as nat) && regs_set(regs, 2 * shift as nat).subset_of(p0),
                !self.failed() ==> self.pool() == p0 - regs_set(regs, 2 * shift as nat) && ops_within(
                    added(st0.emitted(), self.emitted()),
                    allowed + p0,
                ),
                !self.failed() ==> effect(
                    added(st0.emitted(), self.emitted()),
                    p0,
                    |s: spec_fn(u64) -> bool| set_regs(s, regs, mul_vals(left@, right@, s), 2 * shift as nat),
                ),
            decreases nr - shift,
        {
            let selector = right[shift];
            let ghost mid0 = *self;
            let term = self.hold_qubits(WIDTH);
            let ghost mid1 = *self;
            let ghost k = shift as nat;
            let ghost regs0 = regs;
            let ghost terms0 = terms@;
            let ghost accs0 = accs@;
            let ghost regs1 = regs.push(term@);
            let ghost term_v = term@;
            proof {
                Self::lemma_step_trans(old(self), &mid0, &mid1);
                if !self.failed() {
                    assert forall|i: int| 0 <= i < 5 implies !regs_set(regs, 2 * k).contains(#[trigger] term@[i].0) by {
                        assert(mid0.pool().contains(term@[i].0));
                    }
                    lemma_regs_push(regs, term@, 2 * k);
                    assert(qubit_set(right@).contains(selector.0));
                    assert forall|i: int| 0 <= i < 5 implies !(qubit_set(left@).insert(selector.0)).contains(#[trigger] term@[i].0) by {
                        assert(p0.contains(term@[i].0));
                        assert(!reads.contains(term@[i].0));
                    }
                    lemma_reg_width(term@);
                }
            }
            self.xor_controlled_rotated_field_into(left, selector, shift, term.as_slice());
            let ghost mid2 = *self;
            let acc = self.hold_qubits(WIDTH);
            let ghost mid3 = *self;
            let ghost regs2 = regs1.push(acc@);
            let ghost acc_v = acc@;
            let term_sigs = qubit_signals(term.as_slice());
            proof {
                Self::lemma_step_trans(old(self), &mid1, &mid2);
                Self::lemma_step_trans(old(self), &mid2, &mid3);
                crate::shor_oracle::signal::lemma_supports(term_sigs@);
                assert(supports(term_sigs@) =~= qubit_set(term@)) by {
                    assert forall|q: u64| #[trigger] supports(term_sigs@).contains(q) == qubit_set(term@).contains(q) by {
                        if supports(term_sigs@).contains(q) {
                            let i = choose|i: int| 0 <= i < term_sigs@.len() && #[trigger] support(term_sigs@[i]).contains(q);
                            assert(term_sigs@[i] == Signal(SignalKind::Qubit(term@[i])));
                        }
                        if qubit_set(term@).contains(q) {
                            let i = choose|i: int| 0 <= i < term@.len() && (#[trigger] term@[i]).0 == q;
                            assert(term_sigs@[i] == Signal(SignalKind::Qubit(term@[i])));
                            assert(support(term_sigs@[i]).contains(q));
                        }
                    }
                }
                if !self.failed() {
                    assert forall|i: int| 0 <= i < 5 implies !regs_set(regs1, 2 * k + 1).contains(#[trigger] acc@[i].0) by {
                        assert(mid2.pool().contains(acc@[i].0));
                    }
                    lemma_regs_push(regs1, acc@, 2 * k + 1);
                    lemma_reg_width(acc@);
                }
            }
            let ghost mid4 = *self;
            let ghost prev_v = previous@;
            let ghost ki = shift as int;
            self.xor_add_mod31_signals_into(previous.as_slice(), term_sigs.as_slice(), acc.as_slice());
            proof {
                Self::lemma_step_trans(old(self), &mid3, self);
            }
            previous = qubit_signals(acc.as_slice());
            terms.push(term);
            accs.push(acc);
            proof {
                regs = regs2;
                lemma_interleave(regs0, terms0, accs0, terms@, accs@, term_v, acc_v, shift as nat);
                assert(regs == regs0.push(term_v).push(acc_v));
                assert(forall|j: int| 0 <= j < shift + 1 ==> #[trigger] regs[2 * j] == terms@[j]@ && regs[2 * j + 1] == accs@[j]@);
                assert forall|q: u64| supports(previous@).contains(q) implies regs_set(regs, 2 * (shift + 1) as nat).contains(q) by {
                    let i = choose|i: int| 0 <= i < previous@.len() && #[trigger] support(previous@[i]).contains(q);
                    assert(previous@[i] == Signal(SignalKind::Qubit(acc_v[i])));
                    assert(regs[2 * shift + 1][i].0 == q);
                }
                Self::lemma_step_trans(&mid0, &mid1, &mid2);
                Self::lemma_step_trans(&mid0, &mid2, &mid3);
                Self::lemma_step_trans(&mid0, &mid3, &mid4);
                Self::lemma_step_trans(&mid0, &mid4, self);
                Self::lemma_step_trans(&st0, &mid0, self);
                if !self.failed() {
                    let rs0 = regs_set(regs0, 2 * k);
                    let rs1 = regs_set(regs1, 2 * k + 1);
                    let rs2 = regs_set(regs2, 2 * k + 2);
                    assert(rs1 == rs0 + qubit_set(term_v));
                    assert(rs2 == rs1 + qubit_set(acc_v));
                    assert(mid1.pool() == mid0.pool() - qubit_set(term_v));
                    assert(mid3.pool() == mid2.pool() - qubit_set(acc_v));
                    assert(self.pool() =~= p0 - rs2);
                    assert forall|q: u64| qubit_set(term_v).contains(q) implies p0.contains(q) by {
                        let i = choose|i: int| 0 <= i < term_v.len() && (#[trigger] term_v[i]).0 == q;
                        assert(mid0.pool().contains(term_v[i].0));
                    }
                    assert forall|q: u64| qubit_set(acc_v).contains(q) implies p0.contains(q) by {
                        let i = choose|i: int| 0 <= i < acc_v.len() && (#[trigger] acc_v[i]).0 == q;
                        assert(mid2.pool().contains(acc_v[i].0));
                    }
                    assert(rs2.subset_of(p0));
                    let big = allowed + p0;
                    assert(added(mid0.emitted(), mid1.emitted()) =~= Seq::<Op>::empty());
                    assert(added(mid2.emitted(), mid3.emitted()) =~= Seq::<Op>::empty());
                    assert(added(mid3.emitted(), mid4.emitted()) =~= Seq::<Op>::empty());
                    assert((qubit_set(left@).insert(selector.0) + qubit_set(term_v) + mid1.pool()).subset_of(big));
                    assert((supports(prev_v) + supports(term_sigs@) + qubit_set(acc_v) + mid4.pool()).subset_of(big));
                    crate::shor_oracle::builder::lemma_ops_within_mono(added(mid1.emitted(), mid2.emitted()), qubit_set(left@).insert(selector.0) + qubit_set(term_v) + mid1.pool(), big);
                    crate::shor_oracle::builder::lemma_ops_within_mono(added(mid4.emitted(), self.emitted()), supports(prev_v) + supports(term_sigs@) + qubit_set(acc_v) + mid4.pool(), big);
                    assert(added(mid0.emitted(), mid2.emitted()) == added(mid1.emitted(), mid2.emitted()));
                    crate::shor_oracle::builder::lemma_ops_within_concat(added(mid0.emitted(), mid2.emitted()), added(mid2.emitted(), mid3.emitted()), big);
                    crate::shor_oracle::builder::lemma_ops_within_concat(added(mid0.emitted(), mid3.emitted()), added(mid3.emitted(), mid4.emitted()), big);
                    crate::shor_oracle::builder::lemma_ops_within_concat(added(mid0.emitted(), mid4.emitted()), added(mid4.emitted(), self.emitted()), big);
                    crate::shor_oracle::builder::lemma_ops_within_concat(added(st0.emitted(), mid0.emitted()), added(mid0.emitted(), self.emitted()), big);
                    assert forall|s: spec_fn(u64) -> bool| zero_on(s, p0) implies #[trigger] run(
                        added(st0.emitted(), self.emitted()),
                        s,
                    ) == set_regs(s, regs2, mul_vals(left@, right@, s), 2 * k + 2) by {
                        let vals = mul_vals(left@, right@, s);
                        crate::shor_oracle::builder::lemma_run_steps(st0.emitted(), mid0.emitted(), self.emitted(), s);
                        let cur0 = set_regs(s, regs0, vals, 2 * k);
                        assert(run(added(st0.emitted(), mid0.emitted()), s) == cur0);
                        crate::shor_oracle::builder::lemma_run_steps(mid0.emitted(), mid2.emitted(), self.emitted(), cur0);
                        crate::shor_oracle::builder::lemma_run_steps(mid2.emitted(), mid4.emitted(), self.emitted(), run(added(mid0.emitted(), mid2.emitted()), cur0));
                        assert(added(mid2.emitted(), mid4.emitted()) =~= Seq::<Op>::empty());
                        lemma_set_regs_keeps(s, regs0, vals, 2 * k);
                        assert(zero_on(cur0, mid1.pool()));
                        lemma_qubits_value_frame(left@, 5, cur0, s);
                        assert(qubit_set(right@).contains(selector.0));
                        assert(cur0(selector.0) == s(selector.0));
                        lemma_mul_step(left@, right@, s, k);
                        assert(vals[2 * ki] == mul_term(left@, right@, k, s));
                        assert(vals[2 * ki + 1] == mul_acc(left@, right@, k, s));
                        assert(ctrl_rot_value(left@, selector, k, cur0) == vals[2 * ki]);
                        let cur1 = xor_bits_of(cur0, term_v, vals[2 * ki], 5);
                        assert(run(added(mid0.emitted(), mid2.emitted()), cur0) == cur1);
                        assert forall|j: int| 0 <= j < 2 * k implies regs2[j] == regs0[j] by {}
                        lemma_set_regs_prefix(s, regs2, regs0, vals, 2 * k);
                        assert(set_regs(s, regs2, vals, 2 * k) == cur0);
                        assert(regs2[2 * ki] == term_v);
                        assert(cur1 == set_regs(s, regs2, vals, 2 * k + 1));
                        lemma_set_regs_keeps(s, regs2, vals, 2 * k + 1);
                        assert(zero_on(cur1, mid4.pool())) by {
                            assert forall|q: u64| mid4.pool().contains(q) implies !cur1(q) by {
                                assert(!rs1.contains(q));
                            }
                        }
                        assert forall|a: int| 0 <= a < 5 implies !s(#[trigger] regs2[2 * ki][a].0) by {
                            assert(qubit_set(term_v).contains(term_v[a].0));
                        }
                        lemma_set_regs_value(s, regs2, vals, 2 * k + 1, 2 * ki);
                        crate::shor_oracle::signal::lemma_qubit_signals_value(term_sigs@, term_v, 5, cur1);
                        if k > 0 {
                            assert(regs2[2 * ki - 1] == regs0[2 * ki - 1]);
                            assert forall|a: int| 0 <= a < 5 implies !s(#[trigger] regs2[2 * ki - 1][a].0) by {
                                assert(rs0.contains(regs2[2 * ki - 1][a].0)) by {
                                    assert(regs0[2 * ki - 1][a].0 == regs2[2 * ki - 1][a].0);
                                }
                            }
                            lemma_mul_step(left@, right@, s, (k - 1) as nat);
                            assert(vals[2 * ki - 1] == mul_acc(left@, right@, (k - 1) as nat, s));
                            lemma_set_regs_value(s, regs2, vals, 2 * k + 1, 2 * ki - 1);
                        }
                        assert(add_mod31_value(prev_v, term_sigs@, cur1) == vals[2 * ki + 1]);
                        lemma_reg_width(acc_v);
                        assert(regs2[2 * ki + 1] == acc_v);
                    }
                }
                assert forall|t: spec_fn(u64) -> bool| #[trigger] value_of(previous@, 5, t) == qubits_value(regs[2 * (shift + 1) - 1], 5, t) by {
                    crate::shor_oracle::signal::lemma_qubit_signals_value(previous@, acc_v, 5, t);
                    assert(regs[2 * (shift + 1) - 1] == acc_v);
                }
            }
            shift = shift + 1;
        }
        let ghost st_f = *self;
        let ghost fw = field_width(target@);
        proof {
            self.lemma_step_refl();
        }
        if accs.len() > 0 {
            let last = accs.len() - 1;
            proof {
                assert(regs[2 * last] == terms@[last as int]@);
                assert(regs[2 * last + 1] == accs@[last as int]@);
            }
            self.xor_bits_into(accs[last].as_slice(), target);
        }
        let ghost st_c = *self;
        proof {
            Self::lemma_step_trans(&st0, &st_f, &st_c);
            lemma_mul_product(left@, right@, s_any());
            if !self.failed() {
                assert(fw <= target@.len());
                let prod = if nr > 0 { regs[2 * nr - 1] } else { Seq::<QubitId>::empty() };
                if nr > 0 {
                    assert(regs[2 * (nr - 1)] == terms@[nr - 1]@);
                    assert(prod == accs@[nr - 1]@);
                    assert(regs_set(regs, 2 * nr as nat).subset_of(p0));
                    assert(qubit_set(prod).subset_of(p0)) by {
                        assert forall|q: u64| qubit_set(prod).contains(q) implies p0.contains(q) by {
                            let i = choose|i: int| 0 <= i < prod.len() && (#[trigger] prod[i]).0 == q;
                            assert(regs[2 * nr - 1][i].0 == q);
                            assert(regs_set(regs, 2 * nr as nat).contains(q));
                        }
                    }
                    assert(crate::shor_oracle::builder::copy_width(prod, target@) == fw);
                    assert(crate::shor_oracle::builder::copy_qubits_ok(prod, target@)) by {
                        assert forall|i: int, j: int| 0 <= i < j < fw implies target@[i] != target@[j] by {
                            assert(target@.subrange(0, fw as int)[i] == target@[i]);
                            assert(target@.subrange(0, fw as int)[j] == target@[j]);
                        }
                        assert forall|i: int, j: int| 0 <= i < fw && 0 <= j < fw implies prod[i] != target@[j] by {
                            assert(qubit_set(prod).contains(prod[i].0));
                            assert(!p0.contains(target@[j].0));
                        }
                    }
                    crate::shor_oracle::builder::lemma_ops_within_mono(added(st_f.emitted(), st_c.emitted()), qubit_set(prod) + qubit_set(target@), allowed + p0);
                } else {
                    assert(added(st_f.emitted(), st_c.emitted()) =~= Seq::<Op>::empty());
                }
                crate::shor_oracle::builder::lemma_ops_within_concat(added(st0.emitted(), st_f.emitted()), added(st_f.emitted(), st_c.emitted()), allowed + p0);
                assert forall|s: spec_fn(u64) -> bool| zero_on(s, p0) implies #[trigger] run(
                    added(st0.emitted(), self.emitted()),
                    s,
                ) == set_regs(xor_value(s, target@, mul_mod31_value(left@, right@, s)), regs, mul_vals(left@, right@, s), 2 * nr as nat) by {
                    let vals = mul_vals(left@, right@, s);
                    let pv = mul_mod31_value(left@, right@, s);
                    crate::shor_oracle::builder::lemma_run_steps(st0.emitted(), st_f.emitted(), self.emitted(), s);
                    let cur = set_regs(s, regs, vals, 2 * nr as nat);
                    assert(run(added(st0.emitted(), st_f.emitted()), s) == cur);
                    lemma_mul_product(left@, right@, s);
                    assert forall|i: int| 0 <= i < fw implies not_in_regs(regs, 0, 2 * nr as nat, (#[trigger] target@[i]).0) by {
                        assert(!p0.contains(target@[i].0));
                        assert forall|j: int, a: int| 0 <= j < 2 * nr && 0 <= a < 5 implies (#[trigger] regs[j][a]).0 != target@[i].0 by {
                            assert(regs_set(regs, 2 * nr as nat).contains(regs[j][a].0));
                        }
                    }
                    lemma_set_regs_xor_bits(s, regs, vals, 2 * nr as nat, target@, pv, fw);
                    if nr > 0 {
                        assert forall|a: int| 0 <= a < 5 implies !s(#[trigger] regs[2 * nr - 1][a].0) by {
                            assert(regs_set(regs, 2 * nr as nat).contains(regs[2 * nr - 1][a].0));
                        }
                        lemma_mul_step(left@, right@, s, (nr - 1) as nat);
                        assert(vals[2 * nr - 1] == mul_acc(left@, right@, (nr - 1) as nat, s));
                        lemma_set_regs_value(s, regs, vals, 2 * nr as nat, 2 * nr - 1);
                        lemma_xor_qubits_bits(cur, prod, target@, pv, fw);
                    } else {
                        assert(added(st_f.emitted(), self.emitted()) =~= Seq::<Op>::empty());
                        lemma_xor_bits_zero(s, target@, fw);
                        lemma_xor_bits_zero(cur, target@, fw);
                    }
                }
            }
        }
        while terms.len() > 0
            invariant
                terms@.len() == accs@.len(),
                terms@.len() <= nr,
                nr == mul_width(right@),
                right@.len() > 0 ==> 5 <= left@.len(),
                reads == qubit_set(left@) + qubit_set(right@),
                allowed == reads + qubit_set(target@),
                good == !st0.failed(),
                st0 == *old(self),
                p0 == old(self).pool(),
                regs.len() == 2 * nr,
                forall|j: int| 0 <= j < terms@.len() ==> #[trigger] regs[2 * j] == terms@[j]@ && regs[2 * j + 1] == accs@[j]@,
                old(self).step(self),
                good ==> field_io_ok(p0, reads, target@),
                !self.failed() ==> regs_ok(regs, 2 * nr as nat) && regs_set(regs, 2 * nr as nat).subset_of(p0),
                !self.failed() ==> self.pool() == p0 - regs_set(regs, 2 * terms@.len()) && ops_within(
                    added(st0.emitted(), self.emitted()),
                    allowed + p0,
                ),
                !self.failed() ==> effect(
                    added(st0.emitted(), self.emitted()),
                    p0,
                    |s: spec_fn(u64) -> bool| set_regs(xor_value(s, target@, mul_mod31_value(left@, right@, s)), regs, mul_vals(left@, right@, s), 2 * terms@.len()),
                ),
            decreases terms@.len(),
        {
            let ghost mid0 = *self;
            proof {
                self.lemma_step_refl();
            }
            let ghost k = terms@.len();
            let ghost ki = k as int;
            let ghost terms0 = terms@;
            let ghost accs0 = accs@;
            let acc = match accs.pop() {
                Some(a) => a,
                None => Vec::new(),
            };
            let term = match terms.pop() {
                Some(t) => t,
                None => Vec::new(),
            };
            let index = accs.len();
            proof {
                assert(regs[2 * (ki - 1)] == terms0[ki - 1]@);
                assert(acc@ == regs[2 * ki - 1]);
                assert(term@ == regs[2 * ki - 2]);
                assert forall|j: int| 0 <= j < terms@.len() implies #[trigger] regs[2 * j] == terms@[j]@ && regs[2 * j + 1] == accs@[j]@ by {
                    assert(terms@[j] == terms0[j]);
                    assert(accs@[j] == accs0[j]);
                    assert(regs[2 * j] == terms0[j]@);
                }
            }
            let previous = if index == 0 {
                const_bits(0, WIDTH)
            } else {
                qubit_signals(accs[index - 1].as_slice())
            };
            let term_sigs = qubit_signals(term.as_slice());
            let ghost pk = self.pool();
            let ghost prev_v = previous@;
            let ghost acc_v = acc@;
            let ghost term_v = term@;
            let ghost rk = regs_set(regs, 2 * k);
            proof {
                crate::shor_oracle::signal::lemma_supports(prev_v);
                crate::shor_oracle::signal::lemma_supports(term_sigs@);
                assert(supports(term_sigs@) =~= qubit_set(term_v)) by {
                    assert forall|q: u64| #[trigger] supports(term_sigs@).contains(q) == qubit_set(term_v).contains(q) by {
                        if supports(term_sigs@).contains(q) {
                            let i = choose|i: int| 0 <= i < term_sigs@.len() && #[trigger] support(term_sigs@[i]).contains(q);
                            assert(term_sigs@[i] == Signal(SignalKind::Qubit(term_v[i])));
                        }
                        if qubit_set(term_v).contains(q) {
                            let i = choose|i: int| 0 <= i < term_v.len() && (#[trigger] term_v[i]).0 == q;
                            assert(term_sigs@[i] == Signal(SignalKind::Qubit(term_v[i])));
                            assert(support(term_sigs@[i]).contains(q));
                        }
                    }
                }
                if index > 0 {
                    assert(regs[2 * (index - 1)] == terms@[index - 1]@);
                    assert(regs[2 * index - 1] == accs@[index - 1]@);
                }
                assert forall|q: u64| supports(prev_v).contains(q) implies index > 0 && qubit_set(regs[2 * index - 1]).contains(q) by {
                    let i = choose|i: int| 0 <= i < prev_v.len() && #[trigger] support(prev_v[i]).contains(q);
                    if index == 0 {
                        assert(prev_v[i] == Signal(SignalKind::Const(nat_bit(0, i as nat))));
                    } else {
                        assert(prev_v[i] == Signal(SignalKind::Qubit(regs[2 * index - 1][i])));
                    }
                }
                if !self.failed() {
                    assert(pk == p0 - rk);
                    lemma_reg_width(acc_v);
                    lemma_reg_width(term_v);
                    assert(regs[2 * ki - 1].len() == 5 && distinct_qubits(regs[2 * ki - 1]));
                    assert(regs[2 * ki - 2].len() == 5 && distinct_qubits(regs[2 * ki - 2]));
                    assert forall|i: int| 0 <= i < 5 implies rk.contains(#[trigger] acc_v[i].0) && rk.contains(term_v[i].0) by {
                        assert(regs[2 * ki - 1][i].0 == acc_v[i].0);
                        assert(regs[2 * ki - 2][i].0 == term_v[i].0);
                    }
                    assert forall|q: u64| (supports(prev_v) + supports(term_sigs@)).contains(q) implies rk.contains(q) by {
                        if supports(prev_v).contains(q) {
                            let a = choose|a: int| 0 <= a < regs[2 * index - 1].len() && (#[trigger] regs[2 * index - 1][a]).0 == q;
                            assert(regs[2 * index - 1][a].0 == q);
                        } else {
                            let a = choose|a: int| 0 <= a < term_v.len() && (#[trigger] term_v[a]).0 == q;
                            assert(regs[2 * ki - 2][a].0 == q);
                        }
                    }
                    assert forall|i: int| 0 <= i < 5 implies !(supports(prev_v) + supports(term_sigs@)).contains(#[trigger] acc_v[i].0) by {
                        if supports(prev_v).contains(acc_v[i].0) {
                            let a = choose|a: int| 0 <= a < regs[2 * index - 1].len() && (#[trigger] regs[2 * index - 1][a]).0 == acc_v[i].0;
                            assert(regs[2 * index - 1][a] != regs[2 * ki - 1][i]);
                        }
                        if qubit_set(term_v).contains(acc_v[i].0) {
                            let a = choose|a: int| 0 <= a < term_v.len() && (#[trigger] term_v[a]).0 == acc_v[i].0;
                            assert(regs[2 * ki - 2][a] != regs[2 * ki - 1][i]);
                        }
                    }
                    assert(qubit_set(right@).contains(right@[index as int].0));
                    assert forall|i: int| 0 <= i < 5 implies !(qubit_set(left@).insert(right@[index as int].0)).contains(#[trigger] term_v[i].0) by {
                        assert(regs_set(regs, 2 * nr as nat).contains(term_v[i].0)) by {
                            assert(regs[2 * ki - 2][i].0 == term_v[i].0);
                        }
                        assert(!reads.contains(term_v[i].0));
                    }
                }
            }
            let ghost m1 = *self;
            self.xor_add_mod31_signals_into(previous.as_slice(), term_sigs.as_slice(), acc.as_slice());
            let ghost m2 = *self;
            self.xor_controlled_rotated_field_into(left, right[index], index, term.as_slice());
            let ghost m3 = *self;
            self.release_hold_qubits(acc);
            let ghost m4 = *self;
            proof {
                if !self.failed() {
                    assert forall|i: int| 0 <= i < term_v.len() implies !m4.pool().contains(#[trigger] term_v[i].0) by {
                        assert(rk.contains(term_v[i].0));
                        assert forall|j: int| 0 <= j < acc_v.len() implies acc_v[j].0 != term_v[i].0 by {
                            assert(regs[2 * ki - 2][i] != regs[2 * ki - 1][j]);
                        }
                    }
                }
            }
            self.release_hold_qubits(term);
            proof {
                Self::lemma_step_trans(&m1, &m2, &m3);
                Self::lemma_step_trans(&m1, &m3, &m4);
                Self::lemma_step_trans(&m1, &m4, self);
                Self::lemma_step_trans(&mid0, &m1, self);
                Self::lemma_step_trans(&st0, &mid0, self);
                if !self.failed() {
                    let k2 = (2 * k - 2) as nat;
                    lemma_regs_set_split(regs, 2 * k);
                    assert(self.pool() =~= p0 - regs_set(regs, k2)) by {
                        assert forall|q: u64| #[trigger] self.pool().contains(q) == (p0 - regs_set(regs, k2)).contains(q) by {
                            if qubit_set(acc_v).contains(q) {
                                let a = choose|a: int| 0 <= a < acc_v.len() && (#[trigger] acc_v[a]).0 == q;
                                assert(regs[2 * ki - 1][a].0 == q);
                                if regs_set(regs, k2).contains(q) {
                                    let (j, b) = choose|j: int, b: int| 0 <= j < k2 && 0 <= b < 5 && (#[trigger] regs[j][b]).0 == q;
                                    assert(regs[j][b] != regs[2 * ki - 1][a]);
                                }
                            }
                            if qubit_set(term_v).contains(q) {
                                let a = choose|a: int| 0 <= a < term_v.len() && (#[trigger] term_v[a]).0 == q;
                                assert(regs[2 * ki - 2][a].0 == q);
                                if regs_set(regs, k2).contains(q) {
                                    let (j, b) = choose|j: int, b: int| 0 <= j < k2 && 0 <= b < 5 && (#[trigger] regs[j][b]).0 == q;
                                    assert(regs[j][b] != regs[2 * ki - 2][a]);
                                }
                            }
                        }
                    }
                    let big = allowed + p0;
                    assert(added(mid0.emitted(), m1.emitted()) =~= Seq::<Op>::empty());
                    assert(added(m3.emitted(), self.emitted()) =~= Seq::<Op>::empty());
                    assert((supports(prev_v) + supports(term_sigs@) + qubit_set(acc_v) + m1.pool()).subset_of(big));
                    assert((qubit_set(left@).insert(right@[index as int].0) + qubit_set(term_v) + m2.pool()).subset_of(big));
                    crate::shor_oracle::builder::lemma_ops_within_mono(added(m1.emitted(), m2.emitted()), supports(prev_v) + supports(term_sigs@) + qubit_set(acc_v) + m1.pool(), big);
                    crate::shor_oracle::builder::lemma_ops_within_mono(added(m2.emitted(), m3.emitted()), qubit_set(left@).insert(right@[index as int].0) + qubit_set(term_v) + m2.pool(), big);
                    crate::shor_oracle::builder::lemma_ops_within_concat(added(m1.emitted(), m2.emitted()), added(m2.emitted(), m3.emitted()), big);
                    crate::shor_oracle::builder::lemma_ops_within_concat(added(m1.emitted(), m3.emitted()), added(m3.emitted(), m4.emitted()), big);
                    crate::shor_oracle::builder::lemma_ops_within_concat(added(m1.emitted(), m4.emitted()), added(m4.emitted(), self.emitted()), big);
                    crate::shor_oracle::builder::lemma_ops_within_concat(added(mid0.emitted(), m1.emitted()), added(m1.emitted(), self.emitted()), big);
                    crate::shor_oracle::builder::lemma_ops_within_concat(added(st0.emitted(), mid0.emitted()), added(mid0.emitted(), self.emitted()), big);
                    assert forall|s: spec_fn(u64) -> bool| zero_on(s, p0) implies #[trigger] run(
                        added(st0.emitted(), self.emitted()),
                        s,
                    ) == set_regs(xor_value(s, target@, mul_mod31_value(left@, right@, s)), regs, mul_vals(left@, right@, s), k2) by {
                        let vals = mul_vals(left@, right@, s);
                        let m = xor_value(s, target@, mul_mod31_value(left@, right@, s));
                        let cur = set_regs(m, regs, vals, 2 * k);
                        let c1 = set_regs(m, regs, vals, (2 * k - 1) as nat);
                        lemma_mul_bwd_step(s, left@, right@, target@, regs, p0, nr as nat, k, prev_v, term_sigs@);
                        crate::shor_oracle::builder::lemma_run_steps(st0.emitted(), mid0.emitted(), self.emitted(), s);
                        assert(run(added(st0.emitted(), mid0.emitted()), s) == cur);
                        crate::shor_oracle::builder::lemma_run_steps(mid0.emitted(), m1.emitted(), self.emitted(), cur);
                        crate::shor_oracle::builder::lemma_run_steps(m1.emitted(), m2.emitted(), self.emitted(), cur);
                        crate::shor_oracle::builder::lemma_run_steps(m2.emitted(), m3.emitted(), self.emitted(), run(added(m1.emitted(), m2.emitted()), cur));
                        assert(zero_on(cur, m1.pool()));
                        assert(run(added(m1.emitted(), m2.emitted()), cur) == c1);
                        assert(zero_on(c1, m2.pool()));
                    }
                }
            }
        }
        proof {
            if !self.failed() {
                assert(regs_set(regs, 0) =~= Set::<u64>::empty());
                assert(self.pool() =~= p0);
            }
        }
    }
}

/// Some assignment, for statements that hold of every one.
pub open spec fn s_any() -> spec_fn(u64) -> bool {
    |q: u64| false
}

/// The registers of a multiplication interleave its terms and accumulators.
pub proof fn lemma_interleave(
    regs0: Seq<Seq<QubitId>>,
    terms0: Seq<Vec<QubitId>>,
    accs0: Seq<Vec<QubitId>>,
    terms: Seq<Vec<QubitId>>,
    accs: Seq<Vec<QubitId>>,
    term: Seq<QubitId>,
    acc: Seq<QubitId>,
    k: nat,
)
    requires
        regs0.len() == 2 * k,
        terms0.len() == k,
        accs0.len() == k,
        forall|j: int| 0 <= j < k ==> #[trigger] regs0[2 * j] == terms0[j]@ && regs0[2 * j + 1] == accs0[j]@,
        terms.len() == k + 1,
        accs.len() == k + 1,
        forall|j: int| 0 <= j < k ==> #[trigger] terms[j] == terms0[j],
        forall|j: int| 0 <= j < k ==> #[trigger] accs[j] == accs0[j],
        terms[k as int]@ == term,
        accs[k as int]@ == acc,
    ensures
        forall|j: int|
            0 <= j < k + 1 ==> #[trigger] regs0.push(term).push(acc)[2 * j] == terms[j]@ && regs0.push(term).push(
                acc,
            )[2 * j + 1] == accs[j]@,
{
    let r1 = regs0.push(term);
    let r = r1.push(acc);
    assert(r.len() == 2 * k + 2);
    assert forall|j: int| 0 <= j < k + 1 implies #[trigger] r[2 * j] == terms[j]@ && r[2 * j + 1] == accs[j]@ by {
        if j < k {
            assert(r[2 * j] == r1[2 * j]);
            assert(r1[2 * j] == regs0[2 * j]);
            assert(r[2 * j + 1] == r1[2 * j + 1]);
            assert(r1[2 * j + 1] == regs0[2 * j + 1]);
            assert(regs0[2 * j] == terms0[j]@);
            assert(terms[j] == terms0[j]);
            assert(accs[j] == accs0[j]);
        } else {
            assert(r[2 * j] == r1[2 * j]);
            assert(r1[2 * j] == term);
            assert(r[2 * j + 1] == acc);
        }
    }
}

/// One backward step of a multiplication: the accumulator and then the term
/// of multiplier bit `k - 1` are XORed with their values again, which
/// clears them.
pub proof fn lemma_mul_bwd_step(
    s: spec_fn(u64) -> bool,
    left: Seq<QubitId>,
    right: Seq<QubitId>,
    target: Seq<QubitId>,
    regs: Seq<Seq<QubitId>>,
    p0: Set<u64>,
    nr: nat,
    k: nat,
    prev_v: Seq<Signal>,
    term_sigs: Seq<Signal>,
)
    requires
        zero_on(s, p0),
        field_io_ok(p0, qubit_set(left) + qubit_set(right), target),
        nr == mul_width(right),
        5 <= left.len(),
        1 <= k <= nr,
        regs.len() == 2 * nr,
        regs_ok(regs, 2 * nr),
        regs_set(regs, 2 * nr).subset_of(p0),
        term_sigs.len() == 5,
        forall|i: int| 0 <= i < 5 ==> #[trigger] term_sigs[i] == Signal(SignalKind::Qubit(regs[2 * k - 2][i])),
        prev_v.len() == 5,
        k == 1 ==> forall|i: int| 0 <= i < 5 ==> #[trigger] prev_v[i] == Signal(SignalKind::Const(nat_bit(0, i as nat))),
        k > 1 ==> forall|i: int| 0 <= i < 5 ==> #[trigger] prev_v[i] == Signal(SignalKind::Qubit(regs[2 * k - 3][i])),
    ensures
        ({
            let vals = mul_vals(left, right, s);
            let m = xor_value(s, target, mul_mod31_value(left, right, s));
            let cur = set_regs(m, regs, vals, 2 * k);
            let c1 = set_regs(m, regs, vals, (2 * k - 1) as nat);
            let pk = p0 - regs_set(regs, 2 * k);
            &&& zero_on(cur, pk)
            &&& zero_on(c1, pk)
            &&& xor_value(cur, regs[2 * k - 1], add_mod31_value(prev_v, term_sigs, cur)) == c1
            &&& xor_value(c1, regs[2 * k - 2], ctrl_rot_value(left, right[k - 1], (k - 1) as nat, c1)) == set_regs(m, regs, vals, (2 * k - 2) as nat)
        }),
{
    let reads = qubit_set(left) + qubit_set(right);
    let ki = k as int;
    let index = (k - 1) as nat;
    let k2 = (2 * k - 2) as nat;
    let rk = regs_set(regs, 2 * k);
    let vals = mul_vals(left, right, s);
    let m = xor_value(s, target, mul_mod31_value(left, right, s));
    let acc_v = regs[2 * ki - 1];
    let term_v = regs[2 * ki - 2];
    lemma_reg_width(acc_v);
    lemma_reg_width(term_v);
    lemma_xor_bits_keeps(s, target, mul_mod31_value(left, right, s), field_width(target), p0, reads);
    assert(zero_on(m, p0)) by {
        assert forall|q: u64| p0.contains(q) implies !m(q) by {
            assert((p0 + reads).contains(q));
        }
    }
    assert forall|j: int, b: int| 0 <= j < 2 * k && 0 <= b < 5 implies rk.contains(#[trigger] regs[j][b].0) && regs_set(regs, 2 * nr).contains(regs[j][b].0) by {}
    let cur = set_regs(m, regs, vals, 2 * k);
    lemma_set_regs_keeps(m, regs, vals, 2 * k);
    lemma_mul_step(left, right, s, index);
    assert(vals[2 * ki - 1] == mul_acc(left, right, index, s));
    assert(vals[2 * ki - 2] == mul_term(left, right, index, s));
    assert forall|a: int| 0 <= a < 5 implies !m(#[trigger] regs[2 * ki - 2][a].0) by {
        assert(rk.contains(regs[2 * ki - 2][a].0));
    }
    lemma_set_regs_value(m, regs, vals, 2 * k, 2 * ki - 2);
    crate::shor_oracle::signal::lemma_qubit_signals_value(term_sigs, term_v, 5, cur);
    if k > 1 {
        assert forall|a: int| 0 <= a < 5 implies !m(#[trigger] regs[2 * ki - 3][a].0) by {
            assert(rk.contains(regs[2 * ki - 3][a].0));
        }
        lemma_mul_step(left, right, s, (index - 1) as nat);
        assert(vals[2 * ki - 3] == mul_acc(left, right, (index - 1) as nat, s));
        lemma_set_regs_value(m, regs, vals, 2 * k, 2 * ki - 3);
        crate::shor_oracle::signal::lemma_qubit_signals_value(prev_v, regs[2 * ki - 3], 5, cur);
    } else {
        vstd::arithmetic::power2::lemma2_to64();
        assert forall|i: int| 0 <= i < 5 implies #[trigger] bit_at_spec(prev_v, i) == Signal(SignalKind::Const(nat_bit(0, i as nat))) by {}
        crate::shor_oracle::signal::lemma_const_bits_value(prev_v, 0, 5, cur);
    }
    assert(add_mod31_value(prev_v, term_sigs, cur) == vals[2 * ki - 1]);
    let c1 = set_regs(m, regs, vals, (2 * k - 1) as nat);
    lemma_xor_bits_twice(c1, acc_v, vals[2 * ki - 1], 5);
    lemma_set_regs_keeps(m, regs, vals, (2 * k - 1) as nat);
    assert forall|q: u64| !rk.contains(q) implies !regs_set(regs, (2 * k - 1) as nat).contains(q) by {
        if regs_set(regs, (2 * k - 1) as nat).contains(q) {
            let (j, b) = choose|j: int, b: int| 0 <= j < 2 * k - 1 && 0 <= b < 5 && (#[trigger] regs[j][b]).0 == q;
            assert(rk.contains(regs[j][b].0));
        }
    }
    assert forall|q: u64| reads.contains(q) implies c1(q) == s(q) by {
        assert(!p0.contains(q));
        assert(!rk.contains(q));
        assert((p0 + reads).contains(q));
    }
    assert forall|q: u64| qubit_set(left).contains(q) implies c1(q) == s(q) by {
        assert(reads.contains(q));
    }
    lemma_qubits_value_frame(left, 5, c1, s);
    assert(qubit_set(right).contains(right[index as int].0));
    assert(reads.contains(right[index as int].0));
    assert(ctrl_rot_value(left, right[index as int], index, c1) == vals[2 * ki - 2]);
    lemma_xor_bits_twice(set_regs(m, regs, vals, k2), term_v, vals[2 * ki - 2], 5);
}

/// The powers `v^2, v^4, v^8, v^16, v^24, v^28` in F_31, each from earlier
/// ones by one multiplication.
pub open spec fn inv_chain(v: nat) -> Seq<nat> {
    Seq::new(6, |i: int| inv_pow(v, i))
}

/// Entry `i` of the chain of powers.
pub open spec fn inv_pow(v: nat, i: int) -> nat {
    let c2 = (v * v) % 31;
    let c4 = (c2 * c2) % 31;
    let c8 = (c4 * c4) % 31;
    let c16 = (c8 * c8) % 31;
    let c24 = (c16 * c8) % 31;
    let c28 = (c24 * c4) % 31;
    if i == 0 {
        c2
    } else if i == 1 {
        c4
    } else if i == 2 {
        c8
    } else if i == 3 {
        c16
    } else if i == 4 {
        c24
    } else {
        c28
    }
}

/// `v^29` in F_31: the inverse of `v` when `v` is not zero (Fermat).
pub open spec fn inv31(v: nat) -> nat {
    (inv_pow(v, 5) * v) % 31
}

/// The F_31 inverse (zero for zero) of the five-bit value of `input`.
pub open spec fn inv_mod31_value(input: Seq<QubitId>, s: spec_fn(u64) -> bool) -> nat {
    inv31(qubits_value(input, 5, s))
}

/// `v^29` is the multiplicative inverse of every nonzero element of F_31
/// and zero for zero.
pub proof fn lemma_inv31(v: nat)
    requires
        v < 32,
    ensures
        inv31(v) < 31,
        v % 31 == 0 ==> inv31(v) == 0,
        v % 31 != 0 ==> (v * inv31(v)) % 31 == 1,
{
    if v == 0 {
        assert(inv31(0) == 0) by (nonlinear_arith);
    } else if v == 1 {
        assert(inv31(1) == 1) by (nonlinear_arith);
    } else if v == 2 {
        assert(inv31(2) == 16) by (nonlinear_arith);
    } else if v == 3 {
        assert(inv31(3) == 21) by (nonlinear_arith);
    } else if v == 4 {
        assert(inv31(4) == 8) by (nonlinear_arith);
    } else if v == 5 {
        assert(inv31(5) == 25) by (nonlinear_arith);
    } else if v == 6 {
        assert(inv31(6) == 26) by (nonlinear_arith);
    } else if v == 7 {
        assert(inv31(7) == 9) by (nonlinear_arith);
    } else if v == 8 {
        assert(inv31(8) == 4) by (nonlinear_arith);
    } else if v == 9 {
        assert(inv31(9) == 7) by (nonlinear_arith);
    } else if v == 10 {
        assert(inv31(10) == 28) by (nonlinear_arith);
    } else if v == 11 {
        assert(inv31(11) == 17) by (nonlinear_arith);
    } else if v == 12 {
        assert(inv31(12) == 13) by (nonlinear_arith);
    } else if v == 13 {
        assert(inv31(13) == 12) by (nonlinear_arith);
    } else if v == 14 {
        assert(inv31(14) == 20) by (nonlinear_arith);
    } else if v == 15 {
        assert(inv31(15) == 29) by (nonlinear_arith);
    } else if v == 16 {
        assert(inv31(16) == 2) by (nonlinear_arith);
    } else if v == 17 {
        assert(inv31(17) == 11) by (nonlinear_arith);
    } else if v == 18 {
        assert(inv31(18) == 19) by (nonlinear_arith);
    } else if v == 19 {
        assert(inv31(19) == 18) by (nonlinear_arith);
    } else if v == 20 {
        assert(inv31(20) == 14) by (nonlinear_arith);
    } else if v == 21 {
        assert(inv31(21) == 3) by (nonlinear_arith);
    } else if v == 22 {
        assert(inv31(22) == 24) by (nonlinear_arith);
    } else if v == 23 {
        assert(inv31(23) == 27) by (nonlinear_arith);
    } else if v == 24 {
        assert(inv31(24) == 22) by (nonlinear_arith);
    } else if v == 25 {
        assert(inv31(25) == 5) by (nonlinear_arith);
    } else if v == 26 {
        assert(inv31(26) == 6) by (nonlinear_arith);
    } else if v == 27 {
        assert(inv31(27) == 23) by (nonlinear_arith);
    } else if v == 28 {
        assert(inv31(28) == 10) by (nonlinear_arith);
    } else if v == 29 {
        assert(inv31(29) == 15) by (nonlinear_arith);
    } else if v == 30 {
        assert(inv31(30) == 30) by (nonlinear_arith);
    } else {
        assert(inv31(31) == 0) by (nonlinear_arith);
    }
}

/// An operand of the inverse chain: the input (index -1) or a held register.
pub open spec fn operand(input: Seq<QubitId>, regs: Seq<Seq<QubitId>>, i: int) -> Seq<QubitId> {
    if i < 0 {
        input
    } else {
        regs[i]
    }
}

/// The value of an operand of the inverse chain.
pub open spec fn opval(v: nat, vals: Seq<nat>, i: int) -> nat {
    if i < 0 {
        v
    } else {
        vals[i]
    }
}

/// The multiplications of the inverse chain: register `k` is operand `a`
/// times operand `b`.
pub open spec fn inv_step_ok(k: int, a: int, b: int) -> bool {
    ||| (k == 0 && a == -1 && b == -1)
    ||| (k == 1 && a == 0 && b == 0)
    ||| (k == 2 && a == 1 && b == 1)
    ||| (k == 3 && a == 2 && b == 2)
    ||| (k == 4 && a == 3 && b == 2)
    ||| (k == 5 && a == 4 && b == 1)
}

/// The inverse's held registers: six distinct registers from the pool, the
/// input read outside it, and writable targets.
pub open spec fn inv_ctx(p0: Set<u64>, input: Seq<QubitId>, target: Seq<QubitId>, regs: Seq<Seq<QubitId>>) -> bool {
    &&& regs.len() == 6
    &&& regs_ok(regs, 6)
    &&& regs_set(regs, 6).subset_of(p0)
    &&& field_io_ok(p0, qubit_set(input), target)
}

/// The qubits of a held register are among the held qubits.
pub proof fn lemma_reg_in_set(regs: Seq<Seq<QubitId>>, k: nat, i: int)
    requires
        0 <= i < k,
        regs[i].len() == 5,
    ensures
        qubit_set(regs[i]).subset_of(regs_set(regs, k)),
{
    assert forall|q: u64| qubit_set(regs[i]).contains(q) implies regs_set(regs, k).contains(q) by {
        let a = choose|a: int| 0 <= a < regs[i].len() && (#[trigger] regs[i][a]).0 == q;
        assert(regs[i][a].0 == q);
    }
}

/// What a multiplication of the inverse chain may write and read.
pub proof fn lemma_inv_io(p0: Set<u64>, input: Seq<QubitId>, target: Seq<QubitId>, regs: Seq<Seq<QubitId>>, k: int, a: int, b: int)
    requires
        inv_ctx(p0, input, target, regs),
        inv_step_ok(k, a, b) || (k == 6 && a == 5 && b == -1),
    ensures
        k < 6 ==> field_io_ok(
            p0 - regs_set(regs, 6),
            qubit_set(operand(input, regs, a)) + qubit_set(operand(input, regs, b)),
            regs[k],
        ),
        k == 6 ==> field_io_ok(p0 - regs_set(regs, 6), qubit_set(regs[5]) + qubit_set(input), target),
        (qubit_set(operand(input, regs, a)) + qubit_set(operand(input, regs, b))).subset_of(qubit_set(input) + p0),
        k < 6 ==> qubit_set(regs[k]).subset_of(p0),
{
    let p1 = p0 - regs_set(regs, 6);
    let rs = regs_set(regs, 6);
    if a >= 0 {
        lemma_reg_in_set(regs, 6, a);
    }
    if b >= 0 {
        lemma_reg_in_set(regs, 6, b);
    }
    if k < 6 {
        lemma_reg_in_set(regs, 6, k);
        lemma_reg_width(regs[k]);
        let reads = qubit_set(operand(input, regs, a)) + qubit_set(operand(input, regs, b));
        assert forall|i: int| 0 <= i < field_width(regs[k]) implies !p1.contains(#[trigger] regs[k][i].0) && !reads.contains(regs[k][i].0) by {
            assert(rs.contains(regs[k][i].0));
            if qubit_set(operand(input, regs, a)).contains(regs[k][i].0) {
                if a < 0 {
                    assert(p0.contains(regs[k][i].0));
                } else {
                    let x = choose|x: int| 0 <= x < regs[a].len() && (#[trigger] regs[a][x]).0 == regs[k][i].0;
                    assert(regs[a][x] != regs[k][i]);
                }
            }
            if qubit_set(operand(input, regs, b)).contains(regs[k][i].0) {
                if b < 0 {
                    assert(p0.contains(regs[k][i].0));
                } else {
                    let x = choose|x: int| 0 <= x < regs[b].len() && (#[trigger] regs[b][x]).0 == regs[k][i].0;
                    assert(regs[b][x] != regs[k][i]);
                }
            }
        }
    } else {
        lemma_reg_in_set(regs, 6, 5);
        let reads = qubit_set(regs[5]) + qubit_set(input);
        assert forall|i: int| 0 <= i < field_width(target) implies !p1.contains(#[trigger] target[i].0) && !reads.contains(target[i].0) by {
            assert(!p0.contains(target[i].0));
        }
    }
}

/// The held operands of the inverse chain read as their values.
pub proof fn lemma_inv_operand(base: spec_fn(u64) -> bool, input: Seq<QubitId>, target: Seq<QubitId>, regs: Seq<Seq<QubitId>>, vals: Seq<nat>, p0: Set<u64>, n: nat, i: int)
    requires
        inv_ctx(p0, input, target, regs),
        zero_on(base, p0),
        -1 <= i < n <= 6,
        vals.len() == 6,
        forall|j: int| 0 <= j < 6 ==> #[trigger] vals[j] < 32,
    ensures
        qubits_value(operand(input, regs, i), 5, set_regs(base, regs, vals, n)) == opval(qubits_value(input, 5, base), vals, i),
{
    let t = set_regs(base, regs, vals, n);
    if i < 0 {
        lemma_set_regs_keeps(base, regs, vals, n);
        assert forall|q: u64| qubit_set(input).contains(q) implies t(q) == base(q) by {
            assert(!p0.contains(q));
            if regs_set(regs, n).contains(q) {
                let (j, x) = choose|j: int, x: int| 0 <= j < n && 0 <= x < 5 && (#[trigger] regs[j][x]).0 == q;
                assert(regs_set(regs, 6).contains(q));
            }
        }
        lemma_qubits_value_frame(input, 5, t, base);
    } else {
        assert(regs_ok(regs, n));
        assert forall|a: int| 0 <= a < 5 implies !base(#[trigger] regs[i][a].0) by {
            assert(regs_set(regs, 6).contains(regs[i][a].0));
        }
        lemma_set_regs_value(base, regs, vals, n, i);
    }
}

/// One forward multiplication of the inverse chain writes register `k`.
pub proof fn lemma_inv_fwd(s: spec_fn(u64) -> bool, input: Seq<QubitId>, target: Seq<QubitId>, regs: Seq<Seq<QubitId>>, p0: Set<u64>, k: nat, a: int, b: int)
    requires
        inv_ctx(p0, input, target, regs),
        zero_on(s, p0),
        inv_step_ok(k as int, a, b),
    ensures
        ({
            let vals = inv_chain(qubits_value(input, 5, s));
            let cur = set_regs(s, regs, vals, k);
            &&& zero_on(cur, p0 - regs_set(regs, 6))
            &&& xor_value(cur, regs[k as int], mul_mod31_value(operand(input, regs, a), operand(input, regs, b), cur)) == set_regs(s, regs, vals, k + 1)
        }),
{
    let vals = inv_chain(qubits_value(input, 5, s));
    lemma_set_regs_keeps(s, regs, vals, k);
    assert forall|q: u64| !regs_set(regs, 6).contains(q) implies !regs_set(regs, k).contains(q) by {
        if regs_set(regs, k).contains(q) {
            let (j, x) = choose|j: int, x: int| 0 <= j < k && 0 <= x < 5 && (#[trigger] regs[j][x]).0 == q;
            assert(regs_set(regs, 6).contains(regs[j][x].0));
        }
    }
    lemma_inv_operand(s, input, target, regs, vals, p0, k, a);
    lemma_inv_operand(s, input, target, regs, vals, p0, k, b);
    lemma_reg_width(regs[k as int]);
}

/// One backward multiplication of the inverse chain clears register `k`.
pub proof fn lemma_inv_bwd(s: spec_fn(u64) -> bool, input: Seq<QubitId>, target: Seq<QubitId>, regs: Seq<Seq<QubitId>>, p0: Set<u64>, k: nat, a: int, b: int)
    requires
        inv_ctx(p0, input, target, regs),
        zero_on(s, p0),
        inv_step_ok(k as int, a, b),
    ensures
        ({
            let v = qubits_value(input, 5, s);
            let vals = inv_chain(v);
            let m = xor_value(s, target, inv31(v));
            let cur = set_regs(m, regs, vals, k + 1);
            &&& zero_on(cur, p0 - regs_set(regs, 6))
            &&& xor_value(cur, regs[k as int], mul_mod31_value(operand(input, regs, a), operand(input, regs, b), cur)) == set_regs(m, regs, vals, k)
        }),
{
    let v = qubits_value(input, 5, s);
    let vals = inv_chain(v);
    let m = xor_value(s, target, inv31(v));
    lemma_xor_bits_keeps(s, target, inv31(v), field_width(target), p0, qubit_set(input));
    assert(zero_on(m, p0)) by {
        assert forall|q: u64| p0.contains(q) implies !m(q) by {
            assert((p0 + qubit_set(input)).contains(q));
        }
    }
    assert forall|q: u64| qubit_set(input).contains(q) implies m(q) == s(q) by {
        assert((p0 + qubit_set(input)).contains(q));
    }
    lemma_qubits_value_frame(input, 5, m, s);
    lemma_set_regs_keeps(m, regs, vals, k + 1);
    assert forall|q: u64| !regs_set(regs, 6).contains(q) implies !regs_set(regs, k + 1).contains(q) by {
        if regs_set(regs, k + 1).contains(q) {
            let (j, x) = choose|j: int, x: int| 0 <= j < k + 1 && 0 <= x < 5 && (#[trigger] regs[j][x]).0 == q;
            assert(regs_set(regs, 6).contains(regs[j][x].0));
        }
    }
    lemma_inv_operand(m, input, target, regs, vals, p0, k + 1, a);
    lemma_inv_operand(m, input, target, regs, vals, p0, k + 1, b);
    lemma_reg_width(regs[k as int]);
    assert(regs_ok(regs, 6));
    assert(distinct_qubits(regs[k as int]));
    lemma_xor_bits_twice(set_regs(m, regs, vals, k), regs[k as int], vals[k as int], 5);
}

/// The multiplication into the targets XORs the inverse.
pub proof fn lemma_inv_target(s: spec_fn(u64) -> bool, input: Seq<QubitId>, target: Seq<QubitId>, regs: Seq<Seq<QubitId>>, p0: Set<u64>)
    requires
        inv_ctx(p0, input, target, regs),
        zero_on(s, p0),
    ensures
        ({
            let v = qubits_value(input, 5, s);
            let vals = inv_chain(v);
            let cur = set_regs(s, regs, vals, 6);
            &&& zero_on(cur, p0 - regs_set(regs, 6))
            &&& xor_value(cur, target, mul_mod31_value(regs[5], input, cur)) == set_regs(xor_value(s, target, inv31(v)), regs, vals, 6)
        }),
{
    let v = qubits_value(input, 5, s);
    let vals = inv_chain(v);
    lemma_set_regs_keeps(s, regs, vals, 6);
    lemma_inv_operand(s, input, target, regs, vals, p0, 6, 5);
    lemma_inv_operand(s, input, target, regs, vals, p0, 6, -1);
    let fw = field_width(target);
    assert forall|i: int| 0 <= i < fw implies not_in_regs(regs, 0, 6, (#[trigger] target[i]).0) by {
        assert(!p0.contains(target[i].0));
        assert forall|j: int, x: int| 0 <= j < 6 && 0 <= x < 5 implies (#[trigger] regs[j][x]).0 != target[i].0 by {
            assert(regs_set(regs, 6).contains(regs[j][x].0));
        }
    }
    lemma_set_regs_xor_bits(s, regs, vals, 6, target, inv31(v), fw);
}

impl<S: OpSink> Builder<S> {
    /// XORs the inverse of `input` in F_31 (zero for zero) into `target`, as
    /// `input^29` by an addition chain of multiplications into six held
    /// registers, which are uncomputed in reverse afterwards.
    #[verifier::rlimit(60)]
    #[verifier::spinoff_prover]
    pub(crate) fn xor_inv_mod31_into(&mut self, input: &[QubitId], target: &[QubitId])
        requires
            old(self).wf(),
            input@.len() == 0 || 5 <= input@.len(),
            !old(self).failed() ==> field_io_ok(old(self).pool(), qubit_set(input@), target@),
        ensures
            old(self).pure_step(final(self), qubit_set(input@) + qubit_set(target@)),
            !final(self).failed() ==> effect(
                added(old(self).emitted(), final(self).emitted()),
                old(self).pool(),
                |s: spec_fn(u64) -> bool| xor_value(s, target@, inv_mod31_value(input@, s)),
            ),
    {
        let ghost p0 = self.pool();
        let ghost allowed = qubit_set(input@) + qubit_set(target@);
        let ghost st0 = *self;
        let ghost mut regs: Seq<Seq<QubitId>> = Seq::empty();
        proof {
            self.lemma_step_refl();
            assert(regs_set(regs, 0) =~= Set::<u64>::empty());
            assert(p0 - regs_set(regs, 0) =~= p0);
        }
        let ghost pre_x2 = *self;
        let x2 = self.hold_qubits(WIDTH);
        proof {
            Self::lemma_step_trans(&st0, &pre_x2, self);
            if !self.failed() {
                assert forall|i: int| 0 <= i < 5 implies !regs_set(regs, 0).contains(#[trigger] x2@[i].0) by {
                    assert(pre_x2.pool().contains(x2@[i].0));
                }
                lemma_regs_push(regs, x2@, 0);
                assert forall|q: u64| qubit_set(x2@).contains(q) implies p0.contains(q) by {
                    let i = choose|i: int| 0 <= i < x2@.len() && (#[trigger] x2@[i]).0 == q;
                    assert(pre_x2.pool().contains(x2@[i].0));
                }
                assert(self.pool() =~= p0 - regs_set(regs.push(x2@), 1));
            }
            regs = regs.push(x2@);
        }
        let ghost pre_x4 = *self;
        let x4 = self.hold_qubits(WIDTH);
        proof {
            Self::lemma_step_trans(&st0, &pre_x4, self);
            if !self.failed() {
                assert forall|i: int| 0 <= i < 5 implies !regs_set(regs, 1).contains(#[trigger] x4@[i].0) by {
                    assert(pre_x4.pool().contains(x4@[i].0));
                }
                lemma_regs_push(regs, x4@, 1);
                assert forall|q: u64| qubit_set(x4@).contains(q) implies p0.contains(q) by {
                    let i = choose|i: int| 0 <= i < x4@.len() && (#[trigger] x4@[i]).0 == q;
                    assert(pre_x4.pool().contains(x4@[i].0));
                }
                assert(self.pool() =~= p0 - regs_set(regs.push(x4@), 2));
            }
            regs = regs.push(x4@);
        }
        let ghost pre_x8 = *self;
        let x8 = self.hold_qubits(WIDTH);
        proof {
            Self::lemma_step_trans(&st0, &pre_x8, self);
            if !self.failed() {
                assert forall|i: int| 0 <= i < 5 implies !regs_set(regs, 2).contains(#[trigger] x8@[i].0) by {
                    assert(pre_x8.pool().contains(x8@[i].0));
                }
                lemma_regs_push(regs, x8@, 2);
                assert forall|q: u64| qubit_set(x8@).contains(q) implies p0.contains(q) by {
                    let i = choose|i: int| 0 <= i < x8@.len() && (#[trigger] x8@[i]).0 == q;
                    assert(pre_x8.pool().contains(x8@[i].0));
                }
                assert(self.pool() =~= p0 - regs_set(regs.push(x8@), 3));
            }
            regs = regs.push(x8@);
        }
        let ghost pre_x16 = *self;
        let x16 = self.hold_qubits(WIDTH);
        proof {
            Self::lemma_step_trans(&st0, &pre_x16, self);
            if !self.failed() {
                assert forall|i: int| 0 <= i < 5 implies !regs_set(regs, 3).contains(#[trigger] x16@[i].0) by {
                    assert(pre_x16.pool().contains(x16@[i].0));
                }
                lemma_regs_push(regs, x16@, 3);
                assert forall|q: u64| qubit_set(x16@).contains(q) implies p0.contains(q) by {
                    let i = choose|i: int| 0 <= i < x16@.len() && (#[trigger] x16@[i]).0 == q;
                    assert(pre_x16.pool().contains(x16@[i].0));
                }
                assert(self.pool() =~= p0 - regs_set(regs.push(x16@), 4));
            }
            regs = regs.push(x16@);
        }
        let ghost pre_x24 = *self;
        let x24 = self.hold_qubits(WIDTH);
        proof {
            Self::lemma_step_trans(&st0, &pre_x24, self);
            if !self.failed() {
                assert forall|i: int| 0 <= i < 5 implies !regs_set(regs, 4).contains(#[trigger] x24@[i].0) by {
                    assert(pre_x24.pool().contains(x24@[i].0));
                }
                lemma_regs_push(regs, x24@, 4);
                assert forall|q: u64| qubit_set(x24@).contains(q) implies p0.contains(q) by {
                    let i = choose|i: int| 0 <= i < x24@.len() && (#[trigger] x24@[i]).0 == q;
                    assert(pre_x24.pool().contains(x24@[i].0));
                }
                assert(self.pool() =~= p0 - regs_set(regs.push(x24@), 5));
            }
            regs = regs.push(x24@);
        }
        let ghost pre_x28 = *self;
        let x28 = self.hold_qubits(WIDTH);
        proof {
            Self::lemma_step_trans(&st0, &pre_x28, self);
            if !self.failed() {
                assert forall|i: int| 0 <= i < 5 implies !regs_set(regs, 5).contains(#[trigger] x28@[i].0) by {
                    assert(pre_x28.pool().contains(x28@[i].0));
                }
                lemma_regs_push(regs, x28@, 5);
                assert forall|q: u64| qubit_set(x28@).contains(q) implies p0.contains(q) by {
                    let i = choose|i: int| 0 <= i < x28@.len() && (#[trigger] x28@[i]).0 == q;
                    assert(pre_x28.pool().contains(x28@[i].0));
                }
                assert(self.pool() =~= p0 - regs_set(regs.push(x28@), 6));
            }
            regs = regs.push(x28@);
        }
        let ghost st1 = *self;
        let ghost p1 = p0 - regs_set(regs, 6);
        proof {
            assert(regs =~= seq![x2@, x4@, x8@, x16@, x24@, x28@]);
            if !self.failed() {
                assert(inv_ctx(p0, input@, target@, regs));
                assert(self.pool() == p1);
            }
            self.lemma_step_refl();
            crate::shor_oracle::builder::lemma_added_none(self.emitted());
        }
        let ghost c0 = *self;
        proof {
            if !self.failed() {
                lemma_inv_io(p0, input@, target@, regs, 0, -1, -1);
                assert(operand(input@, regs, -1) == input@);
                assert(operand(input@, regs, -1) == input@);
            }
        }
        self.xor_mul_mod31_into(input, input, x2.as_slice());
        proof {
            Self::lemma_step_trans(&st1, &c0, self);
            if !self.failed() {
                assert((qubit_set(input@) + qubit_set(input@) + qubit_set(x2@) + p1).subset_of(allowed + p0));
                crate::shor_oracle::builder::lemma_ops_within_mono(added(c0.emitted(), self.emitted()), qubit_set(input@) + qubit_set(input@) + qubit_set(x2@) + p1, allowed + p0);
                crate::shor_oracle::builder::lemma_ops_within_concat(added(st1.emitted(), c0.emitted()), added(c0.emitted(), self.emitted()), allowed + p0);
                assert forall|s: spec_fn(u64) -> bool| zero_on(s, p0) implies #[trigger] run(
                    added(st1.emitted(), self.emitted()),
                    s,
                ) == set_regs(s, regs, inv_chain(qubits_value(input@, 5, s)), 1) by {
                    crate::shor_oracle::builder::lemma_run_steps(st1.emitted(), c0.emitted(), self.emitted(), s);
                    lemma_inv_fwd(s, input@, target@, regs, p0, 0, -1, -1);
                }
            }
        }
        let ghost c1 = *self;
        proof {
            if !self.failed() {
                lemma_inv_io(p0, input@, target@, regs, 1, 0, 0);
                assert(operand(input@, regs, 0) == x2@);
                assert(operand(input@, regs, 0) == x2@);
            }
        }
        self.xor_mul_mod31_into(x2.as_slice(), x2.as_slice(), x4.as_slice());
        proof {
            Self::lemma_step_trans(&st1, &c1, self);
            if !self.failed() {
                assert((qubit_set(x2@) + qubit_set(x2@) + qubit_set(x4@) + p1).subset_of(allowed + p0));
                crate::shor_oracle::builder::lemma_ops_within_mono(added(c1.emitted(), self.emitted()), qubit_set(x2@) + qubit_set(x2@) + qubit_set(x4@) + p1, allowed + p0);
                crate::shor_oracle::builder::lemma_ops_within_concat(added(st1.emitted(), c1.emitted()), added(c1.emitted(), self.emitted()), allowed + p0);
                assert forall|s: spec_fn(u64) -> bool| zero_on(s, p0) implies #[trigger] run(
                    added(st1.emitted(), self.emitted()),
                    s,
                ) == set_regs(s, regs, inv_chain(qubits_value(input@, 5, s)), 2) by {
                    crate::shor_oracle::builder::lemma_run_steps(st1.emitted(), c1.emitted(), self.emitted(), s);
                    lemma_inv_fwd(s, input@, target@, regs, p0, 1, 0, 0);
                }
            }
        }
        let ghost c2 = *self;
        proof {
            if !self.failed() {
                lemma_inv_io(p0, input@, target@, regs, 2, 1, 1);
                assert(operand(input@, regs, 1) == x4@);
                assert(operand(input@, regs, 1) == x4@);
            }
        }
        self.xor_mul_mod31_into(x4.as_slice(), x4.as_slice(), x8.as_slice());
        proof {
            Self::lemma_step_trans(&st1, &c2, self);
            if !self.failed() {
                assert((qubit_set(x4@) + qubit_set(x4@) + qubit_set(x8@) + p1).subset_of(allowed + p0));
                crate::shor_oracle::builder::lemma_ops_within_mono(added(c2.emitted(), self.emitted()), qubit_set(x4@) + qubit_set(x4@) + qubit_set(x8@) + p1, allowed + p0);
                crate::shor_oracle::builder::lemma_ops_within_concat(added(st1.emitted(), c2.emitted()), added(c2.emitted(), self.emitted()), allowed + p0);
                assert forall|s: spec_fn(u64) -> bool| zero_on(s, p0) implies #[trigger] run(
                    added(st1.emitted(), self.emitted()),
                    s,
                ) == set_regs(s, regs, inv_chain(qubits_value(input@, 5, s)), 3) by {
                    crate::shor_oracle::builder::lemma_run_steps(st1.emitted(), c2.emitted(), self.emitted(), s);
                    lemma_inv_fwd(s, input@, target@, regs, p0, 2, 1, 1);
                }
            }
        }
        let ghost c3 = *self;
        proof {
            if !self.failed() {
                lemma_inv_io(p0, input@, target@, regs, 3, 2, 2);
                assert(operand(input@, regs, 2) == x8@);
                assert(operand(input@, regs, 2) == x8@);
            }
        }
        self.xor_mul_mod31_into(x8.as_slice(), x8.as_slice(), x16.as_slice());
        proof {
            Self::lemma_step_trans(&st1, &c3, self);
            if !self.failed() {
                assert((qubit_set(x8@) + qubit_set(x8@) + qubit_set(x16@) + p1).subset_of(allowed + p0));
                crate::shor_oracle::builder::lemma_ops_within_mono(added(c3.emitted(), self.emitted()), qubit_set(x8@) + qubit_set(x8@) + qubit_set(x16@) + p1, allowed + p0);
                crate::shor_oracle::builder::lemma_ops_within_concat(added(st1.emitted(), c3.emitted()), added(c3.emitted(), self.emitted()), allowed + p0);
                assert forall|s: spec_fn(u64) -> bool| zero_on(s, p0) implies #[trigger] run(
                    added(st1.emitted(), self.emitted()),
                    s,
                ) == set_regs(s, regs, inv_chain(qubits_value(input@, 5, s)), 4) by {
                    crate::shor_oracle::builder::lemma_run_steps(st1.emitted(), c3.emitted(), self.emitted(), s);
                    lemma_inv_fwd(s, input@, target@, regs, p0, 3, 2, 2);
                }
            }
        }
        let ghost c4 = *self;
        proof {
            if !self.failed() {
                lemma_inv_io(p0, input@, target@, regs, 4, 3, 2);
                assert(operand(input@, regs, 3) == x16@);
                assert(operand(input@, regs, 2) == x8@);
            }
        }
        self.xor_mul_mod31_into(x16.as_slice(), x8.as_slice(), x24.as_slice());
        proof {
            Self::lemma_step_trans(&st1, &c4, self);
            if !self.failed() {
                assert((qubit_set(x16@) + qubit_set(x8@) + qubit_set(x24@) + p1).subset_of(allowed + p0));
                crate::shor_oracle::builder::lemma_ops_within_mono(added(c4.emitted(), self.emitted()), qubit_set(x16@) + qubit_set(x8@) + qubit_set(x24@) + p1, allowed + p0);
                crate::shor_oracle::builder::lemma_ops_within_concat(added(st1.emitted(), c4.emitted()), added(c4.emitted(), self.emitted()), allowed + p0);
                assert forall|s: spec_fn(u64) -> bool| zero_on(s, p0) implies #[trigger] run(
                    added(st1.emitted(), self.emitted()),
                    s,
                ) == set_regs(s, regs, inv_chain(qubits_value(input@, 5, s)), 5) by {
                    crate::shor_oracle::builder::lemma_run_steps(st1.emitted(), c4.emitted(), self.emitted(), s);
                    lemma_inv_fwd(s, input@, target@, regs, p0, 4, 3, 2);
                }
            }
        }
        let ghost c5 = *self;
        proof {
            if !self.failed() {
                lemma_inv_io(p0, input@, target@, regs, 5, 4, 1);
                assert(operand(input@, regs, 4) == x24@);
                assert(operand(input@, regs, 1) == x4@);
            }
        }
        self.xor_mul_mod31_into(x24.as_slice(), x4.as_slice(), x28.as_slice());
        proof {
            Self::lemma_step_trans(&st1, &c5, self);
            if !self.failed() {
                assert((qubit_set(x24@) + qubit_set(x4@) + qubit_set(x28@) + p1).subset_of(allowed + p0));
                crate::shor_oracle::builder::lemma_ops_within_mono(added(c5.emitted(), self.emitted()), qubit_set(x24@) + qubit_set(x4@) + qubit_set(x28@) + p1, allowed + p0);
                crate::shor_oracle::builder::lemma_ops_within_concat(added(st1.emitted(), c5.emitted()), added(c5.emitted(), self.emitted()), allowed + p0);
                assert forall|s: spec_fn(u64) -> bool| zero_on(s, p0) implies #[trigger] run(
                    added(st1.emitted(), self.emitted()),
                    s,
                ) == set_regs(s, regs, inv_chain(qubits_value(input@, 5, s)), 6) by {
                    crate::shor_oracle::builder::lemma_run_steps(st1.emitted(), c5.emitted(), self.emitted(), s);
                    lemma_inv_fwd(s, input@, target@, regs, p0, 5, 4, 1);
                }
            }
        }
        let ghost c6 = *self;
        proof {
            if !self.failed() {
                lemma_inv_io(p0, input@, target@, regs, 6, 5, -1);
                assert(operand(input@, regs, 5) == x28@);
                assert(operand(input@, regs, -1) == input@);
            }
        }
        self.xor_mul_mod31_into(x28.as_slice(), input, target);
        proof {
            Self::lemma_step_trans(&st1, &c6, self);
            if !self.failed() {
                assert((qubit_set(x28@) + qubit_set(input@) + qubit_set(target@) + p1).subset_of(allowed + p0));
                crate::shor_oracle::builder::lemma_ops_within_mono(added(c6.emitted(), self.emitted()), qubit_set(x28@) + qubit_set(input@) + qubit_set(target@) + p1, allowed + p0);
                crate::shor_oracle::builder::lemma_ops_within_concat(added(st1.emitted(), c6.emitted()), added(c6.emitted(), self.emitted()), allowed + p0);
                assert forall|s: spec_fn(u64) -> bool| zero_on(s, p0) implies #[trigger] run(
                    added(st1.emitted(), self.emitted()),
                    s,
                ) == set_regs(xor_value(s, target@, inv31(qubits_value(input@, 5, s))), regs, inv_chain(qubits_value(input@, 5, s)), 6) by {
                    crate::shor_oracle::builder::lemma_run_steps(st1.emitted(), c6.emitted(), self.emitted(), s);
                    lemma_inv_target(s, input@, target@, regs, p0);
                }
            }
        }
        let ghost c7 = *self;
        proof {
            if !self.failed() {
                lemma_inv_io(p0, input@, target@, regs, 5, 4, 1);
                assert(operand(input@, regs, 4) == x24@);
                assert(operand(input@, regs, 1) == x4@);
            }
        }
        self.xor_mul_mod31_into(x24.as_slice(), x4.as_slice(), x28.as_slice());
        proof {
            Self::lemma_step_trans(&st1, &c7, self);
            if !self.failed() {
                assert((qubit_set(x24@) + qubit_set(x4@) + qubit_set(x28@) + p1).subset_of(allowed + p0));
                crate::shor_oracle::builder::lemma_ops_within_mono(added(c7.emitted(), self.emitted()), qubit_set(x24@) + qubit_set(x4@) + qubit_set(x28@) + p1, allowed + p0);
                crate::shor_oracle::builder::lemma_ops_within_concat(added(st1.emitted(), c7.emitted()), added(c7.emitted(), self.emitted()), allowed + p0);
                assert forall|s: spec_fn(u64) -> bool| zero_on(s, p0) implies #[trigger] run(
                    added(st1.emitted(), self.emitted()),
                    s,
                ) == set_regs(xor_value(s, target@, inv31(qubits_value(input@, 5, s))), regs, inv_chain(qubits_value(input@, 5, s)), 5) by {
                    crate::shor_oracle::builder::lemma_run_steps(st1.emitted(), c7.emitted(), self.emitted(), s);
                    lemma_inv_bwd(s, input@, target@, regs, p0, 5, 4, 1);
                }
            }
        }
        let ghost c8 = *self;
        proof {
            if !self.failed() {
                lemma_inv_io(p0, input@, target@, regs, 4, 3, 2);
                assert(operand(input@, regs, 3) == x16@);
                assert(operand(input@, regs, 2) == x8@);
            }
        }
        self.xor_mul_mod31_into(x16.as_slice(), x8.as_slice(), x24.as_slice());
        proof {
            Self::lemma_step_trans(&st1, &c8, self);
            if !self.failed() {
                assert((qubit_set(x16@) + qubit_set(x8@) + qubit_set(x24@) + p1).subset_of(allowed + p0));
                crate::shor_oracle::builder::lemma_ops_within_mono(added(c8.emitted(), self.emitted()), qubit_set(x16@) + qubit_set(x8@) + qubit_set(x24@) + p1, allowed + p0);
                crate::shor_oracle::builder::lemma_ops_within_concat(added(st1.emitted(), c8.emitted()), added(c8.emitted(), self.emitted()), allowed + p0);
                assert forall|s: spec_fn(u64) -> bool| zero_on(s, p0) implies #[trigger] run(
                    added(st1.emitted(), self.emitted()),
                    s,
                ) == set_regs(xor_value(s, target@, inv31(qubits_value(input@, 5, s))), regs, inv_chain(qubits_value(input@, 5, s)), 4) by {
                    crate::shor_oracle::builder::lemma_run_steps(st1.emitted(), c8.emitted(), self.emitted(), s);
                    lemma_inv_bwd(s, input@, target@, regs, p0, 4, 3, 2);
                }
            }
        }
        let ghost c9 = *self;
        proof {
            if !self.failed() {
                lemma_inv_io(p0, input@, target@, regs, 3, 2, 2);
                assert(operand(input@, regs, 2) == x8@);
                assert(operand(input@, regs, 2) == x8@);
            }
        }
        self.xor_mul_mod31_into(x8.as_slice(), x8.as_slice(), x16.as_slice());
        proof {
            Self::lemma_step_trans(&st1, &c9, self);
            if !self.failed() {
                assert((qubit_set(x8@) + qubit_set(x8@) + qubit_set(x16@) + p1).subset_of(allowed + p0));
                crate::shor_oracle::builder::lemma_ops_within_mono(added(c9.emitted(), self.emitted()), qubit_set(x8@) + qubit_set(x8@) + qubit_set(x16@) + p1, allowed + p0);
                crate::shor_oracle::builder::lemma_ops_within_concat(added(st1.emitted(), c9.emitted()), added(c9.emitted(), self.emitted()), allowed + p0);
                assert forall|s: spec_fn(u64) -> bool| zero_on(s, p0) implies #[trigger] run(
                    added(st1.emitted(), self.emitted()),
                    s,
                ) == set_regs(xor_value(s, target@, inv31(qubits_value(input@, 5, s))), regs, inv_chain(qubits_value(input@, 5, s)), 3) by {
                    crate::shor_oracle::builder::lemma_run_steps(st1.emitted(), c9.emitted(), self.emitted(), s);
                    lemma_inv_bwd(s, input@, target@, regs, p0, 3, 2, 2);
                }
            }
        }
        let ghost c10 = *self;
        proof {
            if !self.failed() {
                lemma_inv_io(p0, input@, target@, regs, 2, 1, 1);
                assert(operand(input@, regs, 1) == x4@);
                assert(operand(input@, regs, 1) == x4@);
            }
        }
        self.xor_mul_mod31_into(x4.as_slice(), x4.as_slice(), x8.as_slice());
        proof {
            Self::lemma_step_trans(&st1, &c10, self);
            if !self.failed() {
                assert((qubit_set(x4@) + qubit_set(x4@) + qubit_set(x8@) + p1).subset_of(allowed + p0));
                crate::shor_oracle::builder::lemma_ops_within_mono(added(c10.emitted(), self.emitted()), qubit_set(x4@) + qubit_set(x4@) + qubit_set(x8@) + p1, allowed + p0);
                crate::shor_oracle::builder::lemma_ops_within_concat(added(st1.emitted(), c10.emitted()), added(c10.emitted(), self.emitted()), allowed + p0);
                assert forall|s: spec_fn(u64) -> bool| zero_on(s, p0) implies #[trigger] run(
                    added(st1.emitted(), self.emitted()),
                    s,
                ) == set_regs(xor_value(s, target@, inv31(qubits_value(input@, 5, s))), regs, inv_chain(qubits_value(input@, 5, s)), 2) by {
                    crate::shor_oracle::builder::lemma_run_steps(st1.emitted(), c10.emitted(), self.emitted(), s);
                    lemma_inv_bwd(s, input@, target@, regs, p0, 2, 1, 1);
                }
            }
        }
        let ghost c11 = *self;
        proof {
            if !self.failed() {
                lemma_inv_io(p0, input@, target@, regs, 1, 0, 0);
                assert(operand(input@, regs, 0) == x2@);
                assert(operand(input@, regs, 0) == x2@);
            }
        }
        self.xor_mul_mod31_into(x2.as_slice(), x2.as_slice(), x4.as_slice());
        proof {
            Self::lemma_step_trans(&st1, &c11, self);
            if !self.failed() {
                assert((qubit_set(x2@) + qubit_set(x2@) + qubit_set(x4@) + p1).subset_of(allowed + p0));
                crate::shor_oracle::builder::lemma_ops_within_mono(added(c11.emitted(), self.emitted()), qubit_set(x2@) + qubit_set(x2@) + qubit_set(x4@) + p1, allowed + p0);
                crate::shor_oracle::builder::lemma_ops_within_concat(added(st1.emitted(), c11.emitted()), added(c11.emitted(), self.emitted()), allowed + p0);
                assert forall|s: spec_fn(u64) -> bool| zero_on(s, p0) implies #[trigger] run(
                    added(st1.emitted(), self.emitted()),
                    s,
                ) == set_regs(xor_value(s, target@, inv31(qubits_value(input@, 5, s))), regs, inv_chain(qubits_value(input@, 5, s)), 1) by {
                    crate::shor_oracle::builder::lemma_run_steps(st1.emitted(), c11.emitted(), self.emitted(), s);
                    lemma_inv_bwd(s, input@, target@, regs, p0, 1, 0, 0);
                }
            }
        }
        let ghost c12 = *self;
        proof {
            if !self.failed() {
                lemma_inv_io(p0, input@, target@, regs, 0, -1, -1);
                assert(operand(input@, regs, -1) == input@);
                assert(operand(input@, regs, -1) == input@);
            }
        }
        self.xor_mul_mod31_into(input, input, x2.as_slice());
        proof {
            Self::lemma_step_trans(&st1, &c12, self);
            if !self.failed() {
                assert((qubit_set(input@) + qubit_set(input@) + qubit_set(x2@) + p1).subset_of(allowed + p0));
                crate::shor_oracle::builder::lemma_ops_within_mono(added(c12.emitted(), self.emitted()), qubit_set(input@) + qubit_set(input@) + qubit_set(x2@) + p1, allowed + p0);
                crate::shor_oracle::builder::lemma_ops_within_concat(added(st1.emitted(), c12.emitted()), added(c12.emitted(), self.emitted()), allowed + p0);
                assert forall|s: spec_fn(u64) -> bool| zero_on(s, p0) implies #[trigger] run(
                    added(st1.emitted(), self.emitted()),
                    s,
                ) == set_regs(xor_value(s, target@, inv31(qubits_value(input@, 5, s))), regs, inv_chain(qubits_value(input@, 5, s)), 0) by {
                    crate::shor_oracle::builder::lemma_run_steps(st1.emitted(), c12.emitted(), self.emitted(), s);
                    lemma_inv_bwd(s, input@, target@, regs, p0, 0, -1, -1);
                }
            }
        }
        let ghost st2 = *self;
        let ghost r0 = *self;
        proof {
            if !self.failed() {
                assert forall|i: int| 0 <= i < x28@.len() implies !r0.pool().contains(#[trigger] x28@[i].0) by {
                    assert(regs_set(regs, 6).contains(x28@[i].0)) by {
                        lemma_reg_in_set(regs, 6, 5);
                        assert(qubit_set(x28@).contains(x28@[i].0));
                    }
                }
            }
        }
        self.release_hold_qubits(x28);
        proof {
            Self::lemma_step_trans(&st2, &r0, self);
        }
        let ghost r1 = *self;
        proof {
            if !self.failed() {
                assert forall|i: int| 0 <= i < x24@.len() implies !r1.pool().contains(#[trigger] x24@[i].0) by {
                    assert(regs_set(regs, 6).contains(x24@[i].0)) by {
                        lemma_reg_in_set(regs, 6, 4);
                        assert(qubit_set(x24@).contains(x24@[i].0));
                    }
                }
            }
        }
        self.release_hold_qubits(x24);
        proof {
            Self::lemma_step_trans(&st2, &r1, self);
        }
        let ghost r2 = *self;
        proof {
            if !self.failed() {
                assert forall|i: int| 0 <= i < x16@.len() implies !r2.pool().contains(#[trigger] x16@[i].0) by {
                    assert(regs_set(regs, 6).contains(x16@[i].0)) by {
                        lemma_reg_in_set(regs, 6, 3);
                        assert(qubit_set(x16@).contains(x16@[i].0));
                    }
                }
            }
        }
        self.release_hold_qubits(x16);
        proof {
            Self::lemma_step_trans(&st2, &r2, self);
        }
        let ghost r3 = *self;
        proof {
            if !self.failed() {
                assert forall|i: int| 0 <= i < x8@.len() implies !r3.pool().contains(#[trigger] x8@[i].0) by {
                    assert(regs_set(regs, 6).contains(x8@[i].0)) by {
                        lemma_reg_in_set(regs, 6, 2);
                        assert(qubit_set(x8@).contains(x8@[i].0));
                    }
                }
            }
        }
        self.release_hold_qubits(x8);
        proof {
            Self::lemma_step_trans(&st2, &r3, self);
        }
        let ghost r4 = *self;
        proof {
            if !self.failed() {
                assert forall|i: int| 0 <= i < x4@.len() implies !r4.pool().contains(#[trigger] x4@[i].0) by {
                    assert(regs_set(regs, 6).contains(x4@[i].0)) by {
                        lemma_reg_in_set(regs, 6, 1);
                        assert(qubit_set(x4@).contains(x4@[i].0));
                    }
                }
            }
        }
        self.release_hold_qubits(x4);
        proof {
            Self::lemma_step_trans(&st2, &r4, self);
        }
        let ghost r5 = *self;
        proof {
            if !self.failed() {
                assert forall|i: int| 0 <= i < x2@.len() implies !r5.pool().contains(#[trigger] x2@[i].0) by {
                    assert(regs_set(regs, 6).contains(x2@[i].0)) by {
                        lemma_reg_in_set(regs, 6, 0);
                        assert(qubit_set(x2@).contains(x2@[i].0));
                    }
                }
            }
        }
        self.release_hold_qubits(x2);
        proof {
            Self::lemma_step_trans(&st2, &r5, self);
        }
        proof {
            Self::lemma_step_trans(&st1, &st2, self);
            Self::lemma_step_trans(&st0, &st1, self);
            assert(added(st0.emitted(), self.emitted()) == added(st1.emitted(), st2.emitted()));
            if !self.failed() {
                assert(regs_set(regs, 6) =~= qubit_set(x2@) + qubit_set(x4@) + qubit_set(x8@) + qubit_set(x16@) + qubit_set(x24@) + qubit_set(x28@)) by {
                    assert forall|q: u64| #[trigger] regs_set(regs, 6).contains(q) == (qubit_set(x2@) + qubit_set(x4@) + qubit_set(x8@) + qubit_set(x16@) + qubit_set(x24@) + qubit_set(x28@)).contains(q) by {
                        if regs_set(regs, 6).contains(q) {
                            let (j, x) = choose|j: int, x: int| 0 <= j < 6 && 0 <= x < 5 && (#[trigger] regs[j][x]).0 == q;
                            assert(qubit_set(regs[j]).contains(q));
                        }
                        lemma_reg_in_set(regs, 6, 0);
                        lemma_reg_in_set(regs, 6, 1);
                        lemma_reg_in_set(regs, 6, 2);
                        lemma_reg_in_set(regs, 6, 3);
                        lemma_reg_in_set(regs, 6, 4);
                        lemma_reg_in_set(regs, 6, 5);
                    }
                }
                assert(self.pool() =~= p0);
            }
        }
    }
}

/// A two-operand field operation.
#[derive(Clone, Copy, Debug)]
pub enum BinaryFieldOperation {
    Add,
    Sub,
    Mul,
}

/// A one-operand field operation.
#[derive(Clone, Copy, Debug)]
pub enum UnaryFieldOperation {
    MulConst(u16),
    Inv,
}

/// The F_31 result of a two-operand operation on five-bit values, where the
/// all-ones encoding reads as zero.
pub open spec fn binary_field_value(op: BinaryFieldOperation, l: nat, r: nat) -> nat {
    match op {
        BinaryFieldOperation::Add => (l + r) % 31,
        BinaryFieldOperation::Sub => ((l + 31 - r) % 31) as nat,
        BinaryFieldOperation::Mul => (l * r) % 31,
    }
}

/// The F_31 result of a one-operand operation on a five-bit value.
pub open spec fn unary_field_value(op: UnaryFieldOperation, v: nat) -> nat {
    match op {
        UnaryFieldOperation::MulConst(f) => (v * ((f as nat) % 31)) % 31,
        UnaryFieldOperation::Inv => inv31(v),
    }
}

/// Operand lengths a binary kernel accepts: a multiplication by a non-empty
/// multiplier reads five multiplicand bits.
pub open spec fn binary_shape_ok(op: BinaryFieldOperation, left: Seq<QubitId>, right: Seq<QubitId>) -> bool {
    (op matches BinaryFieldOperation::Mul) && right.len() > 0 ==> 5 <= left.len()
}

/// Operand lengths a unary kernel accepts: the inverse reads five bits of a
/// non-empty input.
pub open spec fn unary_shape_ok(op: UnaryFieldOperation, input: Seq<QubitId>) -> bool {
    (op matches UnaryFieldOperation::Inv) ==> (input.len() == 0 || 5 <= input.len())
}

/// The signals of qubits read exactly those qubits.
pub proof fn lemma_qubit_sigs_support(qs: Seq<QubitId>, sigs: Seq<Signal>)
    requires
        sigs.len() == qs.len(),
        forall|i: int| 0 <= i < qs.len() ==> #[trigger] sigs[i] == Signal(SignalKind::Qubit(qs[i])),
    ensures
        supports(sigs) == qubit_set(qs),
        forall|s: spec_fn(u64) -> bool| #[trigger] value_of(sigs, 5, s) == qubits_value(qs, 5, s),
{
    assert forall|q: u64| #[trigger] supports(sigs).contains(q) == qubit_set(qs).contains(q) by {
        if supports(sigs).contains(q) {
            let i = choose|i: int| 0 <= i < sigs.len() && #[trigger] super::signal::support(sigs[i]).contains(q);
            assert(sigs[i] == Signal(SignalKind::Qubit(qs[i])));
        }
        if qubit_set(qs).contains(q) {
            let i = choose|i: int| 0 <= i < qs.len() && (#[trigger] qs[i]).0 == q;
            assert(sigs[i] == Signal(SignalKind::Qubit(qs[i])));
            assert(super::signal::support(sigs[i]).contains(q));
        }
    }
    assert(supports(sigs) =~= qubit_set(qs));
    assert forall|s: spec_fn(u64) -> bool| #[trigger] value_of(sigs, 5, s) == qubits_value(qs, 5, s) by {
        crate::shor_oracle::signal::lemma_qubit_signals_value(sigs, qs, 5, s);
    }
}

/// Reading fewer qubits keeps a kernel's targets writable.
pub proof fn lemma_field_io_mono(pool: Set<u64>, x: Set<u64>, y: Set<u64>, targets: Seq<QubitId>)
    requires
        field_io_ok(pool, x, targets),
        y.subset_of(x),
    ensures
        field_io_ok(pool, y, targets),
{
}

/// XORing the values of signals that spell `v` XORs `v`.
pub proof fn lemma_xor_each_bits(s: spec_fn(u64) -> bool, targets: Seq<QubitId>, sigs: Seq<Signal>, v: nat, n: nat)
    requires
        forall|i: int| 0 <= i < n ==> eval(#[trigger] sigs[i], s) == nat_bit(v, i as nat),
    ensures
        crate::shor_oracle::builder::xor_each(s, targets, sigs, n) == xor_bits_of(s, targets, v, n),
    decreases n,
{
    if n > 0 {
        lemma_xor_each_bits(s, targets, sigs, v, (n - 1) as nat);
        assert(eval(sigs[n - 1], s) == nat_bit(v, (n - 1) as nat));
    }
}

impl<S: OpSink> Builder<S> {
    /// XORs `left op right` in F_31 into `target`.
    pub fn xor_field_binary_into(&mut self, operation: BinaryFieldOperation, left: &[QubitId], right: &[QubitId], target: &[QubitId])
        requires
            old(self).wf(),
            binary_shape_ok(operation, left@, right@),
            !old(self).failed() ==> field_io_ok(old(self).pool(), qubit_set(left@) + qubit_set(right@), target@),
        ensures
            old(self).pure_step(final(self), qubit_set(left@) + qubit_set(right@) + qubit_set(target@)),
            !final(self).failed() ==> effect(
                added(old(self).emitted(), final(self).emitted()),
                old(self).pool(),
                |s: spec_fn(u64) -> bool|
                    xor_value(
                        s,
                        target@,
                        binary_field_value(operation, qubits_value(left@, 5, s), qubits_value(right@, 5, s)),
                    ),
            ),
    {
        let ghost allowed = qubit_set(left@) + qubit_set(right@) + qubit_set(target@);
        let ghost p0 = self.pool();
        match operation {
            BinaryFieldOperation::Add => {
                let ls = qubit_signals(left);
                let rs = qubit_signals(right);
                proof {
                    lemma_qubit_sigs_support(left@, ls@);
                    lemma_qubit_sigs_support(right@, rs@);
                }
                self.xor_add_mod31_signals_into(ls.as_slice(), rs.as_slice(), target);
                proof {
                    if !self.failed() {
                        crate::shor_oracle::builder::lemma_effect_conseq(
                            added(old(self).emitted(), self.emitted()),
                            p0,
                            |s: spec_fn(u64) -> bool| xor_value(s, target@, add_mod31_value(ls@, rs@, s)),
                            |s: spec_fn(u64) -> bool|
                                xor_value(
                                    s,
                                    target@,
                                    binary_field_value(operation, qubits_value(left@, 5, s), qubits_value(right@, 5, s)),
                                ),
                        );
                    }
                }
            },
            BinaryFieldOperation::Sub => {
                let ls = qubit_signals(left);
                let rs = qubit_signals(right);
                let right_complement = self.complement_field_bits(rs.as_slice());
                proof {
                    lemma_qubit_sigs_support(left@, ls@);
                    lemma_qubit_sigs_support(right@, rs@);
                    crate::shor_oracle::signal::lemma_supports(right_complement@);
                    assert(supports(right_complement@).subset_of(qubit_set(right@)));
                    if !self.failed() {
                        lemma_field_io_mono(p0, qubit_set(left@) + qubit_set(right@), supports(ls@) + supports(right_complement@), target@);
                    }
                }
                self.xor_add_mod31_signals_into(ls.as_slice(), right_complement.as_slice(), target);
                proof {
                    Self::lemma_pure_step_widen(old(self), self, supports(ls@) + supports(right_complement@) + qubit_set(target@), allowed);
                    if !self.failed() {
                        assert forall|s: spec_fn(u64) -> bool| zero_on(s, p0) implies #[trigger] run(
                            added(old(self).emitted(), self.emitted()),
                            s,
                        ) == xor_value(
                            s,
                            target@,
                            binary_field_value(operation, qubits_value(left@, 5, s), qubits_value(right@, 5, s)),
                        ) by {
                            assert(value_of(right_complement@, 5, s) == 31 - value_of(rs@, 5, s));
                        }
                    }
                }
            },
            BinaryFieldOperation::Mul => {
                self.xor_mul_mod31_into(left, right, target);
            },
        }
    }

    /// XORs `op input` in F_31 into `target`.
    pub fn xor_field_unary_into(&mut self, operation: UnaryFieldOperation, input: &[QubitId], target: &[QubitId])
        requires
            old(self).wf(),
            unary_shape_ok(operation, input@),
            !old(self).failed() ==> field_io_ok(old(self).pool(), qubit_set(input@), target@),
        ensures
            old(self).pure_step(final(self), qubit_set(input@) + qubit_set(target@)),
            !final(self).failed() ==> effect(
                added(old(self).emitted(), final(self).emitted()),
                old(self).pool(),
                |s: spec_fn(u64) -> bool| xor_value(s, target@, unary_field_value(operation, qubits_value(input@, 5, s))),
            ),
    {
        let ghost p0 = self.pool();
        match operation {
            UnaryFieldOperation::MulConst(factor) => {
                let input_sigs = qubit_signals(input);
                let result = self.mul_const_mod31_bits(input_sigs.as_slice(), factor);
                let ghost n = field_width(target@);
                proof {
                    lemma_qubit_sigs_support(input@, input_sigs@);
                    crate::shor_oracle::signal::lemma_supports(result@);
                    if !self.failed() {
                        assert(target@.subrange(0, n as int) =~= target@.subrange(0, vstd::math::min(result@.len() as int, target@.len() as int)));
                        assert forall|i: int, j: int| 0 <= i < n && 0 <= j < n implies !super::signal::support(#[trigger] result@[i]).contains(#[trigger] target@[j].0) by {
                            assert(super::signal::support(result@[i]).subset_of(qubit_set(input@)));
                        }
                        assert forall|i: int| 0 <= i < n implies super::signal::support(#[trigger] result@[i]).disjoint(p0) by {
                            assert(super::signal::support(result@[i]).subset_of(qubit_set(input@)));
                        }
                    }
                }
                self.copy_bits_ops(result.as_slice(), target);
                proof {
                    assert(supports(result@).subset_of(qubit_set(input@)));
                    Self::lemma_pure_step_widen(old(self), self, supports(result@) + qubit_set(target@), qubit_set(input@) + qubit_set(target@));
                    if !self.failed() {
                        assert forall|s: spec_fn(u64) -> bool| zero_on(s, p0) implies #[trigger] run(
                            added(old(self).emitted(), self.emitted()),
                            s,
                        ) == xor_value(s, target@, unary_field_value(operation, qubits_value(input@, 5, s))) by {
                            let v = unary_field_value(operation, qubits_value(input@, 5, s));
                            assert(value_of(result@, 5, s) == v);
                            assert forall|i: int| 0 <= i < n implies eval(#[trigger] result@[i], s) == nat_bit(v, i as nat) by {
                                lemma_bits_of_value5(result@, s, i);
                                assert(bit_at_spec(result@, i) == result@[i]);
                            }
                            lemma_xor_each_bits(s, target@, result@, v, n);
                        }
                    }
                }
            },
            UnaryFieldOperation::Inv => {
                self.xor_inv_mod31_into(input, target);
            },
        }
    }
}

/// The qubits of a field operand handed to a kernel.
#[derive(Clone, Copy)]
pub struct FieldInput<'a> {
    pub(crate) bits: &'a [QubitId],
}

/// The qubits a kernel XORs its result into.
#[derive(Clone, Copy)]
pub struct FieldOutput<'a> {
    pub(crate) bits: &'a [QubitId],
}

/// One target qubit of a kernel's output.
#[derive(Clone, Copy)]
pub struct FieldTargetBit {
    pub(crate) qubit: QubitId,
}

impl<S: OpSink> Builder<S> {
    /// The signals reading an operand's qubits.
    pub(crate) fn input_bits(&self, input: FieldInput<'_>) -> (sigs: Vec<Signal>)
        ensures
            sigs@.len() == input.bits@.len(),
            forall|i: int| 0 <= i < input.bits@.len() ==> #[trigger] sigs@[i] == Signal(SignalKind::Qubit(input.bits@[i])),
    {
        qubit_signals(input.bits)
    }

    /// Target bit `bit` of an output, if it has one.
    pub(crate) fn target_bit(&self, output: FieldOutput<'_>, bit: usize) -> (t: Option<FieldTargetBit>)
        ensures
            t == (if bit < output.bits@.len() {
                Some(FieldTargetBit { qubit: output.bits@[bit as int] })
            } else {
                None
            }),
    {
        if bit < output.bits.len() {
            Some(FieldTargetBit { qubit: output.bits[bit] })
        } else {
            None
        }
    }

    /// XORs a signal into a target bit.
    pub(crate) fn xor_signal_into_bit(&mut self, signal: &Signal, target: FieldTargetBit)
        requires
            old(self).wf(),
            !old(self).failed() ==> crate::shor_oracle::builder::xor_target_ok(old(self).pool(), *signal, target.qubit.0),
        ensures
            old(self).pure_step(final(self), super::signal::support(*signal).insert(target.qubit.0)),
            !final(self).failed() ==> effect(
                added(old(self).emitted(), final(self).emitted()),
                old(self).pool(),
                |s: spec_fn(u64) -> bool| flip(s, target.qubit.0, eval(*signal, s)),
            ),
    {
        self.xor_signal_into(signal, target.qubit);
    }

    /// XORs `left op right` into the output.
    pub(crate) fn xor_binary_mod_into(&mut self, operation: BinaryFieldOperation, left: FieldInput<'_>, right: FieldInput<'_>, target: FieldOutput<'_>)
        requires
            old(self).wf(),
            binary_shape_ok(operation, left.bits@, right.bits@),
            !old(self).failed() ==> field_io_ok(old(self).pool(), qubit_set(left.bits@) + qubit_set(right.bits@), target.bits@),
        ensures
            old(self).pure_step(final(self), qubit_set(left.bits@) + qubit_set(right.bits@) + qubit_set(target.bits@)),
            !final(self).failed() ==> effect(
                added(old(self).emitted(), final(self).emitted()),
                old(self).pool(),
                |s: spec_fn(u64) -> bool|
                    xor_value(
                        s,
                        target.bits@,
                        binary_field_value(operation, qubits_value(left.bits@, 5, s), qubits_value(right.bits@, 5, s)),
                    ),
            ),
    {
        self.xor_field_binary_into(operation, left.bits, right.bits, target.bits);
    }

    /// XORs `op input` into the output.
    pub(crate) fn xor_unary_mod_into(&mut self, operation: UnaryFieldOperation, input: FieldInput<'_>, target: FieldOutput<'_>)
        requires
            old(self).wf(),
            unary_shape_ok(operation, input.bits@),
            !old(self).failed() ==> field_io_ok(old(self).pool(), qubit_set(input.bits@), target.bits@),
        ensures
            old(self).pure_step(final(self), qubit_set(input.bits@) + qubit_set(target.bits@)),
            !final(self).failed() ==> effect(
                added(old(self).emitted(), final(self).emitted()),
                old(self).pool(),
                |s: spec_fn(u64) -> bool| xor_value(s, target.bits@, unary_field_value(operation, qubits_value(input.bits@, 5, s))),
            ),
    {
        self.xor_field_unary_into(operation, input.bits, target.bits);
    }
}

impl<S: OpSink> Builder<S> {
    /// XORs `left + right` in F_31 into `target`.
    pub fn xor_add_mod_into(&mut self, left: &[QubitId], right: &[QubitId], target: &[QubitId])
        requires
            old(self).wf(),
            !old(self).failed() ==> field_io_ok(old(self).pool(), qubit_set(left@) + qubit_set(right@), target@),
        ensures
            old(self).pure_step(final(self), qubit_set(left@) + qubit_set(right@) + qubit_set(target@)),
            !final(self).failed() ==> effect(
                added(old(self).emitted(), final(self).emitted()),
                old(self).pool(),
                |s: spec_fn(u64) -> bool|
                    xor_value(s, target@, binary_field_value(BinaryFieldOperation::Add, qubits_value(left@, 5, s), qubits_value(right@, 5, s))),
            ),
    {
        super::field_arithmetic::xor_add_mod_into(
            self,
            FieldInput { bits: left },
            FieldInput { bits: right },
            FieldOutput { bits: target },
        );
    }

    /// XORs `left - right` in F_31 into `target`.
    pub fn xor_sub_mod_into(&mut self, left: &[QubitId], right: &[QubitId], target: &[QubitId])
        requires
            old(self).wf(),
            !old(self).failed() ==> field_io_ok(old(self).pool(), qubit_set(left@) + qubit_set(right@), target@),
        ensures
            old(self).pure_step(final(self), qubit_set(left@) + qubit_set(right@) + qubit_set(target@)),
            !final(self).failed() ==> effect(
                added(old(self).emitted(), final(self).emitted()),
                old(self).pool(),
                |s: spec_fn(u64) -> bool|
                    xor_value(s, target@, binary_field_value(BinaryFieldOperation::Sub, qubits_value(left@, 5, s), qubits_value(right@, 5, s))),
            ),
    {
        super::field_arithmetic::xor_sub_mod_into(
            self,
            FieldInput { bits: left },
            FieldInput { bits: right },
            FieldOutput { bits: target },
        );
    }

    /// XORs `left * right` in F_31 into `target`.
    pub fn xor_mul_mod_into(&mut self, left: &[QubitId], right: &[QubitId], target: &[QubitId])
        requires
            old(self).wf(),
            right@.len() > 0 ==> 5 <= left@.len(),
            !old(self).failed() ==> field_io_ok(old(self).pool(), qubit_set(left@) + qubit_set(right@), target@),
        ensures
            old(self).pure_step(final(self), qubit_set(left@) + qubit_set(right@) + qubit_set(target@)),
            !final(self).failed() ==> effect(
                added(old(self).emitted(), final(self).emitted()),
                old(self).pool(),
                |s: spec_fn(u64) -> bool|
                    xor_value(s, target@, binary_field_value(BinaryFieldOperation::Mul, qubits_value(left@, 5, s), qubits_value(right@, 5, s))),
            ),
    {
        super::field_arithmetic::xor_mul_mod_into(
            self,
            FieldInput { bits: left },
            FieldInput { bits: right },
            FieldOutput { bits: target },
        );
    }

    /// XORs `input * factor` in F_31 into `target`.
    pub fn xor_mul_const_mod_into(&mut self, input: &[QubitId], factor: u16, target: &[QubitId])
        requires
            old(self).wf(),
            !old(self).failed() ==> field_io_ok(old(self).pool(), qubit_set(input@), target@),
        ensures
            old(self).pure_step(final(self), qubit_set(input@) + qubit_set(target@)),
            !final(self).failed() ==> effect(
                added(old(self).emitted(), final(self).emitted()),
                old(self).pool(),
                |s: spec_fn(u64) -> bool|
                    xor_value(s, target@, unary_field_value(UnaryFieldOperation::MulConst(factor), qubits_value(input@, 5, s))),
            ),
    {
        super::field_arithmetic::xor_mul_const_mod_into(self, FieldInput { bits: input }, factor, FieldOutput { bits: target });
    }

    /// XORs the inverse of `input` in F_31 (zero for zero) into `target`.
    pub fn xor_inv_mod_into(&mut self, input: &[QubitId], target: &[QubitId])
        requires
            old(self).wf(),
            input@.len() == 0 || 5 <= input@.len(),
            !old(self).failed() ==> field_io_ok(old(self).pool(), qubit_set(input@), target@),
        ensures
            old(self).pure_step(final(self), qubit_set(input@) + qubit_set(target@)),
            !final(self).failed() ==> effect(
                added(old(self).emitted(), final(self).emitted()),
                old(self).pool(),
                |s: spec_fn(u64) -> bool|
                    xor_value(s, target@, unary_field_value(UnaryFieldOperation::Inv, qubits_value(input@, 5, s))),
            ),
    {
        super::field_arithmetic::xor_inv_mod_into(self, FieldInput { bits: input }, FieldOutput { bits: target });
    }
}

} // verus!
