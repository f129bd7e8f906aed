//! Boolean signals over qubit wires: constants, wires, and shared expression
//! trees, with their value in a wire assignment and the wires they read.
use crate::circuit::QubitId;
use std::rc::Rc;
use vstd::arithmetic::power2::pow2;
use vstd::prelude::*;

verus! {

/// A boolean signal: a constant, the value of a qubit, or an expression.
#[derive(Debug)]
pub struct Signal(pub SignalKind);

/// The shape of a signal.
#[derive(Debug)]
pub enum SignalKind {
    Const(bool),
    Qubit(QubitId),
    Expr(Rc<Expr>),
}

/// A boolean expression over signals; subexpressions are shared.
#[derive(Debug)]
pub enum Expr {
    Not(Signal),
    Xor(Signal, Signal),
    And(Signal, Signal),
}

/// The value of a signal when each qubit `q` holds `s(q)`.
pub open spec fn eval(sig: Signal, s: spec_fn(u64) -> bool) -> bool
    decreases sig,
{
    match sig.0 {
        SignalKind::Const(b) => b,
        SignalKind::Qubit(q) => s(q.0),
        SignalKind::Expr(e) => match *e {
            Expr::Not(a) => !eval(a, s),
            Expr::Xor(a, b) => eval(a, s) != eval(b, s),
            Expr::And(a, b) => eval(a, s) && eval(b, s),
        },
    }
}

/// The qubits a signal reads.
pub open spec fn support(sig: Signal) -> Set<u64>
    decreases sig,
{
    match sig.0 {
        SignalKind::Const(_) => Set::empty(),
        SignalKind::Qubit(q) => set![q.0],
        SignalKind::Expr(e) => match *e {
            Expr::Not(a) => support(a),
            Expr::Xor(a, b) => support(a) + support(b),
            Expr::And(a, b) => support(a) + support(b),
        },
    }
}

/// The height of a signal's expression tree.
pub open spec fn height(sig: Signal) -> nat
    decreases sig,
{
    match sig.0 {
        SignalKind::Const(_) => 0,
        SignalKind::Qubit(_) => 0,
        SignalKind::Expr(e) => match *e {
            Expr::Not(a) => height(a) + 1,
            Expr::Xor(a, b) => vstd::math::max(height(a) as int, height(b) as int) as nat + 1,
            Expr::And(a, b) => vstd::math::max(height(a) as int, height(b) as int) as nat + 1,
        },
    }
}

/// The union of the supports of a sequence of signals.
pub open spec fn supports(sigs: Seq<Signal>) -> Set<u64> {
    Set::new(|q: u64| exists|i: int| 0 <= i < sigs.len() && #[trigger] support(sigs[i]).contains(q))
}

/// Every signal of `sigs` reads only qubits of `x`.
pub open spec fn all_within(sigs: Seq<Signal>, x: Set<u64>) -> bool {
    forall|i: int| 0 <= i < sigs.len() ==> #[trigger] support(sigs[i]).subset_of(x)
}

/// The signals of a sequence read only qubits of their joint support.
pub proof fn lemma_supports(sigs: Seq<Signal>)
    ensures
        all_within(sigs, supports(sigs)),
        forall|x: Set<u64>| #[trigger] all_within(sigs, x) ==> supports(sigs).subset_of(x),
{
    assert forall|i: int| 0 <= i < sigs.len() implies #[trigger] support(sigs[i]).subset_of(supports(sigs)) by {
        assert forall|q: u64| support(sigs[i]).contains(q) implies supports(sigs).contains(q) by {}
    }
    assert forall|x: Set<u64>| #[trigger] all_within(sigs, x) implies supports(sigs).subset_of(x) by {
        assert forall|q: u64| supports(sigs).contains(q) implies x.contains(q) by {
            let i = choose|i: int| 0 <= i < sigs.len() && #[trigger] support(sigs[i]).contains(q);
            assert(support(sigs[i]).subset_of(x));
        }
    }
}

/// A signal's value depends only on the qubits it reads.
pub proof fn lemma_eval_frame(sig: Signal, s1: spec_fn(u64) -> bool, s2: spec_fn(u64) -> bool)
    requires
        forall|q: u64| support(sig).contains(q) ==> s1(q) == s2(q),
    ensures
        eval(sig, s1) == eval(sig, s2),
    decreases sig,
{
    match sig.0 {
        SignalKind::Const(_) => {},
        SignalKind::Qubit(q) => {
            assert(support(sig).contains(q.0));
        },
        SignalKind::Expr(e) => match *e {
            Expr::Not(a) => {
                assert(support(sig) == support(a));
                lemma_eval_frame(a, s1, s2);
            },
            Expr::Xor(a, b) => {
                assert(support(sig) == support(a) + support(b));
                assert forall|q: u64| support(a).contains(q) implies s1(q) == s2(q) by {
                    assert(support(sig).contains(q));
                }
                assert forall|q: u64| support(b).contains(q) implies s1(q) == s2(q) by {
                    assert(support(sig).contains(q));
                }
                lemma_eval_frame(a, s1, s2);
                lemma_eval_frame(b, s1, s2);
            },
            Expr::And(a, b) => {
                assert(support(sig) == support(a) + support(b));
                assert forall|q: u64| support(a).contains(q) implies s1(q) == s2(q) by {
                    assert(support(sig).contains(q));
                }
                assert forall|q: u64| support(b).contains(q) implies s1(q) == s2(q) by {
                    assert(support(sig).contains(q));
                }
                lemma_eval_frame(a, s1, s2);
                lemma_eval_frame(b, s1, s2);
            },
        },
    }
}

/// The signal at `index`, or the constant false past the end.
pub open spec fn bit_at_spec(bits: Seq<Signal>, index: int) -> Signal {
    if 0 <= index < bits.len() {
        bits[index]
    } else {
        Signal(SignalKind::Const(false))
    }
}

/// The unsigned value of the first `width` signals, least significant first,
/// with signals past the end read as 0.
pub open spec fn value_of(bits: Seq<Signal>, width: nat, s: spec_fn(u64) -> bool) -> nat
    decreases width,
{
    if width == 0 {
        0
    } else {
        value_of(bits, (width - 1) as nat, s) + if eval(bit_at_spec(bits, width - 1), s) {
            pow2((width - 1) as nat)
        } else {
            0
        }
    }
}

/// Bit `i` of `v`.
pub open spec fn nat_bit(v: nat, i: nat) -> bool {
    (v / pow2(i)) % 2 == 1
}

/// Calls `std::rc::Rc::clone`, which returns another pointer to the same
/// allocation; the contract says the clone holds the same expression.
#[verifier::external_body]
fn rc_clone(e: &Rc<Expr>) -> (c: Rc<Expr>)
    ensures
        c == *e,
{
    Rc::clone(e)
}

/// Calls `std::rc::Rc::ptr_eq`. Two pointers to the same allocation point to
/// the same expression, so when it returns true the expressions are equal;
/// when it returns false nothing is claimed.
#[verifier::external_body]
fn rc_ptr_eq(a: &Rc<Expr>, b: &Rc<Expr>) -> (eq: bool)
    ensures
        eq ==> *a == *b,
{
    Rc::ptr_eq(a, b)
}

/// What comparing two handles answers: for two constants or two qubits,
/// whether they are equal; for two shared expressions, whether they are the
/// same allocation, which when true means the expressions are equal; for two
/// handles of different shapes, false.
pub open spec fn same_handles(l: Signal, r: Signal, same: bool) -> bool {
    &&& same ==> l == r
    &&& match (l.0, r.0) {
        (SignalKind::Const(a), SignalKind::Const(b)) => same == (a == b),
        (SignalKind::Qubit(a), SignalKind::Qubit(b)) => same == (a == b),
        (SignalKind::Expr(_), SignalKind::Expr(_)) => true,
        _ => !same,
    }
}

impl Signal {
    /// The constant signal `value`.
    pub fn constant(value: bool) -> (s: Signal)
        ensures
            s == Signal(SignalKind::Const(value)),
    {
        Signal(SignalKind::Const(value))
    }

    /// The signal that reads qubit `qubit`.
    pub fn qubit(qubit: QubitId) -> (s: Signal)
        ensures
            s == Signal(SignalKind::Qubit(qubit)),
    {
        Signal(SignalKind::Qubit(qubit))
    }

    /// The signal of an expression.
    pub fn expr(expr: Rc<Expr>) -> (s: Signal)
        ensures
            s == Signal(SignalKind::Expr(expr)),
    {
        Signal(SignalKind::Expr(expr))
    }

    /// Another handle on the same signal; expressions are shared, not copied.
    pub fn dup(&self) -> (s: Signal)
        ensures
            s == *self,
    {
        match &self.0 {
            SignalKind::Const(b) => Signal(SignalKind::Const(*b)),
            SignalKind::Qubit(q) => Signal(SignalKind::Qubit(*q)),
            SignalKind::Expr(e) => Signal(SignalKind::Expr(rc_clone(e))),
        }
    }

    /// Whether two handles certainly denote the same signal: equal constants,
    /// the same qubit, or the same shared expression.
    pub fn same_as(&self, other: &Signal) -> (same: bool)
        ensures
            same_handles(*self, *other, same),
    {
        match (&self.0, &other.0) {
            (SignalKind::Const(a), SignalKind::Const(b)) => *a == *b,
            (SignalKind::Qubit(a), SignalKind::Qubit(b)) => a.0 == b.0,
            (SignalKind::Expr(a), SignalKind::Expr(b)) => rc_ptr_eq(a, b),
            _ => false,
        }
    }

    /// Whether this is the constant `value`.
    pub fn is_const(&self, value: bool) -> (r: bool)
        ensures
            r == (self.0 == SignalKind::Const(value)),
    {
        match &self.0 {
            SignalKind::Const(b) => *b == value,
            _ => false,
        }
    }
}

/// The signal at `index`, or the constant false past the end.
pub fn bit_at(bits: &[Signal], index: usize) -> (s: Signal)
    ensures
        s == bit_at_spec(bits@, index as int),
{
    if index < bits.len() {
        bits[index].dup()
    } else {
        Signal::constant(false)
    }
}

/// The `width` low bits of `value` as constant signals, least significant
/// first.
pub fn const_bits(value: u16, width: usize) -> (bits: Vec<Signal>)
    requires
        width <= 16,
    ensures
        bits@.len() == width,
        forall|i: int|
            0 <= i < width ==> #[trigger] bits@[i] == Signal(
                SignalKind::Const(nat_bit(value as nat, i as nat)),
            ),
{
    let mut bits: Vec<Signal> = Vec::new();
    let mut bit: usize = 0;
    while bit < width
        invariant
            0 <= bit <= width <= 16,
            bits@.len() == bit,
            forall|i: int|
                0 <= i < bit ==> #[trigger] bits@[i] == Signal(
                    SignalKind::Const(nat_bit(value as nat, i as nat)),
                ),
        decreases width - bit,
    {
        let shifted = value >> (bit as u16);
        proof {
            vstd::bits::lemma_u16_shr_is_div(value, bit as u16);
            assert(shifted & 1 == shifted % 2) by (bit_vector);
        }
        bits.push(Signal::constant((shifted & 1) != 0));
        bit = bit + 1;
    }
    bits
}

/// The signals reading each qubit of `qubits`, in order.
pub fn qubit_signals(qubits: &[QubitId]) -> (sigs: Vec<Signal>)
    ensures
        sigs@.len() == qubits@.len(),
        forall|i: int|
            0 <= i < qubits@.len() ==> #[trigger] sigs@[i] == Signal(
                SignalKind::Qubit(qubits@[i]),
            ),
{
    let mut sigs: Vec<Signal> = Vec::new();
    let mut i: usize = 0;
    while i < qubits.len()
        invariant
            0 <= i <= qubits@.len(),
            sigs@.len() == i,
            forall|j: int|
                0 <= j < i ==> #[trigger] sigs@[j] == Signal(SignalKind::Qubit(qubits@[j])),
        decreases qubits.len() - i,
    {
        sigs.push(Signal::qubit(qubits[i]));
        i = i + 1;
    }
    sigs
}

/// The value of a sequence of qubit signals is the value of those qubits.
pub open spec fn qubits_value(qubits: Seq<QubitId>, width: nat, s: spec_fn(u64) -> bool) -> nat
    decreases width,
{
    if width == 0 {
        0
    } else {
        qubits_value(qubits, (width - 1) as nat, s) + if width - 1 < qubits.len() && s(
            qubits[width - 1].0,
        ) {
            pow2((width - 1) as nat)
        } else {
            0
        }
    }
}

/// Reading qubits through their signals gives the qubits' value.
pub proof fn lemma_qubit_signals_value(
    sigs: Seq<Signal>,
    qubits: Seq<QubitId>,
    width: nat,
    s: spec_fn(u64) -> bool,
)
    requires
        sigs.len() == qubits.len(),
        forall|i: int| 0 <= i < qubits.len() ==> #[trigger] sigs[i] == Signal(SignalKind::Qubit(qubits[i])),
    ensures
        value_of(sigs, width, s) == qubits_value(qubits, width, s),
    decreases width,
{
    if width > 0 {
        lemma_qubit_signals_value(sigs, qubits, (width - 1) as nat, s);
        if width - 1 < qubits.len() {
            assert(sigs[width - 1] == Signal(SignalKind::Qubit(qubits[width - 1])));
        }
    }
}

/// 1 for true, 0 for false.
pub open spec fn bval(b: bool) -> nat {
    if b {
        1
    } else {
        0
    }
}

/// The value of the first `w` bits depends only on those bits.
pub proof fn lemma_value_of_prefix(a: Seq<Signal>, b: Seq<Signal>, w: nat, s: spec_fn(u64) -> bool)
    requires
        forall|i: int| 0 <= i < w ==> eval(#[trigger] bit_at_spec(a, i), s) == eval(bit_at_spec(b, i), s),
    ensures
        value_of(a, w, s) == value_of(b, w, s),
    decreases w,
{
    if w > 0 {
        assert(eval(bit_at_spec(a, w - 1), s) == eval(bit_at_spec(b, w - 1), s));
        lemma_value_of_prefix(a, b, (w - 1) as nat, s);
    }
}

/// Appending a bit at position `w` adds its weight.
pub proof fn lemma_value_of_push(a: Seq<Signal>, x: Signal, s: spec_fn(u64) -> bool)
    ensures
        value_of(a.push(x), a.len() + 1, s) == value_of(a, a.len(), s) + bval(eval(x, s)) * pow2(
            a.len(),
        ),
{
    let w = a.len();
    assert forall|i: int| 0 <= i < w implies eval(#[trigger] bit_at_spec(a.push(x), i), s) == eval(
        bit_at_spec(a, i),
        s,
    ) by {
        assert(a.push(x)[i] == a[i]);
    }
    lemma_value_of_prefix(a.push(x), a, w, s);
    assert(bit_at_spec(a.push(x), w as int) == x);
}

/// The value of `w` bits is below `2^w`.
pub proof fn lemma_value_of_bound(a: Seq<Signal>, w: nat, s: spec_fn(u64) -> bool)
    ensures
        value_of(a, w, s) < pow2(w),
    decreases w,
{
    if w > 0 {
        lemma_value_of_bound(a, (w - 1) as nat, s);
        vstd::arithmetic::power2::lemma_pow2_unfold(w);
    } else {
        vstd::arithmetic::power2::lemma2_to64();
    }
}

/// The value of five bits spelled out.
pub proof fn lemma_value5(a: Seq<Signal>, s: spec_fn(u64) -> bool)
    ensures
        value_of(a, 5, s) == bval(eval(bit_at_spec(a, 0), s)) + 2 * bval(eval(bit_at_spec(a, 1), s))
            + 4 * bval(eval(bit_at_spec(a, 2), s)) + 8 * bval(eval(bit_at_spec(a, 3), s)) + 16 * bval(
            eval(bit_at_spec(a, 4), s),
        ),
{
    vstd::arithmetic::power2::lemma2_to64();
    reveal_with_fuel(value_of, 6);
}

/// The value of `w + 1` bits splits into the low `w` bits and bit `w`.
pub proof fn lemma_value_split(a: Seq<Signal>, w: nat, s: spec_fn(u64) -> bool)
    ensures
        value_of(a, w + 1, s) == value_of(a, w, s) + bval(eval(bit_at_spec(a, w as int), s)) * pow2(w),
        value_of(a, w, s) == value_of(a, w + 1, s) % pow2(w),
        value_of(a, w, s) < pow2(w),
{
    lemma_value_of_bound(a, w, s);
    let v = value_of(a, w + 1, s);
    let lo = value_of(a, w, s);
    let hb = bval(eval(bit_at_spec(a, w as int), s));
    vstd::arithmetic::power2::lemma_pow2_pos(w);
    vstd::arithmetic::div_mod::lemma_fundamental_div_mod_converse(v as int, pow2(w) as int, hb as int, lo as int);
}

/// The constant bits of `c` spell `c` modulo `2^w`.
pub proof fn lemma_const_bits_value(bits: Seq<Signal>, c: nat, w: nat, s: spec_fn(u64) -> bool)
    requires
        forall|i: int| 0 <= i < w ==> #[trigger] bit_at_spec(bits, i) == Signal(SignalKind::Const(nat_bit(c, i as nat))),
    ensures
        value_of(bits, w, s) == c % pow2(w),
    decreases w,
{
    vstd::arithmetic::power2::lemma_pow2_pos(w);
    if w == 0 {
        vstd::arithmetic::power2::lemma2_to64();
    } else {
        let k = (w - 1) as nat;
        lemma_const_bits_value(bits, c, k, s);
        assert(bit_at_spec(bits, k as int) == Signal(SignalKind::Const(nat_bit(c, k))));
        vstd::arithmetic::power2::lemma_pow2_pos(k);
        vstd::arithmetic::power2::lemma_pow2_unfold(w);
        vstd::arithmetic::div_mod::lemma_mod_breakdown(c as int, pow2(k) as int, 2);
        assert(pow2(w) == pow2(k) * 2) by (nonlinear_arith)
            requires
                pow2(w) == 2 * pow2(k),
        ;
        assert(bval(nat_bit(c, k)) == (c / pow2(k)) % 2);
        assert(bval(nat_bit(c, k)) * pow2(k) == pow2(k) * ((c / pow2(k)) % 2)) by (nonlinear_arith)
            requires
                bval(nat_bit(c, k)) == (c / pow2(k)) % 2,
        ;
        assert(eval(bit_at_spec(bits, k as int), s) == nat_bit(c, k));
        assert(value_of(bits, w, s) == value_of(bits, k, s) + bval(nat_bit(c, k)) * pow2(k));
        assert((c as int) % ((pow2(k) * 2) as int) == (pow2(k) as int) * (((c as int) / (pow2(k) as int)) % 2) + (c as int) % (pow2(k) as int));
    }
}

} // verus!
