//! A bit-parallel simulator of classical reversible circuits with phases:
//! each qubit and bit holds one 64-bit word, one bit per shot, and the
//! simulator counts the gates each shot executes and the Toffoli depth of
//! each shot.
use crate::circuit::{present, BitId, Op, OperationType, QubitId, QubitOrBit, NO_INDEX};
use vstd::prelude::*;

verus! {

/// Shots simulated in parallel, one per bit of a word.
pub const SHOTS: usize = 64;

/// Gate counts, summed over executed shots, and the summed Toffoli depth.
#[derive(Clone, Copy, Debug, PartialEq, Eq, Structural)]
pub struct SimStats {
    pub clifford_gates: u64,
    pub toffoli_gates: u64,
    pub ccx_gates: u64,
    pub ccz_gates: u64,
    pub toffoli_depth: u64,
}

/// All counters zero.
pub open spec fn zero_stats() -> SimStats {
    SimStats { clifford_gates: 0, toffoli_gates: 0, ccx_gates: 0, ccz_gates: 0, toffoli_depth: 0 }
}

impl Default for SimStats {
    fn default() -> (s: Self)
        ensures
            s == zero_stats(),
    {
        SimStats { clifford_gates: 0, toffoli_gates: 0, ccx_gates: 0, ccz_gates: 0, toffoli_depth: 0 }
    }
}

/// Whether shot `shot` is set in `w`.
pub open spec fn bit_on(w: u64, shot: int) -> bool {
    (w >> (shot as u64)) & 1 != 0
}

/// The number of set bits among the low `n` bits of `w`.
pub open spec fn popcount_below(w: u64, n: nat) -> nat
    decreases n,
{
    if n == 0 {
        0
    } else {
        popcount_below(w, (n - 1) as nat) + if bit_on(w, n - 1) {
            1nat
        } else {
            0nat
        }
    }
}

/// The number of set bits of `w`: the shots a condition lets execute.
pub open spec fn popcount(w: u64) -> nat {
    popcount_below(w, 64)
}

/// Counts the set bits of `w`.
pub fn count_ones(w: u64) -> (n: u64)
    ensures
        n == popcount(w),
        n <= 64,
{
    let mut n: u64 = 0;
    let mut shot: u64 = 0;
    while shot < 64
        invariant
            0 <= shot <= 64,
            n == popcount_below(w, shot as nat),
            n <= shot,
        decreases 64 - shot,
    {
        if (w >> shot) & 1 != 0 {
            n = n + 1;
        }
        shot = shot + 1;
    }
    n
}

/// The distinct present qubits of an operation, target first.
pub open spec fn op_qubit_list(op: Op) -> Seq<usize> {
    let t = op.q_target.0;
    let c1 = op.q_control1.0;
    let c2 = op.q_control2.0;
    let a: Seq<usize> = if present(t) {
        seq![t as usize]
    } else {
        Seq::empty()
    };
    let b: Seq<usize> = if present(c1) && !a.contains(c1 as usize) {
        a.push(c1 as usize)
    } else {
        a
    };
    if present(c2) && !b.contains(c2 as usize) {
        b.push(c2 as usize)
    } else {
        b
    }
}

/// The distinct present qubits of an operation, target first.
pub fn op_qubits(op: &Op) -> (qubits: Vec<usize>)
    ensures
        qubits@ == op_qubit_list(*op),
{
    let mut qubits: Vec<usize> = Vec::new();
    if op.q_target.0 != NO_INDEX {
        qubits.push(op.q_target.0 as usize);
    }
    let ghost a = qubits@;
    if op.q_control1.0 != NO_INDEX {
        let index = op.q_control1.0 as usize;
        if !contains_usize(&qubits, index) {
            qubits.push(index);
        }
    }
    let ghost b = qubits@;
    if op.q_control2.0 != NO_INDEX {
        let index = op.q_control2.0 as usize;
        if !contains_usize(&qubits, index) {
            qubits.push(index);
        }
    }
    proof {
        assert(a == (if present(op.q_target.0) {
            seq![op.q_target.0 as usize]
        } else {
            Seq::<usize>::empty()
        }));
    }
    qubits
}

/// Whether `v` holds `x`.
pub fn contains_usize(v: &Vec<usize>, x: usize) -> (found: bool)
    ensures
        found == v@.contains(x),
{
    let mut i: usize = 0;
    while i < v.len()
        invariant
            0 <= i <= v@.len(),
            forall|j: int| 0 <= j < i ==> v@[j] != x,
        decreases v@.len() - i,
    {
        if v[i] == x {
            assert(v@[i as int] == x);
            return true;
        }
        i = i + 1;
    }
    false
}

/// The latest layer, in shot `shot`, among the qubits of `qs` that the
/// layers cover; 0 for none.
pub open spec fn touched(qs: Seq<usize>, ql: Seq<u64>, shot: int) -> u64
    decreases qs.len(),
{
    if qs.len() == 0 {
        0
    } else {
        let rest = touched(qs.drop_last(), ql, shot);
        let q = qs.last() as int;
        let here: u64 = if q * 64 + shot < ql.len() {
            ql[q * 64 + shot]
        } else {
            0
        };
        if here > rest {
            here
        } else {
            rest
        }
    }
}

/// Flattened per-shot layout: entry `q * 64 + shot` lies inside exactly
/// when `q` is one of the rows.
pub proof fn lemma_index64(q: int, shot: int, len: int)
    requires
        0 <= q,
        0 <= shot < 64,
        0 <= len,
        len % 64 == 0,
    ensures
        (q < len / 64) == (q * 64 + shot < len),
        (q * 64 + shot) / 64 == q,
        (q * 64 + shot) % 64 == shot,
{
    assert((q * 64 + shot) / 64 == q) by (nonlinear_arith)
        requires
            0 <= shot < 64,
            0 <= q,
    ;
    assert((q * 64 + shot) % 64 == shot) by (nonlinear_arith)
        requires
            0 <= shot < 64,
            0 <= q,
    ;
    assert((q < len / 64) == (q * 64 + shot < len)) by (nonlinear_arith)
        requires
            0 <= shot < 64,
            0 <= q,
            0 <= len,
            len % 64 == 0,
    ;
}

/// The latest layer of the touched qubits in one shot.
pub fn max_touched_qubit_layer(qubits: &[usize], qubit_layers: &Vec<u64>, shot: usize) -> (m: u64)
    requires
        shot < 64,
        qubit_layers@.len() % 64 == 0,
    ensures
        m == touched(qubits@, qubit_layers@, shot as int),
{
    let mut m: u64 = 0;
    let mut i: usize = 0;
    let len = qubit_layers.len();
    let nq = len / 64;
    while i < qubits.len()
        invariant
            0 <= i <= qubits@.len(),
            len == qubit_layers@.len(),
            shot < 64,
            nq == qubit_layers@.len() / 64,
            qubit_layers@.len() % 64 == 0,
            m == touched(qubits@.subrange(0, i as int), qubit_layers@, shot as int),
        decreases qubits@.len() - i,
    {
        let q = qubits[i];
        proof {
            lemma_index64(q as int, shot as int, qubit_layers@.len() as int);
        }
        let here: u64 = if q < nq {
            assert((q as int) * 64 + (shot as int) < qubit_layers@.len());
            let row = q * 64;
            qubit_layers[row + shot]
        } else {
            0
        };
        proof {
            assert(qubits@.subrange(0, i + 1).drop_last() =~= qubits@.subrange(0, i as int));
            assert(qubits@.subrange(0, i + 1).last() == q);
        }
        if here > m {
            m = here;
        }
        i = i + 1;
    }
    proof {
        assert(qubits@.subrange(0, qubits@.len() as int) =~= qubits@);
    }
    m
}

/// The larger of two layers.
pub open spec fn max_u64(a: u64, b: u64) -> u64 {
    if a > b {
        a
    } else {
        b
    }
}

/// The layers after an operation on `qs` runs in the shots of `cond`: in
/// each such shot the touched qubits move to the layer after the condition
/// and the touched qubits, one further for a Toffoli.
pub open spec fn quantum_update(qs: Seq<usize>, cond: u64, cl: Seq<u64>, ql: Seq<u64>, bump: bool) -> Seq<u64> {
    Seq::new(
        ql.len(),
        |idx: int|
            if bit_on(cond, idx % 64) && qs.contains((idx / 64) as usize) {
                let base = max_u64(cl[idx % 64], touched(qs, ql, idx % 64));
                if bump {
                    (base + 1) as u64
                } else {
                    base
                }
            } else {
                ql[idx]
            },
    )
}

/// The Toffoli depth of each shot after a Toffoli on `qs` in the shots of
/// `cond`.
pub open spec fn depth_update(qs: Seq<usize>, cond: u64, cl: Seq<u64>, ql: Seq<u64>, d: Seq<u64>) -> Seq<u64> {
    Seq::new(
        64,
        |shot: int|
            if bit_on(cond, shot) {
                max_u64(d[shot], (max_u64(cl[shot], touched(qs, ql, shot)) + 1) as u64)
            } else {
                d[shot]
            },
    )
}

/// The layers of classical bits after bit `bit` is written in the shots of
/// `cond`, at the layers `cl`.
pub open spec fn bit_update(bit: u64, cond: u64, cl: Seq<u64>, bl: Seq<u64>) -> Seq<u64> {
    Seq::new(
        bl.len(),
        |idx: int|
            if present(bit) && idx / 64 == bit && bit_on(cond, idx % 64) {
                cl[idx % 64]
            } else {
                bl[idx]
            },
    )
}

/// The layers at which a measurement's outcome is known: after the
/// condition and the measured qubit.
pub open spec fn measurement_layers(qs: Seq<usize>, cond: u64, cl: Seq<u64>, ql: Seq<u64>) -> Seq<u64> {
    Seq::new(
        64,
        |shot: int|
            if bit_on(cond, shot) {
                max_u64(cl[shot], touched(qs, ql, shot))
            } else {
                cl[shot]
            },
    )
}

/// Every entry is at most `b`.
pub open spec fn all_le(v: Seq<u64>, b: int) -> bool {
    forall|i: int| 0 <= i < v.len() ==> #[trigger] v[i] <= b
}

/// The touched layer reads only its shot's column.
pub proof fn lemma_touched_column(qs: Seq<usize>, ql1: Seq<u64>, ql2: Seq<u64>, shot: int)
    requires
        ql1.len() == ql2.len(),
        ql1.len() % 64 == 0,
        0 <= shot < 64,
        forall|idx: int| 0 <= idx < ql1.len() && idx % 64 == shot ==> #[trigger] ql1[idx] == ql2[idx],
    ensures
        touched(qs, ql1, shot) == touched(qs, ql2, shot),
    decreases qs.len(),
{
    if qs.len() > 0 {
        lemma_touched_column(qs.drop_last(), ql1, ql2, shot);
        lemma_index64(qs.last() as int, shot, ql1.len() as int);
    }
}

/// The touched layer is at most a bound of all layers.
pub proof fn lemma_touched_le(qs: Seq<usize>, ql: Seq<u64>, shot: int, b: int)
    requires
        all_le(ql, b),
        0 <= b,
        0 <= shot,
    ensures
        touched(qs, ql, shot) <= b,
    decreases qs.len(),
{
    if qs.len() > 0 {
        lemma_touched_le(qs.drop_last(), ql, shot, b);
        let i = (qs.last() as int) * 64 + shot;
        if i < ql.len() {
            assert(ql[i] <= b);
        }
    }
}

/// Moves the qubits of `qs` to `layer` in shot `shot`.
fn set_layers(qubits: &Vec<usize>, shot: usize, layer: u64, qubit_layers: &mut Vec<u64>)
    requires
        shot < 64,
        old(qubit_layers)@.len() % 64 == 0,
    ensures
        final(qubit_layers)@ == Seq::new(
            old(qubit_layers)@.len(),
            |idx: int|
                if idx % 64 == shot && qubits@.contains((idx / 64) as usize) {
                    layer
                } else {
                    old(qubit_layers)@[idx]
                },
        ),
{
    let len = qubit_layers.len();
    let nq = len / 64;
    let mut i: usize = 0;
    while i < qubits.len()
        invariant
            0 <= i <= qubits@.len(),
            shot < 64,
            len == qubit_layers@.len(),
            len == old(qubit_layers)@.len(),
            nq == len / 64,
            len % 64 == 0,
            qubit_layers@ == Seq::new(
                len as nat,
                |idx: int|
                    if idx % 64 == shot && qubits@.subrange(0, i as int).contains((idx / 64) as usize) {
                        layer
                    } else {
                        old(qubit_layers)@[idx]
                    },
            ),
        decreases qubits@.len() - i,
    {
        let q = qubits[i];
        proof {
            lemma_index64(q as int, shot as int, len as int);
        }
        if q < nq {
            let row = q * 64;
            qubit_layers.set(row + shot, layer);
        }
        proof {
            let sub = qubits@.subrange(0, i + 1);
            assert(sub =~= qubits@.subrange(0, i as int).push(q));
            assert forall|idx: int| 0 <= idx < len implies #[trigger] qubit_layers@[idx] == (if idx % 64 == shot
                && sub.contains((idx / 64) as usize) {
                layer
            } else {
                old(qubit_layers)@[idx]
            }) by {
                if idx / 64 == q as int && idx % 64 == shot {
                    assert(idx == (q as int) * 64 + (shot as int));
                    assert(sub[i as int] == q);
                    assert(sub.contains(q));
                } else {
                    if sub.contains((idx / 64) as usize) && !qubits@.subrange(0, i as int).contains((idx / 64) as usize) {
                        let j = choose|j: int| 0 <= j < sub.len() && sub[j] == (idx / 64) as usize;
                        assert(j == i);
                        assert((idx / 64) as usize == q);
                    }
                    if q < nq && idx == (q as int) * 64 + (shot as int) {
                        assert(idx / 64 == q as int);
                    }
                }
            }
            assert(qubit_layers@ =~= Seq::new(
                len as nat,
                |idx: int|
                    if idx % 64 == shot && sub.contains((idx / 64) as usize) {
                        layer
                    } else {
                        old(qubit_layers)@[idx]
                    },
            ));
        }
        i = i + 1;
    }
    proof {
        assert(qubits@.subrange(0, qubits@.len() as int) =~= qubits@);
    }
}

/// Moves the qubits of `qubits`, in each shot of `cond`, to the layer after
/// the condition and the qubits themselves.
fn update_quantum_dependency_layers(qubits: &Vec<usize>, cond: u64, cond_layers: &Vec<u64>, qubit_layers: &mut Vec<u64>)
    requires
        cond_layers@.len() == 64,
        old(qubit_layers)@.len() % 64 == 0,
    ensures
        final(qubit_layers)@ == quantum_update(qubits@, cond, cond_layers@, old(qubit_layers)@, false),
{
    let ghost ql0 = qubit_layers@;
    let mut shot: usize = 0;
    while shot < 64
        invariant
            0 <= shot <= 64,
            cond_layers@.len() == 64,
            ql0 == old(qubit_layers)@,
            ql0.len() % 64 == 0,
            qubit_layers@ == Seq::new(
                ql0.len(),
                |idx: int|
                    if idx % 64 < shot && bit_on(cond, idx % 64) && qubits@.contains((idx / 64) as usize) {
                        max_u64(cond_layers@[idx % 64], touched(qubits@, ql0, idx % 64))
                    } else {
                        ql0[idx]
                    },
            ),
        decreases 64 - shot,
    {
        if (cond >> (shot as u64)) & 1 != 0 {
            proof {
                lemma_touched_column(qubits@, qubit_layers@, ql0, shot as int);
            }
            let touched_layer = max_touched_qubit_layer(qubits.as_slice(), qubit_layers, shot);
            let layer = if cond_layers[shot] > touched_layer {
                cond_layers[shot]
            } else {
                touched_layer
            };
            set_layers(qubits, shot, layer, qubit_layers);
        }
        proof {
            assert(qubit_layers@ =~= Seq::new(
                ql0.len(),
                |idx: int|
                    if idx % 64 < shot + 1 && bit_on(cond, idx % 64) && qubits@.contains((idx / 64) as usize) {
                        max_u64(cond_layers@[idx % 64], touched(qubits@, ql0, idx % 64))
                    } else {
                        ql0[idx]
                    },
            ));
        }
        shot = shot + 1;
    }
    proof {
        assert(qubit_layers@ =~= quantum_update(qubits@, cond, cond_layers@, ql0, false));
    }
}

/// Moves the qubits of a Toffoli, in each shot of `cond`, to the layer after
/// the condition and the qubits themselves, and raises each shot's Toffoli
/// depth to it.
fn update_toffoli_layers(
    qubits: &Vec<usize>,
    cond: u64,
    cond_layers: &Vec<u64>,
    qubit_layers: &mut Vec<u64>,
    batch_toffoli_depth: &mut Vec<u64>,
    bound: Ghost<int>,
)
    requires
        cond_layers@.len() == 64,
        old(batch_toffoli_depth)@.len() == 64,
        old(qubit_layers)@.len() % 64 == 0,
        0 <= bound@ < u64::MAX,
        all_le(cond_layers@, bound@),
        all_le(old(qubit_layers)@, bound@),
    ensures
        final(qubit_layers)@ == quantum_update(qubits@, cond, cond_layers@, old(qubit_layers)@, true),
        final(batch_toffoli_depth)@ == depth_update(qubits@, cond, cond_layers@, old(qubit_layers)@, old(batch_toffoli_depth)@),
{
    let ghost ql0 = qubit_layers@;
    let ghost d0 = batch_toffoli_depth@;
    let mut shot: usize = 0;
    while shot < 64
        invariant
            0 <= shot <= 64,
            cond_layers@.len() == 64,
            ql0 == old(qubit_layers)@,
            d0 == old(batch_toffoli_depth)@,
            ql0.len() % 64 == 0,
            d0.len() == 64,
            0 <= bound@ < u64::MAX,
            all_le(cond_layers@, bound@),
            all_le(ql0, bound@),
            qubit_layers@ == Seq::new(
                ql0.len(),
                |idx: int|
                    if idx % 64 < shot && bit_on(cond, idx % 64) && qubits@.contains((idx / 64) as usize) {
                        (max_u64(cond_layers@[idx % 64], touched(qubits@, ql0, idx % 64)) + 1) as u64
                    } else {
                        ql0[idx]
                    },
            ),
            batch_toffoli_depth@ == Seq::new(
                64,
                |sh: int|
                    if sh < shot && bit_on(cond, sh) {
                        max_u64(d0[sh], (max_u64(cond_layers@[sh], touched(qubits@, ql0, sh)) + 1) as u64)
                    } else {
                        d0[sh]
                    },
            ),
        decreases 64 - shot,
    {
        if (cond >> (shot as u64)) & 1 != 0 {
            proof {
                lemma_touched_column(qubits@, qubit_layers@, ql0, shot as int);
                lemma_touched_le(qubits@, ql0, shot as int, bound@);
                assert(cond_layers@[shot as int] <= bound@);
            }
            let touched_layer = max_touched_qubit_layer(qubits.as_slice(), qubit_layers, shot);
            let base = if cond_layers[shot] > touched_layer {
                cond_layers[shot]
            } else {
                touched_layer
            };
            let layer = base + 1;
            set_layers(qubits, shot, layer, qubit_layers);
            if batch_toffoli_depth[shot] < layer {
                batch_toffoli_depth.set(shot, layer);
            }
        }
        proof {
            assert(qubit_layers@ =~= Seq::new(
                ql0.len(),
                |idx: int|
                    if idx % 64 < shot + 1 && bit_on(cond, idx % 64) && qubits@.contains((idx / 64) as usize) {
                        (max_u64(cond_layers@[idx % 64], touched(qubits@, ql0, idx % 64)) + 1) as u64
                    } else {
                        ql0[idx]
                    },
            ));
            assert(batch_toffoli_depth@ =~= Seq::new(
                64,
                |sh: int|
                    if sh < shot + 1 && bit_on(cond, sh) {
                        max_u64(d0[sh], (max_u64(cond_layers@[sh], touched(qubits@, ql0, sh)) + 1) as u64)
                    } else {
                        d0[sh]
                    },
            ));
        }
        shot = shot + 1;
    }
    proof {
        assert(qubit_layers@ =~= quantum_update(qubits@, cond, cond_layers@, ql0, true));
        assert(batch_toffoli_depth@ =~= depth_update(qubits@, cond, cond_layers@, ql0, d0));
    }
}

/// Writes bit `bit` at the layers `cond_layers` in the shots of `cond`.
fn update_bit_dependency_layers(bit: BitId, cond: u64, cond_layers: &Vec<u64>, bit_layers: &mut Vec<u64>)
    requires
        cond_layers@.len() == 64,
        old(bit_layers)@.len() % 64 == 0,
    ensures
        final(bit_layers)@ == bit_update(bit.0, cond, cond_layers@, old(bit_layers)@),
{
    let ghost bl0 = bit_layers@;
    if bit.0 == NO_INDEX {
        proof {
            assert(bit_layers@ =~= bit_update(bit.0, cond, cond_layers@, bl0));
        }
        return;
    }
    let len = bit_layers.len();
    if bit.0 >= (len / 64) as u64 {
        proof {
            assert forall|idx: int| 0 <= idx < len implies #[trigger] bl0[idx] == bl0[idx] && idx / 64 != bit.0 by {
                lemma_index64(idx / 64, idx % 64, len as int);
            }
            assert(bit_layers@ =~= bit_update(bit.0, cond, cond_layers@, bl0));
        }
        return;
    }
    let row = (bit.0 as usize) * 64;
    let mut shot: usize = 0;
    proof {
        lemma_index64(bit.0 as int, 63, len as int);
    }
    while shot < 64
        invariant
            0 <= shot <= 64,
            len == bit_layers@.len(),
            len == bl0.len(),
            bl0 == old(bit_layers)@,
            len % 64 == 0,
            present(bit.0),
            row == bit.0 * 64,
            row + 64 <= len,
            cond_layers@.len() == 64,
            bit_layers@ == Seq::new(
                len as nat,
                |idx: int|
                    if idx / 64 == bit.0 && idx % 64 < shot && bit_on(cond, idx % 64) {
                        cond_layers@[idx % 64]
                    } else {
                        bl0[idx]
                    },
            ),
        decreases 64 - shot,
    {
        if (cond >> (shot as u64)) & 1 != 0 {
            bit_layers.set(row + shot, cond_layers[shot]);
        }
        proof {
            lemma_index64(bit.0 as int, shot as int, len as int);
            assert forall|idx: int| 0 <= idx < len implies #[trigger] bl0[idx] == bl0[idx] && (idx / 64 == bit.0 && idx % 64 == shot) == (idx == row + shot) by {
                lemma_index64(idx / 64, idx % 64, len as int);
            }
            assert(bit_layers@ =~= Seq::new(
                len as nat,
                |idx: int|
                    if idx / 64 == bit.0 && idx % 64 < shot + 1 && bit_on(cond, idx % 64) {
                        cond_layers@[idx % 64]
                    } else {
                        bl0[idx]
                    },
            ));
        }
        shot = shot + 1;
    }
    proof {
        assert(bit_layers@ =~= bit_update(bit.0, cond, cond_layers@, bl0));
    }
}

/// The qubit layers, bit layers and Toffoli depths after one operation runs
/// in the shots of `cond`, whose condition is known at the layers `cl`.
pub open spec fn depth_step(op: Op, cond: u64, cl: Seq<u64>, ql: Seq<u64>, bl: Seq<u64>, d: Seq<u64>) -> (Seq<u64>, Seq<u64>, Seq<u64>) {
    let qs = op_qubit_list(op);
    match op.kind {
        OperationType::CCX | OperationType::CCZ => (
            quantum_update(qs, cond, cl, ql, true),
            bl,
            depth_update(qs, cond, cl, ql, d),
        ),
        OperationType::CX | OperationType::CZ | OperationType::Swap | OperationType::X | OperationType::Z
        | OperationType::R => (quantum_update(qs, cond, cl, ql, false), bl, d),
        OperationType::Hmr => {
            let ml = measurement_layers(qs, cond, cl, ql);
            (quantum_update(qs, cond, ml, ql, false), bit_update(op.c_target.0, cond, ml, bl), d)
        },
        OperationType::BitInvert | OperationType::BitStore0 | OperationType::BitStore1 => (
            ql,
            bit_update(op.c_target.0, cond, cl, bl),
            d,
        ),
        _ => (ql, bl, d),
    }
}

/// One operation raises no layer above one past the bound of all layers.
pub proof fn lemma_depth_step_bounds(op: Op, cond: u64, cl: Seq<u64>, ql: Seq<u64>, bl: Seq<u64>, d: Seq<u64>, b: int)
    requires
        0 <= b < u64::MAX,
        cl.len() == 64,
        d.len() == 64,
        all_le(cl, b),
        all_le(ql, b),
        all_le(bl, b),
        all_le(d, b),
    ensures
        all_le(depth_step(op, cond, cl, ql, bl, d).0, b + 1),
        all_le(depth_step(op, cond, cl, ql, bl, d).1, b + 1),
        all_le(depth_step(op, cond, cl, ql, bl, d).2, b + 1),
        depth_step(op, cond, cl, ql, bl, d).0.len() == ql.len(),
        depth_step(op, cond, cl, ql, bl, d).1.len() == bl.len(),
        depth_step(op, cond, cl, ql, bl, d).2.len() == 64,
{
    let qs = op_qubit_list(op);
    assert forall|shot: int| 0 <= shot < 64 implies #[trigger] touched(qs, ql, shot) <= b by {
        lemma_touched_le(qs, ql, shot, b);
    }
    let ml = measurement_layers(qs, cond, cl, ql);
    assert(all_le(ml, b));
    assert forall|shot: int| 0 <= shot < 64 implies cl[shot] <= b by {}
}

/// Bit `s` of an exclusive or is the exclusive or of the bits.
proof fn lemma_bit_on_xor(x: u64, y: u64, s: int)
    requires
        0 <= s < 64,
    ensures
        bit_on(x ^ y, s) == (bit_on(x, s) != bit_on(y, s)),
{
    let k = s as u64;
    assert(((x ^ y) >> k) & 1 != 0 <==> (((x >> k) & 1 != 0) != ((y >> k) & 1 != 0))) by (bit_vector)
        requires
            k < 64,
    ;
}

/// Bit `s` of a conjunction is the conjunction of the bits.
proof fn lemma_bit_on_and(x: u64, y: u64, s: int)
    requires
        0 <= s < 64,
    ensures
        bit_on(x & y, s) == (bit_on(x, s) && bit_on(y, s)),
{
    let k = s as u64;
    assert(((x & y) >> k) & 1 != 0 <==> (((x >> k) & 1 != 0) && ((y >> k) & 1 != 0))) by (bit_vector)
        requires
            k < 64,
    ;
}

/// What the quantum gates do to one shot `s` that runs in the words
/// `cond`: X flips its target; CX flips the target where the control is set,
/// CCX where both controls are; Z, CZ and CCZ flip the shot's phase where
/// the target (and the controls) are all set and change no qubit. None of
/// them changes a classical bit, and only the target's word changes.
pub proof fn lemma_gate_shot(phase: u64, q: Seq<u64>, b: Seq<u64>, op: Op, cond: u64, rng: u64, s: int)
    requires
        0 <= s < 64,
        op.q_target.0 < q.len(),
        op.q_control1.0 < q.len() || op.kind == OperationType::X || op.kind == OperationType::Z,
        op.q_control2.0 < q.len() || (op.kind != OperationType::CCX && op.kind != OperationType::CCZ),
    ensures
        ({
            let r = value_step(phase, q, b, op, cond, rng);
            let t = op.q_target.0 as int;
            let c1 = op.q_control1.0 as int;
            let c2 = op.q_control2.0 as int;
            let on = bit_on(cond, s);
            &&& (op.kind == OperationType::X || op.kind == OperationType::CX || op.kind == OperationType::CCX)
                ==> r.0 == phase && r.2 == b && r.1.len() == q.len() && (forall|j: int|
                0 <= j < q.len() && j != t ==> #[trigger] r.1[j] == q[j])
            &&& op.kind == OperationType::X ==> bit_on(r.1[t], s) == (bit_on(q[t], s) != on)
            &&& op.kind == OperationType::CX ==> bit_on(r.1[t], s) == (bit_on(q[t], s) != (on && bit_on(q[c1], s)))
            &&& op.kind == OperationType::CCX ==> bit_on(r.1[t], s) == (bit_on(q[t], s) != (on && bit_on(q[c1], s)
                && bit_on(q[c2], s)))
            &&& (op.kind == OperationType::Z || op.kind == OperationType::CZ || op.kind == OperationType::CCZ)
                ==> r.1 == q && r.2 == b
            &&& op.kind == OperationType::Z ==> bit_on(r.0, s) == (bit_on(phase, s) != (on && bit_on(q[t], s)))
            &&& op.kind == OperationType::CZ ==> bit_on(r.0, s) == (bit_on(phase, s) != (on && bit_on(q[t], s)
                && bit_on(q[c1], s)))
            &&& op.kind == OperationType::CCZ ==> bit_on(r.0, s) == (bit_on(phase, s) != (on && bit_on(q[t], s)
                && bit_on(q[c1], s) && bit_on(q[c2], s)))
        }),
{
    let t = op.q_target.0 as int;
    let c1 = op.q_control1.0 as int;
    let c2 = op.q_control2.0 as int;
    match op.kind {
        OperationType::X => {
            lemma_bit_on_xor(q[t], cond, s);
        },
        OperationType::CX => {
            lemma_bit_on_and(cond, q[c1], s);
            lemma_bit_on_xor(q[t], cond & q[c1], s);
        },
        OperationType::CCX => {
            lemma_bit_on_and(cond, q[c1], s);
            lemma_bit_on_and(cond & q[c1], q[c2], s);
            lemma_bit_on_xor(q[t], cond & q[c1] & q[c2], s);
        },
        OperationType::Z => {
            lemma_bit_on_and(cond, q[t], s);
            lemma_bit_on_xor(phase, cond & q[t], s);
        },
        OperationType::CZ => {
            lemma_bit_on_and(cond, q[t], s);
            lemma_bit_on_and(cond & q[t], q[c1], s);
            lemma_bit_on_xor(phase, cond & q[t] & q[c1], s);
        },
        OperationType::CCZ => {
            lemma_bit_on_and(cond, q[t], s);
            lemma_bit_on_and(cond & q[t], q[c1], s);
            lemma_bit_on_and(cond & q[t] & q[c1], q[c2], s);
            lemma_bit_on_xor(phase, cond & q[t] & q[c1] & q[c2], s);
        },
        _ => {},
    }
}

/// Bit `s` of a complement is the complement of the bit.
proof fn lemma_bit_on_not(x: u64, s: int)
    requires
        0 <= s < 64,
    ensures
        bit_on(!x, s) == !bit_on(x, s),
{
    let k = s as u64;
    assert(((!x) >> k) & 1 != 0 <==> !((x >> k) & 1 != 0)) by (bit_vector)
        requires
            k < 64,
    ;
}

/// Bit `s` of a disjunction is the disjunction of the bits.
proof fn lemma_bit_on_or(x: u64, y: u64, s: int)
    requires
        0 <= s < 64,
    ensures
        bit_on(x | y, s) == (bit_on(x, s) || bit_on(y, s)),
{
    let k = s as u64;
    assert(((x | y) >> k) & 1 != 0 <==> (((x >> k) & 1 != 0) || ((y >> k) & 1 != 0))) by (bit_vector)
        requires
            k < 64,
    ;
}

/// What the other operations do to one shot `s` that runs in `cond`: Swap
/// exchanges its two qubits; Neg flips the phase; BitInvert flips its
/// classical target, BitStore0 clears it and BitStore1 sets it; R clears its
/// qubit, flipping the phase where the qubit was set and the random word's
/// bit is set; Hmr does the same and also stores the random bit in its
/// classical target. A shot that does not run keeps its values.
pub proof fn lemma_other_op_shot(phase: u64, q: Seq<u64>, b: Seq<u64>, op: Op, cond: u64, rng: u64, s: int)
    requires
        0 <= s < 64,
        op.q_target.0 < q.len() || !(op.kind == OperationType::Swap || op.kind == OperationType::R
            || op.kind == OperationType::Hmr),
        op.q_control1.0 < q.len() || op.kind != OperationType::Swap,
        op.q_control1.0 != op.q_target.0 || op.kind != OperationType::Swap,
        op.c_target.0 < b.len() || !(op.kind == OperationType::BitInvert || op.kind == OperationType::BitStore0
            || op.kind == OperationType::BitStore1 || op.kind == OperationType::Hmr),
    ensures
        ({
            let r = value_step(phase, q, b, op, cond, rng);
            let t = op.q_target.0 as int;
            let c1 = op.q_control1.0 as int;
            let ct = op.c_target.0 as int;
            let on = bit_on(cond, s);
            &&& op.kind == OperationType::Swap ==> r.0 == phase && r.2 == b && r.1.len() == q.len() && (forall|j: int|
                0 <= j < q.len() && j != t && j != c1 ==> #[trigger] r.1[j] == q[j]) && bit_on(r.1[t], s) == (if on {
                bit_on(q[c1], s)
            } else {
                bit_on(q[t], s)
            }) && bit_on(r.1[c1], s) == (if on {
                bit_on(q[t], s)
            } else {
                bit_on(q[c1], s)
            })
            &&& op.kind == OperationType::Neg ==> r.1 == q && r.2 == b && bit_on(r.0, s) == (bit_on(phase, s) != on)
            &&& (op.kind == OperationType::BitInvert || op.kind == OperationType::BitStore0 || op.kind
                == OperationType::BitStore1) ==> r.0 == phase && r.1 == q && r.2.len() == b.len() && (forall|j: int|
                0 <= j < b.len() && j != ct ==> #[trigger] r.2[j] == b[j])
            &&& op.kind == OperationType::BitInvert ==> bit_on(r.2[ct], s) == (bit_on(b[ct], s) != on)
            &&& op.kind == OperationType::BitStore0 ==> bit_on(r.2[ct], s) == (!on && bit_on(b[ct], s))
            &&& op.kind == OperationType::BitStore1 ==> bit_on(r.2[ct], s) == (on || bit_on(b[ct], s))
            &&& (op.kind == OperationType::R || op.kind == OperationType::Hmr) ==> r.1.len() == q.len() && (forall|j: int|
                0 <= j < q.len() && j != t ==> #[trigger] r.1[j] == q[j]) && bit_on(r.1[t], s) == (!on && bit_on(q[t], s))
                && bit_on(r.0, s) == (bit_on(phase, s) != (on && bit_on(q[t], s) && bit_on(rng, s)))
            &&& op.kind == OperationType::R ==> r.2 == b
            &&& op.kind == OperationType::Hmr ==> r.2.len() == b.len() && (forall|j: int|
                0 <= j < b.len() && j != ct ==> #[trigger] r.2[j] == b[j]) && bit_on(r.2[ct], s) == (if on {
                bit_on(rng, s)
            } else {
                bit_on(b[ct], s)
            })
        }),
{
    let t = op.q_target.0 as int;
    let c1 = op.q_control1.0 as int;
    let ct = op.c_target.0 as int;
    match op.kind {
        OperationType::Swap => {
            let a1 = q[c1] ^ q[t];
            let t1 = q[t] ^ (cond & a1);
            lemma_bit_on_xor(q[c1], q[t], s);
            lemma_bit_on_and(cond, a1, s);
            lemma_bit_on_xor(q[t], cond & a1, s);
            lemma_bit_on_xor(a1, t1, s);
        },
        OperationType::Neg => {
            lemma_bit_on_xor(phase, cond, s);
        },
        OperationType::BitInvert => {
            lemma_bit_on_xor(b[ct], cond, s);
        },
        OperationType::BitStore0 => {
            lemma_bit_on_not(cond, s);
            lemma_bit_on_and(b[ct], !cond, s);
        },
        OperationType::BitStore1 => {
            lemma_bit_on_or(b[ct], cond, s);
        },
        OperationType::R | OperationType::Hmr => {
            lemma_bit_on_not(cond, s);
            lemma_bit_on_and(q[t], !cond, s);
            lemma_bit_on_and(q[t], rng, s);
            lemma_bit_on_and(q[t] & rng, cond, s);
            lemma_bit_on_xor(phase, q[t] & rng & cond, s);
            if op.kind == OperationType::Hmr {
                lemma_bit_on_and(b[ct], !cond, s);
                lemma_bit_on_and(rng, cond, s);
                lemma_bit_on_xor(b[ct] & !cond, rng & cond, s);
            }
        },
        _ => {},
    }
}

/// The touched layer of a shot is at least the layer of each touched qubit.
proof fn lemma_touched_ge(qs: Seq<usize>, ql: Seq<u64>, shot: int, i: int)
    requires
        0 <= i < qs.len(),
        qs[i] * 64 + shot < ql.len(),
    ensures
        touched(qs, ql, shot) >= ql[qs[i] * 64 + shot],
    decreases qs.len(),
{
    if i < qs.len() - 1 {
        lemma_touched_ge(qs.drop_last(), ql, shot, i);
        assert(qs.drop_last()[i] == qs[i]);
    }
}

/// The qubits a gate lists include each of its present operands.
proof fn lemma_qubit_list_has(op: Op)
    ensures
        present(op.q_target.0) ==> op_qubit_list(op).contains(op.q_target.0 as usize),
        present(op.q_control1.0) ==> op_qubit_list(op).contains(op.q_control1.0 as usize),
        present(op.q_control2.0) ==> op_qubit_list(op).contains(op.q_control2.0 as usize),
{
    let t = op.q_target.0;
    let c1 = op.q_control1.0;
    let a: Seq<usize> = if present(t) { seq![t as usize] } else { Seq::empty() };
    let bb: Seq<usize> = if present(c1) && !a.contains(c1 as usize) { a.push(c1 as usize) } else { a };
    if present(t) {
        assert(a[0] == t as usize);
        assert(bb.contains(t as usize)) by {
            if present(c1) && !a.contains(c1 as usize) {
                assert(bb[0] == t as usize);
            }
        }
    }
    if present(c1) && !a.contains(c1 as usize) {
        assert(bb[bb.len() - 1] == c1 as usize);
    }
    if present(op.q_control2.0) && !bb.contains(op.q_control2.0 as usize) {
        let c = bb.push(op.q_control2.0 as usize);
        assert(c[c.len() - 1] == op.q_control2.0 as usize);
        assert forall|x: usize| bb.contains(x) implies c.contains(x) by {
            let j = choose|j: int| 0 <= j < bb.len() && bb[j] == x;
            assert(c[j] == x);
        }
    }
}

/// A Toffoli gate (CCX or CCZ) run in shot `s` puts the shot's Toffoli depth
/// past the layer of its condition and of each of its qubits, and never
/// lowers it; other gates leave the depths alone, and so does any gate in a
/// shot it does not run in.
pub proof fn lemma_toffoli_depth(op: Op, cond: u64, cl: Seq<u64>, ql: Seq<u64>, bl: Seq<u64>, d: Seq<u64>, s: int)
    requires
        0 <= s < 64,
        cl.len() == 64,
        d.len() == 64,
        cl[s] < u64::MAX,
        ql.len() <= usize::MAX,
        ql.len() % 64 == 0,
        forall|j: int| 0 <= j < ql.len() ==> #[trigger] ql[j] < u64::MAX,
    ensures
        ({
            let d2 = depth_step(op, cond, cl, ql, bl, d).2;
            let ql2 = depth_step(op, cond, cl, ql, bl, d).0;
            &&& d2.len() == 64
            &&& (op.kind == OperationType::CCX || op.kind == OperationType::CCZ) && bit_on(cond, s) ==> {
                &&& d2[s] >= d[s]
                &&& d2[s] >= cl[s] + 1
                &&& forall|x: u64|
                    (x == op.q_target.0 || x == op.q_control1.0 || x == op.q_control2.0) && present(x) && x * 64 + s
                        < ql.len() ==> d2[s] >= #[trigger] ql[x * 64 + s] + 1 && ql2[x * 64 + s] >= ql[x * 64 + s]
                        + 1 && ql2[x * 64 + s] >= cl[s] + 1 && d2[s] >= ql2[x * 64 + s]
            }
            &&& !bit_on(cond, s) ==> d2[s] == d[s]
            &&& !(op.kind == OperationType::CCX || op.kind == OperationType::CCZ) ==> d2 == d
        }),
{
    let qs = op_qubit_list(op);
    lemma_qubit_list_has(op);
    assert(all_le(ql, u64::MAX - 1));
    lemma_touched_le(qs, ql, s, u64::MAX - 1);
    assert forall|x: u64|
        (x == op.q_target.0 || x == op.q_control1.0 || x == op.q_control2.0) && present(x) && x * 64 + s < ql.len()
            implies touched(qs, ql, s) >= #[trigger] ql[x * 64 + s] by {
        assert(x < ql.len());
        assert((x as usize) as int == x as int);
        let i = choose|i: int| 0 <= i < qs.len() && qs[i] == x as usize;
        lemma_touched_ge(qs, ql, s, i);
    }
    if ql.len() % 64 == 0 {
        assert forall|x: u64|
            (x == op.q_target.0 || x == op.q_control1.0 || x == op.q_control2.0) && present(x) && x * 64 + s
                < ql.len() implies (x * 64 + s) / 64 == x && (x * 64 + s) % 64 == s by {
            lemma_index64(x as int, s, ql.len() as int);
        }
    }
}

/// Updates the qubit layers, bit layers and Toffoli depths for one operation
/// running in the shots of `cond`.
fn update_depth_layers(
    op: &Op,
    cond: u64,
    cond_layers: &Vec<u64>,
    qubit_layers: &mut Vec<u64>,
    bit_layers: &mut Vec<u64>,
    batch_toffoli_depth: &mut Vec<u64>,
    bound: Ghost<int>,
)
    requires
        cond_layers@.len() == 64,
        old(batch_toffoli_depth)@.len() == 64,
        old(qubit_layers)@.len() % 64 == 0,
        old(bit_layers)@.len() % 64 == 0,
        0 <= bound@ < u64::MAX,
        all_le(cond_layers@, bound@),
        all_le(old(qubit_layers)@, bound@),
        all_le(old(bit_layers)@, bound@),
        all_le(old(batch_toffoli_depth)@, bound@),
    ensures
        (final(qubit_layers)@, final(bit_layers)@, final(batch_toffoli_depth)@) == depth_step(
            *op,
            cond,
            cond_layers@,
            old(qubit_layers)@,
            old(bit_layers)@,
            old(batch_toffoli_depth)@,
        ),
{
    let qubits = op_qubits(op);
    match op.kind {
        OperationType::CCX | OperationType::CCZ => {
            update_toffoli_layers(&qubits, cond, cond_layers, qubit_layers, batch_toffoli_depth, bound);
        },
        OperationType::CX | OperationType::CZ | OperationType::Swap | OperationType::X | OperationType::Z
        | OperationType::R => {
            update_quantum_dependency_layers(&qubits, cond, cond_layers, qubit_layers);
        },
        OperationType::Hmr => {
            let mut measurement: Vec<u64> = Vec::new();
            let mut shot: usize = 0;
            while shot < 64
                invariant
                    0 <= shot <= 64,
                    cond_layers@.len() == 64,
                    qubit_layers@ == old(qubit_layers)@,
                    qubit_layers@.len() % 64 == 0,
                    qubits@ == op_qubit_list(*op),
                    measurement@.len() == shot,
                    forall|sh: int| 0 <= sh < shot ==> #[trigger] measurement@[sh] == measurement_layers(qubits@, cond, cond_layers@, qubit_layers@)[sh],
                decreases 64 - shot,
            {
                if (cond >> (shot as u64)) & 1 != 0 {
                    let t = max_touched_qubit_layer(qubits.as_slice(), qubit_layers, shot);
                    measurement.push(if cond_layers[shot] > t {
                        cond_layers[shot]
                    } else {
                        t
                    });
                } else {
                    measurement.push(cond_layers[shot]);
                }
                shot = shot + 1;
            }
            proof {
                assert(measurement@ =~= measurement_layers(qubits@, cond, cond_layers@, old(qubit_layers)@));
            }
            update_quantum_dependency_layers(&qubits, cond, &measurement, qubit_layers);
            update_bit_dependency_layers(op.c_target, cond, &measurement, bit_layers);
        },
        OperationType::BitInvert | OperationType::BitStore0 | OperationType::BitStore1 => {
            update_bit_dependency_layers(op.c_target, cond, cond_layers, bit_layers);
        },
        _ => {},
    }
}

/// The SHAKE256 reader of `sha3`, held opaquely: Verus cannot take the
/// declaration of its type, whose bounds are written over `typenum`.
#[verifier::external_body]
struct Shake256Box {
    reader: sha3::Shake256Reader,
}

/// Byte `i` of the SHAKE256 output of `seed`.
pub uninterp spec fn shake256_byte(seed: Seq<u8>, i: nat) -> u8;

/// The `n` little-endian words made of the SHAKE256 output of `seed` from
/// byte `pos` on, eight bytes each.
pub open spec fn xof_words(seed: Seq<u8>, pos: nat, n: nat) -> Seq<u64> {
    Seq::new(n, |j: int| le_word_spec(xof_bytes(seed, (pos + 8 * j) as nat, 8)))
}

/// Bytes `pos` to `pos + n` of the SHAKE256 output of `seed`.
pub open spec fn xof_bytes(seed: Seq<u8>, pos: nat, n: nat) -> Seq<u8> {
    Seq::new(n, |j: int| shake256_byte(seed, (pos + j) as nat))
}

/// A stream of pseudo-random bytes: the SHAKE256 output of a seed, read in
/// order; `pos` counts the bytes read so far.
pub struct XofStream {
    reader: Shake256Box,
    seed: Ghost<Seq<u8>>,
    pos: Ghost<nat>,
}

/// Calls `sha3::Shake256::default`, `Update::update` with `data` and
/// `ExtendableOutput::finalize_xof`: the reader of the SHAKE256 output of
/// `data`, at its start. Nothing is claimed of it here; what it yields is
/// claimed by `xof_read`.
#[verifier::external_body]
fn shake256_stream(data: &[u8]) -> Shake256Box {
    let mut hasher = sha3::Shake256::default();
    sha3::digest::Update::update(&mut hasher, data);
    Shake256Box { reader: sha3::digest::ExtendableOutput::finalize_xof(hasher) }
}

/// Calls `XofReader::read` to fill `buf` with the next bytes of the stream.
/// A reader made by `shake256_stream` yields the SHAKE256 output of its
/// seed in order, one read after another, so the buffer receives the output
/// bytes from `pos` on and the count of bytes read grows by the buffer's
/// length (the count and the seed are the stream's ghost bookkeeping).
#[verifier::external_body]
fn xof_read(xof: &mut XofStream, buf: &mut [u8])
    ensures
        final(buf)@.len() == old(buf)@.len(),
        forall|j: int|
            0 <= j < old(buf)@.len() ==> #[trigger] final(buf)@[j] == shake256_byte(
                old(xof).seed@,
                (old(xof).pos@ + j) as nat,
            ),
        final(xof).seed == old(xof).seed,
        final(xof).pos@ == old(xof).pos@ + old(buf)@.len(),
{
    sha3::digest::XofReader::read(&mut xof.reader.reader, buf);
}

impl XofStream {
    /// The seed whose SHAKE256 output the stream yields.
    pub closed spec fn seed(&self) -> Seq<u8> {
        self.seed@
    }

    /// How many bytes of the output have been read.
    pub closed spec fn position(&self) -> nat {
        self.pos@
    }

    /// The SHAKE256 output stream of `data`.
    pub fn from_seed(data: &[u8]) -> (x: XofStream)
        ensures
            x.seed() == data@,
            x.position() == 0,
    {
        XofStream { reader: shake256_stream(data), seed: Ghost(data@), pos: Ghost(0) }
    }

    /// The next eight bytes of the stream, as a little-endian word.
    pub fn next_u64(&mut self) -> (w: u64)
        ensures
            w == le_word_spec(xof_bytes(old(self).seed(), old(self).position(), 8)),
            final(self).seed() == old(self).seed(),
            final(self).position() == old(self).position() + 8,
    {
        let mut buf = [0u8; 8];
        xof_read(self, &mut buf);
        proof {
            assert(buf@ =~= xof_bytes(old(self).seed(), old(self).position(), 8));
        }
        le_word(&buf)
    }

    /// The next `n` bytes of the stream.
    pub fn next_bytes(&mut self, n: usize) -> (bytes: Vec<u8>)
        ensures
            bytes@ == xof_bytes(old(self).seed(), old(self).position(), n as nat),
            final(self).seed() == old(self).seed(),
            final(self).position() == old(self).position() + n,
    {
        let mut buf: Vec<u8> = vec![0u8; n];
        xof_read(self, buf.as_mut_slice());
        proof {
            assert(buf@ =~= xof_bytes(old(self).seed(), old(self).position(), n as nat));
        }
        buf
    }
}

/// The little-endian value of eight bytes.
pub open spec fn le_word_spec(b: Seq<u8>) -> u64 {
    (b[0] as int + 256 * (b[1] as int + 256 * (b[2] as int + 256 * (b[3] as int + 256 * (b[4] as int + 256 * (b[5] as int + 256 * (b[6] as int + 256 * (b[7] as int)))))))) as u64
}

/// The little-endian value of eight bytes.
pub fn le_word(b: &[u8; 8]) -> (w: u64)
    ensures
        w == le_word_spec(b@),
{
    let mut w: u64 = 0;
    let mut i: usize = 8;
    while i > 0
        invariant
            0 <= i <= 8,
            b@.len() == 8,
            w as int == le_tail(b@, i as int),
            le_tail(b@, i as int) < pow256(8 - i),
        decreases i,
    {
        i = i - 1;
        proof {
            lemma_le_tail_step(b@, i as int);
        }
        w = w * 256 + b[i] as u64;
    }
    proof {
        lemma_le_tail_all(b@);
    }
    w
}

/// `256^k` for small `k`.
pub open spec fn pow256(k: int) -> int
    decreases k,
{
    if k <= 0 {
        1
    } else {
        256 * pow256(k - 1)
    }
}

/// The little-endian value of the bytes from `i` on.
pub open spec fn le_tail(b: Seq<u8>, i: int) -> int
    decreases 8 - i,
{
    if i >= 8 {
        0
    } else {
        b[i] as int + 256 * le_tail(b, i + 1)
    }
}

proof fn lemma_le_tail_step(b: Seq<u8>, i: int)
    requires
        0 <= i < 8,
        b.len() == 8,
        le_tail(b, i + 1) < pow256(7 - i),
    ensures
        le_tail(b, i) == b[i] as int + 256 * le_tail(b, i + 1),
        le_tail(b, i) < pow256(8 - i),
        le_tail(b, i + 1) * 256 + b[i] as int <= u64::MAX,
{
    assert(pow256(8 - i) == 256 * pow256(7 - i));
    assert(pow256(8) == 0x1_0000_0000_0000_0000) by {
        reveal_with_fuel(pow256, 9);
    }
    assert(pow256(8 - i) <= pow256(8)) by {
        lemma_pow256_mono(8 - i, 8);
    }
}

proof fn lemma_pow256_mono(a: int, b: int)
    requires
        0 <= a <= b,
    ensures
        1 <= pow256(a) <= pow256(b),
    decreases b,
{
    if b > a {
        lemma_pow256_mono(a, b - 1);
    } else if a > 0 {
        lemma_pow256_mono(a - 1, a - 1);
    }
}

proof fn lemma_le_tail_all(b: Seq<u8>)
    requires
        b.len() == 8,
    ensures
        le_tail(b, 0) == b[0] as int + 256 * (b[1] as int + 256 * (b[2] as int + 256 * (b[3] as int + 256 * (b[4] as int + 256 * (b[5] as int + 256 * (b[6] as int + 256 * (b[7] as int))))))),
{
    reveal_with_fuel(le_tail, 9);
}

/// Simulates 64 shots of a circuit at once: each qubit and classical bit is
/// a word with one bit per shot, and `phase` holds each shot's phase flip.
pub struct Simulator {
    pub phase: u64,
    pub qubits: Vec<u64>,
    pub bits: Vec<u64>,
    pub num_qubits: usize,
    pub num_bits: usize,
    pub xof: XofStream,
    pub stats: SimStats,
}

/// Every wire an operation names is one the simulator holds, and the
/// operation is well formed.
pub open spec fn op_fits(op: Op, num_qubits: nat, num_bits: nat) -> bool {
    &&& crate::circuit::op_valid(op)
    &&& crate::circuit::op_qubit_bound(op) <= num_qubits
    &&& crate::circuit::op_bit_bound(op) <= num_bits
}

/// Every operation fits.
pub open spec fn ops_fit(ops: Seq<Op>, num_qubits: nat, num_bits: nat) -> bool {
    forall|i: int| 0 <= i < ops.len() ==> op_fits(#[trigger] ops[i], num_qubits, num_bits)
}

/// The values one operation leaves in the shots of `cond`: phase, qubits and
/// bits, with `rng` the random word a measurement or reset draws.
pub open spec fn value_step(phase: u64, q: Seq<u64>, b: Seq<u64>, op: Op, cond: u64, rng: u64) -> (u64, Seq<u64>, Seq<u64>) {
    let t = op.q_target.0 as int;
    let c1 = op.q_control1.0 as int;
    let c2 = op.q_control2.0 as int;
    let ct = op.c_target.0 as int;
    match op.kind {
        OperationType::CCX => (phase, q.update(t, q[t] ^ (cond & q[c1] & q[c2])), b),
        OperationType::CX => (phase, q.update(t, q[t] ^ (cond & q[c1])), b),
        OperationType::Swap => {
            let a1 = q[c1] ^ q[t];
            let t1 = q[t] ^ (cond & a1);
            let a2 = a1 ^ t1;
            (phase, q.update(c1, a2).update(t, t1), b)
        },
        OperationType::X => (phase, q.update(t, q[t] ^ cond), b),
        OperationType::CCZ => (phase ^ (cond & q[t] & q[c1] & q[c2]), q, b),
        OperationType::CZ => (phase ^ (cond & q[t] & q[c1]), q, b),
        OperationType::Z => (phase ^ (cond & q[t]), q, b),
        OperationType::Neg => (phase ^ cond, q, b),
        OperationType::Hmr => (
            phase ^ (q[t] & rng & cond),
            q.update(t, q[t] & !cond),
            b.update(ct, (b[ct] & !cond) ^ (rng & cond)),
        ),
        OperationType::R => (phase ^ (q[t] & rng & cond), q.update(t, q[t] & !cond), b),
        OperationType::BitInvert => (phase, q, b.update(ct, b[ct] ^ cond)),
        OperationType::BitStore0 => (phase, q, b.update(ct, b[ct] & !cond)),
        OperationType::BitStore1 => (phase, q, b.update(ct, b[ct] | cond)),
        _ => (phase, q, b),
    }
}

/// Whether an operation draws a random word.
pub open spec fn draws_rng(op: Op) -> bool {
    op.kind == OperationType::Hmr || op.kind == OperationType::R
}

/// The state of a simulation run part way through an operation stream.
pub struct SimMachine {
    pub phase: u64,
    pub qubits: Seq<u64>,
    pub bits: Seq<u64>,
    pub base: u64,
    pub base_layers: Seq<u64>,
    pub stack: Seq<(u64, Seq<u64>)>,
    pub qubit_layers: Seq<u64>,
    pub bit_layers: Seq<u64>,
    pub depth: Seq<u64>,
    pub clifford: nat,
    pub toffoli: nat,
    pub ccx: nat,
    pub ccz: nat,
    pub rng_used: nat,
}

/// The shots an operation executes in: the current base condition, and its
/// condition bit when it has one.
pub open spec fn op_cond(m: SimMachine, op: Op) -> u64 {
    if present(op.c_condition.0) {
        m.base & m.bits[op.c_condition.0 as int]
    } else {
        m.base
    }
}

/// The layers at which an operation's condition is known.
pub open spec fn op_cond_layers(m: SimMachine, op: Op) -> Seq<u64> {
    if present(op.c_condition.0) {
        Seq::new(64, |sh: int| max_u64(m.base_layers[sh], m.bit_layers[(op.c_condition.0 as int) * 64 + sh]))
    } else {
        m.base_layers
    }
}

/// One operation of a simulation run, drawing from `rngs` in order.
pub open spec fn machine_step(m: SimMachine, op: Op, rngs: Seq<u64>) -> SimMachine {
    let cond = op_cond(m, op);
    let cl = op_cond_layers(m, op);
    let e = popcount(cond);
    let rng = rngs[m.rng_used as int];
    let v = value_step(m.phase, m.qubits, m.bits, op, cond, rng);
    let l = depth_step(op, cond, cl, m.qubit_layers, m.bit_layers, m.depth);
    let is_t = op.kind == OperationType::CCX || op.kind == OperationType::CCZ;
    let is_c = op.kind == OperationType::CX || op.kind == OperationType::CZ || op.kind == OperationType::Swap
        || op.kind == OperationType::R || op.kind == OperationType::Hmr;
    let (base, base_layers, stack) = if op.kind == OperationType::PushCondition {
        (m.base & v.2[op.c_condition.0 as int], cl, m.stack.push((m.base, m.base_layers)))
    } else if op.kind == OperationType::PopCondition && m.stack.len() > 0 {
        (m.stack.last().0, m.stack.last().1, m.stack.drop_last())
    } else {
        (m.base, m.base_layers, m.stack)
    };
    SimMachine {
        phase: v.0,
        qubits: v.1,
        bits: v.2,
        base,
        base_layers,
        stack,
        qubit_layers: l.0,
        bit_layers: l.1,
        depth: l.2,
        clifford: m.clifford + if is_c { e } else { 0 },
        toffoli: m.toffoli + if is_t { e } else { 0 },
        ccx: m.ccx + if op.kind == OperationType::CCX { e } else { 0 },
        ccz: m.ccz + if op.kind == OperationType::CCZ { e } else { 0 },
        rng_used: m.rng_used + if draws_rng(op) { 1nat } else { 0nat },
    }
}

/// A simulation run over an operation stream.
pub open spec fn machine_run(m: SimMachine, ops: Seq<Op>, rngs: Seq<u64>) -> SimMachine
    decreases ops.len(),
{
    if ops.len() == 0 {
        m
    } else {
        machine_step(machine_run(m, ops.drop_last(), rngs), ops.last(), rngs)
    }
}

/// The state a run starts from: the simulator's values, every shot of
/// `mask` active, and every layer, depth and count zero.
pub open spec fn machine_start(phase: u64, qubits: Seq<u64>, bits: Seq<u64>, mask: u64) -> SimMachine {
    SimMachine {
        phase,
        qubits,
        bits,
        base: mask,
        base_layers: Seq::new(64, |i: int| 0u64),
        stack: Seq::empty(),
        qubit_layers: Seq::new(qubits.len() * 64, |i: int| 0u64),
        bit_layers: Seq::new(bits.len() * 64, |i: int| 0u64),
        depth: Seq::new(64, |i: int| 0u64),
        clifford: 0,
        toffoli: 0,
        ccx: 0,
        ccz: 0,
        rng_used: 0,
    }
}

/// The summed Toffoli depth of the shots of `mask`, over shots below `n`.
pub open spec fn depth_sum(depth: Seq<u64>, mask: u64, n: nat) -> nat
    decreases n,
{
    if n == 0 {
        0
    } else {
        depth_sum(depth, mask, (n - 1) as nat) + if bit_on(mask, n - 1) {
            depth[n - 1] as nat
        } else {
            0nat
        }
    }
}

/// The counters after a run has been added to `stats`.
pub open spec fn stats_after(stats: SimStats, m: SimMachine, mask: u64) -> SimStats {
    SimStats {
        clifford_gates: (stats.clifford_gates + m.clifford) as u64,
        toffoli_gates: (stats.toffoli_gates + m.toffoli) as u64,
        ccx_gates: (stats.ccx_gates + m.ccx) as u64,
        ccz_gates: (stats.ccz_gates + m.ccz) as u64,
        toffoli_depth: (stats.toffoli_depth + depth_sum(m.depth, mask, 64)) as u64,
    }
}

/// Room in every counter for a run of `n` operations.
pub open spec fn stats_room(stats: SimStats, n: nat) -> bool {
    &&& stats.clifford_gates + 64 * n <= u64::MAX
    &&& stats.toffoli_gates + 64 * n <= u64::MAX
    &&& stats.ccx_gates + 64 * n <= u64::MAX
    &&& stats.ccz_gates + 64 * n <= u64::MAX
    &&& stats.toffoli_depth + 64 * n <= u64::MAX
}

impl Simulator {
    /// The simulator's shape: one word per qubit and per bit, and room to
    /// lay out their depth layers.
    pub open spec fn wf(&self) -> bool {
        &&& self.qubits@.len() == self.num_qubits
        &&& self.bits@.len() == self.num_bits
        &&& self.num_qubits * 64 <= usize::MAX
        &&& self.num_bits * 64 <= usize::MAX
    }

    /// A simulator of `num_qubits` qubits and `num_bits` bits, all zero,
    /// drawing random words from `xof`.
    pub fn new(num_qubits: usize, num_bits: usize, xof: XofStream) -> (sim: Self)
        requires
            num_qubits * 64 <= usize::MAX,
            num_bits * 64 <= usize::MAX,
        ensures
            sim.wf(),
            sim.num_qubits == num_qubits,
            sim.num_bits == num_bits,
            sim.phase == 0,
            sim.qubits@ == Seq::new(num_qubits as nat, |i: int| 0u64),
            sim.bits@ == Seq::new(num_bits as nat, |i: int| 0u64),
            sim.stats == zero_stats(),
    {
        let qubits = vec![0u64; num_qubits];
        let bits = vec![0u64; num_bits];
        proof {
            assert(qubits@ =~= Seq::new(num_qubits as nat, |i: int| 0u64));
            assert(bits@ =~= Seq::new(num_bits as nat, |i: int| 0u64));
        }
        Simulator { phase: 0, qubits, bits, num_qubits, num_bits, xof, stats: SimStats::default() }
    }

    /// The word of qubit `id`.
    pub fn qubit(&self, id: QubitId) -> (w: u64)
        requires
            id.0 < self.qubits@.len(),
        ensures
            w == self.qubits@[id.0 as int],
    {
        let len = self.qubits.len();
        assert(id.0 < len);
        self.qubits[id.0 as usize]
    }

    /// The word of bit `id`.
    pub fn bit(&self, id: BitId) -> (w: u64)
        requires
            id.0 < self.bits@.len(),
        ensures
            w == self.bits@[id.0 as int],
    {
        let len = self.bits.len();
        assert(id.0 < len);
        self.bits[id.0 as usize]
    }

    /// Clears every qubit, bit and the phase, keeping the counters.
    pub fn clear_for_shot(&mut self)
        ensures
            final(self).qubits@ == Seq::new(old(self).qubits@.len(), |i: int| 0u64),
            final(self).bits@ == Seq::new(old(self).bits@.len(), |i: int| 0u64),
            final(self).phase == 0,
            final(self).stats == old(self).stats,
            final(self).num_qubits == old(self).num_qubits,
            final(self).num_bits == old(self).num_bits,
    {
        let mut i: usize = 0;
        while i < self.qubits.len()
            invariant
                0 <= i <= self.qubits@.len(),
                self.qubits@.len() == old(self).qubits@.len(),
                forall|j: int| 0 <= j < i ==> self.qubits@[j] == 0,
                self.bits == old(self).bits,
                self.stats == old(self).stats,
                self.num_qubits == old(self).num_qubits,
                self.num_bits == old(self).num_bits,
            decreases self.qubits@.len() - i,
        {
            self.qubits.set(i, 0);
            i = i + 1;
        }
        let mut i: usize = 0;
        while i < self.bits.len()
            invariant
                0 <= i <= self.bits@.len(),
                self.bits@.len() == old(self).bits@.len(),
                forall|j: int| 0 <= j < i ==> self.bits@[j] == 0,
                self.qubits@.len() == old(self).qubits@.len(),
                forall|j: int| 0 <= j < self.qubits@.len() ==> self.qubits@[j] == 0,
                self.stats == old(self).stats,
                self.num_qubits == old(self).num_qubits,
                self.num_bits == old(self).num_bits,
            decreases self.bits@.len() - i,
        {
            self.bits.set(i, 0);
            i = i + 1;
        }
        self.phase = 0;
        proof {
            assert(self.qubits@ =~= Seq::new(old(self).qubits@.len(), |i: int| 0u64));
            assert(self.bits@ =~= Seq::new(old(self).bits@.len(), |i: int| 0u64));
        }
    }
}

/// A copy of a word vector.
fn copy_words(v: &Vec<u64>) -> (c: Vec<u64>)
    ensures
        c@ == v@,
{
    let mut c: Vec<u64> = Vec::new();
    let mut i: usize = 0;
    while i < v.len()
        invariant
            0 <= i <= v@.len(),
            c@ == v@.subrange(0, i as int),
        decreases v@.len() - i,
    {
        c.push(v[i]);
        proof {
            assert(c@ =~= v@.subrange(0, i + 1));
        }
        i = i + 1;
    }
    proof {
        assert(v@.subrange(0, v@.len() as int) =~= v@);
    }
    c
}

/// A present operand of a fitting operation names a word of the simulator.
pub proof fn lemma_fits_in_range(op: Op, nq: nat, nb: nat)
    requires
        op_fits(op, nq, nb),
    ensures
        present(op.q_target.0) ==> op.q_target.0 < nq,
        present(op.q_control1.0) ==> op.q_control1.0 < nq,
        present(op.q_control2.0) ==> op.q_control2.0 < nq,
        present(op.c_target.0) ==> op.c_target.0 < nb,
        present(op.c_condition.0) ==> op.c_condition.0 < nb,
{
}

/// A run draws random words in order; words past those it draws do not
/// matter.
pub proof fn lemma_run_extend(m: SimMachine, ops: Seq<Op>, rngs: Seq<u64>, ext: Seq<u64>)
    requires
        machine_run(m, ops, rngs).rng_used <= rngs.len(),
        rngs.len() <= ext.len(),
        forall|i: int| 0 <= i < rngs.len() ==> ext[i] == rngs[i],
    ensures
        machine_run(m, ops, ext) == machine_run(m, ops, rngs),
    decreases ops.len(),
{
    if ops.len() > 0 {
        let prev = machine_run(m, ops.drop_last(), rngs);
        assert(prev.rng_used <= machine_run(m, ops, rngs).rng_used);
        lemma_run_extend(m, ops.drop_last(), rngs, ext);
        if draws_rng(ops.last()) {
            assert(ext[prev.rng_used as int] == rngs[prev.rng_used as int]);
        }
    }
}

impl Simulator {
    /// The word of qubit `id`, to read or overwrite.
    pub fn qubit_mut(&mut self, id: QubitId) -> (w: &mut u64)
        requires
            id.0 < old(self).qubits@.len(),
        ensures
            *w == old(self).qubits@[id.0 as int],
            final(self).qubits@ == old(self).qubits@.update(id.0 as int, *final(w)),
            final(self).bits == old(self).bits,
            final(self).phase == old(self).phase,
            final(self).stats == old(self).stats,
            final(self).num_qubits == old(self).num_qubits,
            final(self).num_bits == old(self).num_bits,
    {
        let len = self.qubits.len();
        assert(id.0 < len);
        &mut self.qubits[id.0 as usize]
    }

    /// The word of bit `id`, to read or overwrite.
    pub fn bit_mut(&mut self, id: BitId) -> (w: &mut u64)
        requires
            id.0 < old(self).bits@.len(),
        ensures
            *w == old(self).bits@[id.0 as int],
            final(self).bits@ == old(self).bits@.update(id.0 as int, *final(w)),
            final(self).qubits == old(self).qubits,
            final(self).phase == old(self).phase,
            final(self).stats == old(self).stats,
            final(self).num_qubits == old(self).num_qubits,
            final(self).num_bits == old(self).num_bits,
    {
        let len = self.bits.len();
        assert(id.0 < len);
        &mut self.bits[id.0 as usize]
    }

    /// Applies one operation's effect on the values in the shots of `cond`,
    /// with `rng` the random word a measurement or reset draws.
    fn apply_values(&mut self, op: &Op, cond: u64, rng: u64)
        requires
            old(self).wf(),
            op_fits(*op, old(self).num_qubits as nat, old(self).num_bits as nat),
        ensures
            final(self).wf(),
            (final(self).phase, final(self).qubits@, final(self).bits@) == value_step(
                old(self).phase,
                old(self).qubits@,
                old(self).bits@,
                *op,
                cond,
                rng,
            ),
            final(self).num_qubits == old(self).num_qubits,
            final(self).num_bits == old(self).num_bits,
            final(self).stats == old(self).stats,
            final(self).xof == old(self).xof,
    {
        proof {
            lemma_fits_in_range(*op, self.num_qubits as nat, self.num_bits as nat);
        }
        let nq = self.qubits.len();
        let nb = self.bits.len();
        let t = op.q_target.0 as usize;
        let c1 = op.q_control1.0 as usize;
        let c2 = op.q_control2.0 as usize;
        let ct = op.c_target.0 as usize;
        match op.kind {
            OperationType::CCX => {
                let v = cond & self.qubits[c1] & self.qubits[c2];
                let old_t = self.qubits[t];
                self.qubits.set(t, old_t ^ v);
            },
            OperationType::CX => {
                let v = cond & self.qubits[c1];
                let old_t = self.qubits[t];
                self.qubits.set(t, old_t ^ v);
            },
            OperationType::Swap => {
                let mut q_c1 = self.qubits[c1];
                let mut q_t = self.qubits[t];
                q_c1 = q_c1 ^ q_t;
                q_t = q_t ^ (cond & q_c1);
                q_c1 = q_c1 ^ q_t;
                self.qubits.set(c1, q_c1);
                self.qubits.set(t, q_t);
            },
            OperationType::X => {
                let old_t = self.qubits[t];
                self.qubits.set(t, old_t ^ cond);
            },
            OperationType::CCZ => {
                let v = cond & self.qubits[t] & self.qubits[c1] & self.qubits[c2];
                self.phase = self.phase ^ v;
            },
            OperationType::CZ => {
                let v = cond & self.qubits[t] & self.qubits[c1];
                self.phase = self.phase ^ v;
            },
            OperationType::Z => {
                let v = cond & self.qubits[t];
                self.phase = self.phase ^ v;
            },
            OperationType::Neg => {
                self.phase = self.phase ^ cond;
            },
            OperationType::Hmr => {
                let b0 = self.bits[ct];
                self.bits.set(ct, b0 & !cond);
                let b1 = self.bits[ct];
                self.bits.set(ct, b1 ^ (rng & cond));
                self.phase = self.phase ^ (self.qubits[t] & rng & cond);
                let q0 = self.qubits[t];
                self.qubits.set(t, q0 & !cond);
            },
            OperationType::R => {
                self.phase = self.phase ^ (self.qubits[t] & rng & cond);
                let q0 = self.qubits[t];
                self.qubits.set(t, q0 & !cond);
            },
            OperationType::BitInvert => {
                let b0 = self.bits[ct];
                self.bits.set(ct, b0 ^ cond);
            },
            OperationType::BitStore0 => {
                let b0 = self.bits[ct];
                self.bits.set(ct, b0 & !cond);
            },
            OperationType::BitStore1 => {
                let b0 = self.bits[ct];
                self.bits.set(ct, b0 | cond);
            },
            _ => {},
        }
        proof {
            let v = value_step(old(self).phase, old(self).qubits@, old(self).bits@, *op, cond, rng);
            if op.kind == OperationType::Swap {
                assert(self.qubits@ =~= v.1);
            }
            if op.kind == OperationType::Hmr {
                assert(self.bits@ =~= v.2);
            }
        }
    }
}

/// The shots an operation executes in and the layers its condition is known
/// at, from the base condition and the condition bit when it has one.
fn condition_of(op: &Op, base: u64, base_layers: &Vec<u64>, bits: &Vec<u64>, bit_layers: &Vec<u64>) -> (r: (u64, Vec<u64>))
    requires
        base_layers@.len() == 64,
        bit_layers@.len() == bits@.len() * 64,
        present(op.c_condition.0) ==> op.c_condition.0 < bits@.len(),
    ensures
        r.0 == (if present(op.c_condition.0) {
            base & bits@[op.c_condition.0 as int]
        } else {
            base
        }),
        r.1@ == (if present(op.c_condition.0) {
            Seq::new(64, |sh: int| max_u64(base_layers@[sh], bit_layers@[(op.c_condition.0 as int) * 64 + sh]))
        } else {
            base_layers@
        }),
{
    let mut cond = base;
    let mut cond_layers = copy_words(base_layers);
    if op.c_condition.0 != NO_INDEX {
        let nb = bits.len();
        assert(op.c_condition.0 < nb);
        let c = op.c_condition.0 as usize;
        cond = cond & bits[c];
        let bll = bit_layers.len();
        proof {
            assert((c as int) * 64 < bll) by (nonlinear_arith)
                requires
                    c < nb,
                    bll == nb * 64,
            ;
        }
        let row = c * 64;
        let mut shot: usize = 0;
        while shot < 64
            invariant
                0 <= shot <= 64,
                row == c * 64,
                c < nb,
                nb == bits@.len(),
                bit_layers@.len() == nb * 64,
                base_layers@.len() == 64,
                c == op.c_condition.0,
                cond_layers@ == Seq::new(
                    64,
                    |sh: int|
                        if sh < shot {
                            max_u64(base_layers@[sh], bit_layers@[(c as int) * 64 + sh])
                        } else {
                            base_layers@[sh]
                        },
                ),
            decreases 64 - shot,
        {
            proof {
                assert((c as int) * 64 + 64 <= nb * 64) by (nonlinear_arith)
                    requires
                        c < nb,
                ;
            }
            let bl = bit_layers[row + shot];
            if bl > cond_layers[shot] {
                cond_layers.set(shot, bl);
            }
            proof {
                assert(cond_layers@ =~= Seq::new(
                    64,
                    |sh: int|
                        if sh < shot + 1 {
                            max_u64(base_layers@[sh], bit_layers@[(c as int) * 64 + sh])
                        } else {
                            base_layers@[sh]
                        },
                ));
            }
            shot = shot + 1;
        }
        proof {
            assert(cond_layers@ =~= Seq::new(64, |sh: int| max_u64(base_layers@[sh], bit_layers@[(op.c_condition.0 as int) * 64 + sh])));
        }
    }
    (cond, cond_layers)
}

/// Every layer of a run is at most `k`, its layer sequences have their
/// shapes, and each gate count is at most `64 k`.
pub open spec fn machine_bounded(m: SimMachine, k: int, nq: nat, nb: nat) -> bool {
    &&& m.base_layers.len() == 64
    &&& all_le(m.base_layers, k)
    &&& m.qubit_layers.len() == nq * 64
    &&& all_le(m.qubit_layers, k)
    &&& m.bit_layers.len() == nb * 64
    &&& all_le(m.bit_layers, k)
    &&& m.depth.len() == 64
    &&& all_le(m.depth, k)
    &&& forall|i: int| 0 <= i < m.stack.len() ==> (#[trigger] m.stack[i]).1.len() == 64 && all_le(m.stack[i].1, k)
    &&& m.clifford <= 64 * k
    &&& m.toffoli <= 64 * k
    &&& m.ccx <= 64 * k
    &&& m.ccz <= 64 * k
}

/// A word has at most `n` set bits among its low `n`.
pub proof fn lemma_popcount_le(w: u64, n: nat)
    ensures
        popcount_below(w, n) <= n,
    decreases n,
{
    if n > 0 {
        lemma_popcount_le(w, (n - 1) as nat);
    }
}

/// A run starts bounded by zero.
pub proof fn lemma_start_bounded(phase: u64, q: Seq<u64>, b: Seq<u64>, mask: u64)
    ensures
        machine_bounded(machine_start(phase, q, b, mask), 0, q.len(), b.len()),
{
}

/// One operation raises every bound by at most one.
pub proof fn lemma_step_bounded(m: SimMachine, op: Op, rngs: Seq<u64>, k: int, nq: nat, nb: nat)
    requires
        0 <= k < u64::MAX,
        machine_bounded(m, k, nq, nb),
        op_fits(op, nq, nb),
    ensures
        machine_bounded(machine_step(m, op, rngs), k + 1, nq, nb),
{
    let cond = op_cond(m, op);
    let cl = op_cond_layers(m, op);
    assert(cl.len() == 64 && all_le(cl, k)) by {
        if crate::circuit::present(op.c_condition.0) {
            assert forall|sh: int| 0 <= sh < 64 implies #[trigger] cl[sh] <= k by {
                assert((op.c_condition.0 as int) * 64 + sh < nb * 64) by (nonlinear_arith)
                    requires
                        op.c_condition.0 < nb,
                        0 <= sh < 64,
                ;
            }
        }
    }
    lemma_depth_step_bounds(op, cond, cl, m.qubit_layers, m.bit_layers, m.depth, k);
    lemma_popcount_le(cond, 64);
    let n = machine_step(m, op, rngs);
    assert forall|i: int| 0 <= i < m.base_layers.len() implies #[trigger] m.base_layers[i] <= k + 1 by {}
    assert forall|i: int| 0 <= i < n.stack.len() implies (#[trigger] n.stack[i]).1.len() == 64 && all_le(n.stack[i].1, k + 1) by {
        if op.kind == OperationType::PushCondition && i == m.stack.len() {
            assert(n.stack[i] == (m.base, m.base_layers));
        } else {
            assert(n.stack[i] == m.stack[i]);
        }
    }
    if op.kind == OperationType::PopCondition && m.stack.len() > 0 {
        assert(m.stack[m.stack.len() - 1] == m.stack.last());
    }
}

/// A run of `ops` from a bounded start is bounded by their number.
pub proof fn lemma_run_bounded(m: SimMachine, ops: Seq<Op>, rngs: Seq<u64>, nq: nat, nb: nat)
    requires
        machine_bounded(m, 0, nq, nb),
        ops_fit(ops, nq, nb),
        ops.len() < u64::MAX,
    ensures
        machine_bounded(machine_run(m, ops, rngs), ops.len() as int, nq, nb),
    decreases ops.len(),
{
    if ops.len() > 0 {
        assert forall|i: int| 0 <= i < ops.drop_last().len() implies op_fits(#[trigger] ops.drop_last()[i], nq, nb) by {
            assert(ops.drop_last()[i] == ops[i]);
        }
        lemma_run_bounded(m, ops.drop_last(), rngs, nq, nb);
        assert(op_fits(ops[ops.len() - 1], nq, nb));
        lemma_step_bounded(machine_run(m, ops.drop_last(), rngs), ops.last(), rngs, ops.len() - 1, nq, nb);
    }
}

/// The Toffoli depths of the first `n` shots sum to at most `n k` when each
/// is at most `k`.
pub proof fn lemma_depth_sum_le(d: Seq<u64>, mask: u64, n: nat, k: int)
    requires
        n <= d.len(),
        0 <= k,
        all_le(d, k),
    ensures
        depth_sum(d, mask, n) <= n * k,
    decreases n,
{
    if n > 0 {
        lemma_depth_sum_le(d, mask, (n - 1) as nat, k);
        assert(d[n - 1] <= k);
        assert((n - 1) * k + k == n * k) by (nonlinear_arith);
    }
}

/// A run of `ops` adds at most `64` per operation to each counter.
pub proof fn lemma_run_counts(phase: u64, q: Seq<u64>, b: Seq<u64>, mask: u64, ops: Seq<Op>, rngs: Seq<u64>)
    requires
        ops_fit(ops, q.len(), b.len()),
        ops.len() < u64::MAX,
    ensures
        ({
            let m = machine_run(machine_start(phase, q, b, mask), ops, rngs);
            &&& m.clifford <= 64 * ops.len()
            &&& m.toffoli <= 64 * ops.len()
            &&& m.ccx <= 64 * ops.len()
            &&& m.ccz <= 64 * ops.len()
            &&& depth_sum(m.depth, mask, 64) <= 64 * ops.len()
        }),
{
    lemma_start_bounded(phase, q, b, mask);
    lemma_run_bounded(machine_start(phase, q, b, mask), ops, rngs, q.len(), b.len());
    let m = machine_run(machine_start(phase, q, b, mask), ops, rngs);
    lemma_depth_sum_le(m.depth, mask, 64, ops.len() as int);
}

impl Simulator {
    /// Runs `ops` on every shot.
    pub fn apply_iter(&mut self, ops: &[Op])
        requires
            old(self).wf(),
            ops_fit(ops@, old(self).num_qubits as nat, old(self).num_bits as nat),
            stats_room(old(self).stats, ops@.len()),
        ensures
            final(self).wf(),
            final(self).num_qubits == old(self).num_qubits,
            final(self).num_bits == old(self).num_bits,
            final(self).xof.seed() == old(self).xof.seed(),
            exists|rngs: Seq<u64>|
                #![trigger machine_run(machine_start(old(self).phase, old(self).qubits@, old(self).bits@, u64::MAX), ops@, rngs)]
                {
                    let m = machine_run(machine_start(old(self).phase, old(self).qubits@, old(self).bits@, u64::MAX), ops@, rngs);
                    &&& rngs == xof_words(old(self).xof.seed(), old(self).xof.position(), rngs.len())
                    &&& m.rng_used == rngs.len()
                    &&& final(self).xof.position() == old(self).xof.position() + 8 * rngs.len()
                    &&& final(self).phase == m.phase
                    &&& final(self).qubits@ == m.qubits
                    &&& final(self).bits@ == m.bits
                    &&& final(self).stats == stats_after(old(self).stats, m, u64::MAX)
                },
    {
        self.apply_iter_masked(ops, u64::MAX);
    }

    /// Runs `ops` on the shots of `active_mask`: each operation runs in the
    /// shots of the current condition, counts its executed gates, advances
    /// the depth layers, and changes phase, qubits and bits; at the end each
    /// active shot's Toffoli depth is added to the counters. Measurements and
    /// resets draw random words from the stream.
    pub fn apply_iter_masked(&mut self, ops: &[Op], active_mask: u64)
        requires
            old(self).wf(),
            ops_fit(ops@, old(self).num_qubits as nat, old(self).num_bits as nat),
            stats_room(old(self).stats, ops@.len()),
        ensures
            final(self).wf(),
            final(self).num_qubits == old(self).num_qubits,
            final(self).num_bits == old(self).num_bits,
            final(self).xof.seed() == old(self).xof.seed(),
            exists|rngs: Seq<u64>|
                #![trigger machine_run(machine_start(old(self).phase, old(self).qubits@, old(self).bits@, active_mask), ops@, rngs)]
                {
                    let m = machine_run(machine_start(old(self).phase, old(self).qubits@, old(self).bits@, active_mask), ops@, rngs);
                    &&& rngs == xof_words(old(self).xof.seed(), old(self).xof.position(), rngs.len())
                    &&& m.rng_used == rngs.len()
                    &&& final(self).xof.position() == old(self).xof.position() + 8 * rngs.len()
                    &&& final(self).phase == m.phase
                    &&& final(self).qubits@ == m.qubits
                    &&& final(self).bits@ == m.bits
                    &&& final(self).stats == stats_after(old(self).stats, m, active_mask)
                },
    {
        let ghost m0 = machine_start(self.phase, self.qubits@, self.bits@, active_mask);
        let ghost mut rngs: Seq<u64> = Seq::empty();
        let ghost mut m = m0;
        let mut condition_stack: Vec<(u64, Vec<u64>)> = Vec::new();
        let mut current_base_condition = active_mask;
        let mut current_base_condition_layers: Vec<u64> = vec![0u64; 64];
        let mut qubit_layers: Vec<u64> = vec![0u64; self.num_qubits * 64];
        let mut bit_layers: Vec<u64> = vec![0u64; self.num_bits * 64];
        let mut batch_toffoli_depth: Vec<u64> = vec![0u64; 64];
        let ghost n = ops@.len();
        proof {
            assert(current_base_condition_layers@ =~= m0.base_layers);
            assert(qubit_layers@ =~= m0.qubit_layers);
            assert(bit_layers@ =~= m0.bit_layers);
            assert(batch_toffoli_depth@ =~= m0.depth);
            assert(ops@.take(0) =~= Seq::<Op>::empty());
        }
        let mut i: usize = 0;
        while i < ops.len()
            invariant
                0 <= i <= n,
                n == ops@.len(),
                self.wf(),
                self.num_qubits == old(self).num_qubits,
                self.num_bits == old(self).num_bits,
                ops_fit(ops@, self.num_qubits as nat, self.num_bits as nat),
                stats_room(old(self).stats, n),
                m0 == machine_start(old(self).phase, old(self).qubits@, old(self).bits@, active_mask),
                m == machine_run(m0, ops@.take(i as int), rngs),
                m.rng_used == rngs.len(),
                rngs == xof_words(old(self).xof.seed(), old(self).xof.position(), rngs.len()),
                self.xof.seed() == old(self).xof.seed(),
                self.xof.position() == old(self).xof.position() + 8 * rngs.len(),
                self.phase == m.phase,
                self.qubits@ == m.qubits,
                self.bits@ == m.bits,
                current_base_condition == m.base,
                current_base_condition_layers@ == m.base_layers,
                condition_stack@.len() == m.stack.len(),
                forall|j: int| 0 <= j < condition_stack@.len() ==> (#[trigger] condition_stack@[j]).0 == m.stack[j].0 && condition_stack@[j].1@ == m.stack[j].1,
                qubit_layers@ == m.qubit_layers,
                bit_layers@ == m.bit_layers,
                batch_toffoli_depth@ == m.depth,
                m.base_layers.len() == 64,
                m.depth.len() == 64,
                m.qubit_layers.len() == self.num_qubits * 64,
                m.bit_layers.len() == self.num_bits * 64,
                forall|j: int| 0 <= j < m.stack.len() ==> (#[trigger] m.stack[j]).1.len() == 64 && all_le(m.stack[j].1, i as int),
                all_le(m.base_layers, i as int),
                all_le(m.qubit_layers, i as int),
                all_le(m.bit_layers, i as int),
                all_le(m.depth, i as int),
                m.clifford <= 64 * i,
                m.toffoli <= 64 * i,
                m.ccx <= 64 * i,
                m.ccz <= 64 * i,
                self.stats.clifford_gates == old(self).stats.clifford_gates + m.clifford,
                self.stats.toffoli_gates == old(self).stats.toffoli_gates + m.toffoli,
                self.stats.ccx_gates == old(self).stats.ccx_gates + m.ccx,
                self.stats.ccz_gates == old(self).stats.ccz_gates + m.ccz,
                self.stats.toffoli_depth == old(self).stats.toffoli_depth,
            decreases n - i,
        {
            let op = ops[i];
            proof {
                assert(op_fits(ops@[i as int], self.num_qubits as nat, self.num_bits as nat));
                lemma_fits_in_range(op, self.num_qubits as nat, self.num_bits as nat);
            }
            let (cond, cond_layers) = condition_of(&op, current_base_condition, &current_base_condition_layers, &self.bits, &bit_layers);
            proof {
                assert(cond == op_cond(m, op));
                assert(cond_layers@ == op_cond_layers(m, op));
                if present(op.c_condition.0) {
                    assert forall|sh: int| 0 <= sh < 64 implies #[trigger] cond_layers@[sh] <= i by {
                        assert(m.base_layers[sh] <= i);
                        assert(((op.c_condition.0 as int) * 64 + sh) < m.bit_layers.len()) by (nonlinear_arith)
                            requires
                                op.c_condition.0 < self.num_bits,
                                0 <= sh < 64,
                                m.bit_layers.len() == self.num_bits * 64,
                        ;
                        assert(m.bit_layers[(op.c_condition.0 as int) * 64 + sh] <= i);
                    }
                }
            }
            let executed_shots = count_ones(cond);
            match op.kind {
                OperationType::CCX => {
                    self.stats.toffoli_gates = self.stats.toffoli_gates + executed_shots;
                    self.stats.ccx_gates = self.stats.ccx_gates + executed_shots;
                },
                OperationType::CCZ => {
                    self.stats.toffoli_gates = self.stats.toffoli_gates + executed_shots;
                    self.stats.ccz_gates = self.stats.ccz_gates + executed_shots;
                },
                OperationType::CX | OperationType::CZ | OperationType::Swap | OperationType::R
                | OperationType::Hmr => {
                    self.stats.clifford_gates = self.stats.clifford_gates + executed_shots;
                },
                _ => {},
            }
            let ghost ql0 = qubit_layers@;
            let ghost bl0 = bit_layers@;
            let ghost d0 = batch_toffoli_depth@;
            proof {
                lemma_depth_step_bounds(op, cond, cond_layers@, ql0, bl0, d0, i as int);
            }
            update_depth_layers(&op, cond, &cond_layers, &mut qubit_layers, &mut bit_layers, &mut batch_toffoli_depth, Ghost(i as int));
            let ghost rngs_old = rngs;
            let rng = if op.kind == OperationType::Hmr || op.kind == OperationType::R {
                let r = self.xof.next_u64();
                proof {
                    rngs = rngs.push(r);
                    assert(rngs =~= xof_words(old(self).xof.seed(), old(self).xof.position(), rngs.len()));
                }
                r
            } else {
                0
            };
            proof {
                assert(rngs[m.rng_used as int] == rng || !draws_rng(op));
            }
            self.apply_values(&op, cond, rng);
            match op.kind {
                OperationType::PushCondition => {
                    let saved = (current_base_condition, current_base_condition_layers);
                    condition_stack.push(saved);
                    let c = op.c_condition.0 as usize;
                    current_base_condition = current_base_condition & self.bits[c];
                    current_base_condition_layers = cond_layers;
                },
                OperationType::PopCondition => {
                    match condition_stack.pop() {
                        Some(val) => {
                            current_base_condition = val.0;
                            current_base_condition_layers = val.1;
                        },
                        None => {},
                    }
                },
                _ => {},
            }
            proof {
                let mprev = m;
                let take1 = ops@.take(i + 1);
                assert(take1.drop_last() =~= ops@.take(i as int));
                assert(take1.last() == op);
                lemma_run_extend(m0, ops@.take(i as int), rngs_old, rngs);
                m = machine_step(mprev, op, rngs);
                assert(m == machine_run(m0, take1, rngs));
                assert forall|j: int| 0 <= j < condition_stack@.len() implies (#[trigger] condition_stack@[j]).0 == m.stack[j].0 && condition_stack@[j].1@ == m.stack[j].1 by {
                    if op.kind == OperationType::PopCondition {
                        assert(m.stack == mprev.stack.drop_last());
                    }
                }
                assert(all_le(m.base_layers, i + 1)) by {
                    if op.kind == OperationType::PopCondition && mprev.stack.len() > 0 {
                        assert(mprev.stack.last() == mprev.stack[mprev.stack.len() - 1]);
                    }
                }
                assert forall|j: int| 0 <= j < m.stack.len() implies (#[trigger] m.stack[j]).1.len() == 64 && all_le(m.stack[j].1, i + 1) by {
                    if op.kind == OperationType::PushCondition && j == mprev.stack.len() {
                    } else {
                        assert(m.stack[j] == mprev.stack[j]);
                    }
                }
            }
            i = i + 1;
        }
        let mut shot: usize = 0;
        let ghost depth_start = self.stats.toffoli_depth;
        while shot < 64
            invariant
                0 <= shot <= 64,
                self.wf(),
                self.num_qubits == old(self).num_qubits,
                self.num_bits == old(self).num_bits,
                self.phase == m.phase,
                self.qubits@ == m.qubits,
                self.bits@ == m.bits,
                m.rng_used == rngs.len(),
                rngs == xof_words(old(self).xof.seed(), old(self).xof.position(), rngs.len()),
                self.xof.seed() == old(self).xof.seed(),
                self.xof.position() == old(self).xof.position() + 8 * rngs.len(),
                batch_toffoli_depth@ == m.depth,
                m.depth.len() == 64,
                all_le(m.depth, n as int),
                stats_room(old(self).stats, n),
                depth_start == old(self).stats.toffoli_depth,
                self.stats.toffoli_depth == depth_start + depth_sum(m.depth, active_mask, shot as nat),
                depth_sum(m.depth, active_mask, shot as nat) <= n * shot,
                self.stats.clifford_gates == old(self).stats.clifford_gates + m.clifford,
                self.stats.toffoli_gates == old(self).stats.toffoli_gates + m.toffoli,
                self.stats.ccx_gates == old(self).stats.ccx_gates + m.ccx,
                self.stats.ccz_gates == old(self).stats.ccz_gates + m.ccz,
            decreases 64 - shot,
        {
            if (active_mask >> (shot as u64)) & 1 != 0 {
                proof {
                    assert(m.depth[shot as int] <= n);
                    assert(n * shot + n <= 64 * n) by (nonlinear_arith)
                        requires
                            shot < 64,
                    ;
                }
                self.stats.toffoli_depth = self.stats.toffoli_depth + batch_toffoli_depth[shot];
            }
            proof {
                assert(n * shot + n == n * (shot + 1)) by (nonlinear_arith);
            }
            shot = shot + 1;
        }
        proof {
            assert(ops@.take(n as int) =~= ops@);
            assert(self.stats == stats_after(old(self).stats, m, active_mask));
        }
    }
}

/// A 256-bit register value as four little-endian 64-bit limbs.
pub type Word256 = [u64; 4];

/// Bit `i` of a 256-bit value; bits past 255 read false.
pub open spec fn word_bit(val: [u64; 4], i: int) -> bool {
    0 <= i < 256 && bit_on(val[i / 64], i % 64)
}

/// `w` with shot `shot` set to `v`.
pub open spec fn set_shot(w: u64, shot: u64, v: bool) -> u64 {
    if v {
        w | (1u64 << shot)
    } else {
        w & !(1u64 << shot)
    }
}

/// The words after writing bit `i` of `val` into shot `shot` of wire
/// `reg[i]`, for each `i < n` in order.
pub open spec fn reg_write(q: Seq<u64>, b: Seq<u64>, reg: Seq<QubitOrBit>, val: [u64; 4], shot: u64, n: nat) -> (Seq<u64>, Seq<u64>)
    decreases n,
{
    if n == 0 {
        (q, b)
    } else {
        let prev = reg_write(q, b, reg, val, shot, (n - 1) as nat);
        let v = word_bit(val, n - 1);
        match reg[n - 1] {
            QubitOrBit::Qubit(id) => (prev.0.update(id.0 as int, set_shot(prev.0[id.0 as int], shot, v)), prev.1),
            QubitOrBit::Bit(id) => (prev.0, prev.1.update(id.0 as int, set_shot(prev.1[id.0 as int], shot, v))),
        }
    }
}

/// Every wire of a register is one the simulator holds.
pub open spec fn reg_fits(reg: Seq<QubitOrBit>, num_qubits: nat, num_bits: nat) -> bool {
    forall|i: int|
        0 <= i < reg.len() ==> match #[trigger] reg[i] {
            QubitOrBit::Qubit(id) => id.0 < num_qubits,
            QubitOrBit::Bit(id) => id.0 < num_bits,
        }
}

/// The word a wire holds.
pub open spec fn wire_word(q: Seq<u64>, b: Seq<u64>, wire: QubitOrBit) -> u64 {
    match wire {
        QubitOrBit::Qubit(id) => q[id.0 as int],
        QubitOrBit::Bit(id) => b[id.0 as int],
    }
}

proof fn lemma_set_shot(w: u64, shot: u64, v: bool)
    requires
        shot < 64,
    ensures
        bit_on(set_shot(w, shot, v), shot as int) == v,
        forall|j: u64| j < 64 && j != shot ==> #[trigger] bit_on(set_shot(w, shot, v), j as int) == bit_on(w, j as int),
{
    if v {
        assert(((w | (1u64 << shot)) >> shot) & 1 != 0) by (bit_vector)
            requires
                shot < 64,
        ;
        assert forall|j: u64| j < 64 && j != shot implies #[trigger] bit_on(set_shot(w, shot, v), j as int) == bit_on(w, j as int) by {
            assert((((w | (1u64 << shot)) >> j) & 1 != 0) == ((w >> j) & 1 != 0)) by (bit_vector)
                requires
                    shot < 64,
                    j < 64,
                    j != shot,
            ;
        }
    } else {
        assert(((w & !(1u64 << shot)) >> shot) & 1 == 0) by (bit_vector)
            requires
                shot < 64,
        ;
        assert forall|j: u64| j < 64 && j != shot implies #[trigger] bit_on(set_shot(w, shot, v), j as int) == bit_on(w, j as int) by {
            assert((((w & !(1u64 << shot)) >> j) & 1 != 0) == ((w >> j) & 1 != 0)) by (bit_vector)
                requires
                    shot < 64,
                    j < 64,
                    j != shot,
            ;
        }
    }
}

/// Setting one bit of a limb value changes that bit alone.
proof fn lemma_set_limb_bit(v0: [u64; 4], v: [u64; 4], i: int, b: bool)
    requires
        0 <= i < 256,
        b ==> v@ == v0@.update(i / 64, v0[i / 64] | (1u64 << ((i % 64) as u64))),
        !b ==> v == v0,
    ensures
        forall|j: int| 0 <= j < 256 && j != i ==> #[trigger] word_bit(v, j) == word_bit(v0, j),
        word_bit(v, i) == (b || word_bit(v0, i)),
{
    if b {
        let limb = i / 64;
        let pos = (i % 64) as u64;
        lemma_set_shot(v0[limb], pos, true);
        assert(v[limb] == set_shot(v0[limb], pos, true));
        assert forall|j: int| 0 <= j < 256 && j != i implies #[trigger] word_bit(v, j) == word_bit(v0, j) by {
            if j / 64 == limb {
                let k = (j % 64) as u64;
                assert(k != pos);
                assert(bit_on(set_shot(v0[limb], pos, true), k as int) == bit_on(v0[limb], k as int));
            } else {
                assert(v[j / 64] == v0[j / 64]);
            }
        }
    }
}

impl Simulator {
    /// Writes `val` into shot `shot_idx` of the wires of `reg`, least
    /// significant bit first; a wire named twice keeps the later write.
    pub fn set_register(&mut self, reg: &[QubitOrBit], val: [u64; 4], shot_idx: usize)
        requires
            old(self).wf(),
            shot_idx < 64,
            reg_fits(reg@, old(self).num_qubits as nat, old(self).num_bits as nat),
        ensures
            final(self).wf(),
            (final(self).qubits@, final(self).bits@) == reg_write(old(self).qubits@, old(self).bits@, reg@, val, shot_idx as u64, reg@.len()),
            final(self).phase == old(self).phase,
            final(self).stats == old(self).stats,
            final(self).num_qubits == old(self).num_qubits,
            final(self).num_bits == old(self).num_bits,
            final(self).xof == old(self).xof,
    {
        let mut i: usize = 0;
        let shot = shot_idx as u64;
        while i < reg.len()
            invariant
                0 <= i <= reg@.len(),
                shot == shot_idx as u64,
                shot < 64,
                self.wf(),
                reg_fits(reg@, self.num_qubits as nat, self.num_bits as nat),
                (self.qubits@, self.bits@) == reg_write(old(self).qubits@, old(self).bits@, reg@, val, shot, i as nat),
                self.phase == old(self).phase,
                self.stats == old(self).stats,
                self.num_qubits == old(self).num_qubits,
                self.num_bits == old(self).num_bits,
                self.xof == old(self).xof,
            decreases reg@.len() - i,
        {
            let bit_val = if i < 256 {
                (val[i / 64] >> ((i % 64) as u64)) & 1 != 0
            } else {
                false
            };
            proof {
                assert(bit_val == word_bit(val, i as int));
                assert(match reg@[i as int] {
                    QubitOrBit::Qubit(id) => id.0 < self.num_qubits,
                    QubitOrBit::Bit(id) => id.0 < self.num_bits,
                });
            }
            match reg[i] {
                QubitOrBit::Qubit(id) => {
                    let len = self.qubits.len();
                    assert(id.0 < len);
                    let w = self.qubits[id.0 as usize];
                    let nw = if bit_val {
                        w | (1u64 << shot)
                    } else {
                        w & !(1u64 << shot)
                    };
                    self.qubits.set(id.0 as usize, nw);
                },
                QubitOrBit::Bit(id) => {
                    let len = self.bits.len();
                    assert(id.0 < len);
                    let w = self.bits[id.0 as usize];
                    let nw = if bit_val {
                        w | (1u64 << shot)
                    } else {
                        w & !(1u64 << shot)
                    };
                    self.bits.set(id.0 as usize, nw);
                },
            }
            i = i + 1;
        }
    }

    /// Reads shot `shot_idx` of the wires of `reg` as a value, least
    /// significant bit first.
    pub fn get_register(&self, reg: &[QubitOrBit], shot_idx: usize) -> (v: [u64; 4])
        requires
            self.wf(),
            shot_idx < 64,
            reg@.len() <= 256,
            reg_fits(reg@, self.num_qubits as nat, self.num_bits as nat),
        ensures
            forall|i: int|
                0 <= i < 256 ==> #[trigger] word_bit(v, i) == (i < reg@.len() && bit_on(
                    wire_word(self.qubits@, self.bits@, reg@[i]),
                    shot_idx as int,
                )),
    {
        let mut v: [u64; 4] = [0u64; 4];
        let mut i: usize = 0;
        let shot = shot_idx as u64;
        proof {
            assert forall|j: int| 0 <= j < 256 implies !#[trigger] word_bit(v, j) by {
                let k = (j % 64) as u64;
                assert(v[j / 64] == 0);
                assert((0u64 >> k) & 1 == 0) by (bit_vector);
            }
        }
        while i < reg.len()
            invariant
                0 <= i <= reg@.len() <= 256,
                shot == shot_idx as u64,
                shot < 64,
                self.wf(),
                reg_fits(reg@, self.num_qubits as nat, self.num_bits as nat),
                forall|j: int|
                    0 <= j < 256 ==> #[trigger] word_bit(v, j) == (j < i && bit_on(
                        wire_word(self.qubits@, self.bits@, reg@[j]),
                        shot_idx as int,
                    )),
            decreases reg@.len() - i,
        {
            proof {
                assert(match reg@[i as int] {
                    QubitOrBit::Qubit(id) => id.0 < self.num_qubits,
                    QubitOrBit::Bit(id) => id.0 < self.num_bits,
                });
            }
            let w = match reg[i] {
                QubitOrBit::Qubit(id) => {
                    let len = self.qubits.len();
                    assert(id.0 < len);
                    self.qubits[id.0 as usize]
                },
                QubitOrBit::Bit(id) => {
                    let len = self.bits.len();
                    assert(id.0 < len);
                    self.bits[id.0 as usize]
                },
            };
            let bit_val = (w >> shot) & 1 != 0;
            let limb = i / 64;
            let pos = (i % 64) as u64;
            let ghost v0 = v;
            if bit_val {
                v[limb] = v[limb] | (1u64 << pos);
            }
            proof {
                assert(bit_val == bit_on(wire_word(self.qubits@, self.bits@, reg@[i as int]), shot_idx as int));
                lemma_set_limb_bit(v0, v, i as int, bit_val);
            }
            i = i + 1;
        }
        v
    }
}

} // verus!
