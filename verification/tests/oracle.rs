use ecdlp_5_bit::circuit::{analyze_ops, Op, QubitId};
use ecdlp_5_bit::curve::{curve_add, generator, scalar_mul, Point};
use ecdlp_5_bit::ops_io::VecOpSink;
use ecdlp_5_bit::shor_oracle::builder::Builder;
use ecdlp_5_bit::shor_oracle::{point_add_xor, point_double_xor, point_neg_xor, PointRegister};
use ecdlp_5_bit::sim::{Simulator, XofStream};

fn register(builder: &mut Builder<VecOpSink>) -> PointRegister {
    let x = builder.alloc_qubits(5);
    let y = builder.alloc_qubits(5);
    let inf = builder.alloc_qubit();
    PointRegister { x, y, inf }
}

fn register_qubits(p: &PointRegister) -> Vec<QubitId> {
    let mut v = p.x.clone();
    v.extend(p.y.iter().copied());
    v.push(p.inf);
    v
}

fn write_point(sim: &mut Simulator, reg: &PointRegister, shot: usize, p: Point) {
    for bit in 0..5 {
        if (p.x >> bit) & 1 != 0 {
            *sim.qubit_mut(reg.x[bit]) |= 1u64 << shot;
        }
        if (p.y >> bit) & 1 != 0 {
            *sim.qubit_mut(reg.y[bit]) |= 1u64 << shot;
        }
    }
    if p.infinity {
        *sim.qubit_mut(reg.inf) |= 1u64 << shot;
    }
}

fn read_point(sim: &Simulator, reg: &PointRegister, shot: usize) -> Point {
    let mut x = 0u16;
    let mut y = 0u16;
    for bit in 0..5 {
        x |= (((sim.qubit(reg.x[bit]) >> shot) & 1) as u16) << bit;
        y |= (((sim.qubit(reg.y[bit]) >> shot) & 1) as u16) << bit;
    }
    Point { x, y, infinity: (sim.qubit(reg.inf) >> shot) & 1 != 0 }
}

fn group() -> Vec<Point> {
    (0..21u16).map(|k| scalar_mul(k, generator())).collect()
}

/// Runs a circuit on pairs of points, 64 at a time, and checks each output
/// against `expected`, the inputs unchanged and every other qubit clean.
fn check_pairs(
    ops: &[Op],
    left: &PointRegister,
    right: &PointRegister,
    out: &PointRegister,
    pairs: &[(Point, Point)],
    expected: impl Fn(Point, Point) -> Point,
) {
    let (total_qubits, num_bits, _, _) = analyze_ops(ops);
    let public: Vec<QubitId> = [register_qubits(left), register_qubits(right), register_qubits(out)].concat();
    for chunk in pairs.chunks(64) {
        let mut sim = Simulator::new(total_qubits as usize, num_bits as usize, XofStream::from_seed(b"points"));
        for (shot, &(l, r)) in chunk.iter().enumerate() {
            write_point(&mut sim, left, shot, l);
            write_point(&mut sim, right, shot, r);
        }
        sim.apply_iter(ops);
        assert_eq!(sim.phase, 0);
        for (shot, &(l, r)) in chunk.iter().enumerate() {
            assert_eq!(read_point(&sim, left, shot), l);
            assert_eq!(read_point(&sim, right, shot), r);
            assert_eq!(read_point(&sim, out, shot), expected(l, r), "inputs {l:?} {r:?}");
        }
        let live = (1u128 << chunk.len()) - 1;
        for q in 0..total_qubits {
            let q = QubitId(q);
            if !public.contains(&q) {
                assert_eq!(sim.qubit(q) as u128 & live, 0, "ancilla {} not clean", q.0);
            }
        }
    }
}

#[test]
fn point_addition_circuit_follows_the_group_law() {
    let mut builder = Builder::with_sink(VecOpSink::default());
    let left = register(&mut builder);
    let right = register(&mut builder);
    let out = register(&mut builder);
    point_add_xor(&mut builder, &left, &right, &out);
    let ops = builder.finish_sink().into_ops();
    let points = group();
    let mut pairs = Vec::new();
    for k in 0..21 {
        pairs.push((points[k], points[k]));
        pairs.push((points[k], points[(21 - k) % 21]));
    }
    for k in 0..22 {
        pairs.push((points[k % 21], points[(k * 5 + 3) % 21]));
    }
    assert_eq!(pairs.len(), 64);
    check_pairs(&ops, &left, &right, &out, &pairs, curve_add);
}

#[test]
fn point_negation_circuit_negates() {
    let mut builder = Builder::with_sink(VecOpSink::default());
    let point = register(&mut builder);
    let unused = register(&mut builder);
    let out = register(&mut builder);
    point_neg_xor(&mut builder, &point, &out);
    let ops = builder.finish_sink().into_ops();
    let pairs: Vec<(Point, Point)> = group().into_iter().map(|p| (p, Point { x: 0, y: 0, infinity: true })).collect();
    check_pairs(&ops, &point, &unused, &out, &pairs, |p, _| Point {
        x: p.x,
        y: (31 - p.y) % 31,
        infinity: p.infinity,
    });
}

#[test]
fn point_doubling_circuit_doubles() {
    let mut builder = Builder::with_sink(VecOpSink::default());
    let point = register(&mut builder);
    let unused = register(&mut builder);
    let out = register(&mut builder);
    point_double_xor(&mut builder, &point, &out);
    let ops = builder.finish_sink().into_ops();
    let pairs: Vec<(Point, Point)> = group().into_iter().map(|p| (p, Point { x: 0, y: 0, infinity: true })).collect();
    check_pairs(&ops, &point, &unused, &out, &pairs, |p, _| curve_add(p, p));
    assert_eq!(curve_add(generator(), generator()), Point { x: 7, y: 3, infinity: false });
}
