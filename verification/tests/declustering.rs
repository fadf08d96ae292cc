use geostat::data::PointSet;
use geostat::declustering::{cell_declustering_weights, decluster_scan};
use geostat::arith::{Arithmetic, Op};
use geostat::double::Double;

fn double(x: f64) -> Double {
    Double::from_bits(x.to_bits())
}

fn float(v: Double) -> f64 {
    f64::from_bits(v.bits)
}

type Calc = Arithmetic<fn(Op, Double, Double) -> Double>;

fn apply(op: Op, a: Double, b: Double) -> Double {
    let (x, y) = (float(a), float(b));
    double(match op {
        Op::Plus => x + y,
        Op::Minus => x - y,
        Op::Times => x * y,
        Op::Over => x / y,
        Op::Power => x.powf(y),
        Op::Root => x.sqrt(),
        Op::Exp => x.exp(),
        Op::Ln => x.ln(),
        Op::Sin => x.sin(),
        Op::Cos => x.cos(),
        Op::Sinh => x.sinh(),
        Op::Cosh => x.cosh(),
        Op::Asinh => x.asinh(),
    })
}

fn ar() -> Calc {
    Arithmetic::new(apply as fn(Op, Double, Double) -> Double)
}

fn at(p: [f64; 2]) -> [Double; 2] {
    [double(p[0]), double(p[1])]
}

fn place(p: [Double; 2]) -> [f64; 2] {
    [float(p[0]), float(p[1])]
}

fn point_set(coords: &[[f64; 2]], values: &[f64]) -> PointSet<2> {
    PointSet::new(
        coords.iter().map(|p| at(*p)).collect(),
        values.iter().map(|v| double(*v)).collect(),
    )
    .unwrap()
}

fn clustered() -> PointSet<2> {
    let mut coords = Vec::new();
    let mut values = Vec::new();
    for i in 0..5 {
        for j in 0..5 {
            coords.push([i as f64 * 20.0 + 5.0, j as f64 * 20.0 + 5.0]);
            values.push(1.0);
        }
    }
    for i in 0..5 {
        for j in 0..5 {
            coords.push([i as f64 + 0.5, j as f64 + 0.5]);
            values.push(10.0);
        }
    }
    point_set(&coords, &values)
}

fn sum(vs: &[Double]) -> f64 {
    vs.iter().map(|v| float(*v)).sum::<f64>()
}

#[test]
fn uniform_grid_gets_uniform_weights() {
    let mut coords = Vec::new();
    for i in 0..6 {
        for j in 0..6 {
            coords.push([i as f64 * 10.0, j as f64 * 10.0]);
        }
    }
    let n = coords.len();
    let data = point_set(&coords, &vec![1.0; n]);
    let w = cell_declustering_weights(&data, double(10.0), 1, &ar()).unwrap();
    assert!((sum(&w) - n as f64).abs() < 1e-9);
    for wi in &w {
        assert!((float(*wi) - 1.0).abs() < 1e-9);
    }
}

#[test]
fn clustered_points_get_downweighted() {
    let data = clustered();
    let w = cell_declustering_weights(&data, double(20.0), 4, &ar()).unwrap();
    assert!((sum(&w) - data.len() as f64).abs() < 1e-9);
    let bg_mean = sum(&w[..25]) / 25.0;
    let cl_mean = sum(&w[25..]) / 25.0;
    assert!(cl_mean < 0.3 * bg_mean, "cluster {cl_mean} vs background {bg_mean}");
    let naive = float(data.mean(&ar()));
    let declustered = w
        .iter()
        .zip(data.values())
        .map(|(wi, v)| float(*wi) * float(*v))
        .sum::<f64>()
        / data.len() as f64;
    assert!(declustered < naive - 1.0, "declustered {declustered} vs naive {naive}");
}

#[test]
fn scan_finds_a_mean_reducing_size() {
    let data = clustered();
    let scan = decluster_scan(&data, double(2.0), double(50.0), 20, 4, true, &ar()).unwrap();
    assert_eq!(scan.trace.len(), 20);
    assert!(float(scan.best_mean) < float(data.mean(&ar())) - 1.0);
    assert!((sum(&scan.weights) - data.len() as f64).abs() < 1e-9);
    let trace_min = scan.trace.iter().map(|t| float(t.1)).fold(f64::INFINITY, f64::min);
    assert!((float(scan.best_mean) - trace_min).abs() < 1e-12);
}

#[test]
fn rejects_bad_parameters() {
    let data = clustered();
    assert!(cell_declustering_weights(&data, double(0.0), 4, &ar()).is_err());
    assert!(cell_declustering_weights(&data, double(10.0), 0, &ar()).is_err());
    assert!(decluster_scan(&data, double(10.0), double(5.0), 5, 4, true, &ar()).is_err());
    assert!(decluster_scan(&data, double(5.0), double(10.0), 0, 4, true, &ar()).is_err());
}

#[test]
fn weights_are_positive_and_make_up_the_count() {
    let data = PointSet::new(
        vec![at([0.0, 0.0]), at([0.5, 0.5]), at([3.0, 0.0]), at([0.0, 3.0])],
        vec![double(1.0); 4],
    )
    .unwrap();
    let w = cell_declustering_weights(&data, double(2.0), 1, &ar()).unwrap();
    let expected = [4.0 / 6.0, 4.0 / 6.0, 4.0 / 3.0, 4.0 / 3.0];
    for (wi, e) in w.iter().zip(expected) {
        assert!((float(*wi) - e).abs() < 1e-12, "{} vs {e}", float(*wi));
    }
    assert!((sum(&w) - 4.0).abs() < 1e-12);
}
