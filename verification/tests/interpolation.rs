use geostat::data::PointSet;
use geostat::interpolation::{idw_cross_validate, knn_cross_validate, CvResult, Idw, Knn};
use geostat::rng::Rng;
use geostat::arith::{Arithmetic, Op};
use geostat::double::Double;

fn double(x: f64) -> Double {
    Double::from_bits(x.to_bits())
}

fn float(v: Double) -> f64 {
    f64::from_bits(v.bits)
}

type Calc = Arithmetic<fn(Op, Double, Double) -> Double>;

fn apply(op: Op, a: Double, b: Double) -> Double {
    let (x, y) = (float(a), float(b));
    double(match op {
        Op::Plus => x + y,
        Op::Minus => x - y,
        Op::Times => x * y,
        Op::Over => x / y,
        Op::Power => x.powf(y),
        Op::Root => x.sqrt(),
        Op::Exp => x.exp(),
        Op::Ln => x.ln(),
        Op::Sin => x.sin(),
        Op::Cos => x.cos(),
        Op::Sinh => x.sinh(),
        Op::Cosh => x.cosh(),
        Op::Asinh => x.asinh(),
    })
}

fn ar() -> Calc {
    Arithmetic::new(apply as fn(Op, Double, Double) -> Double)
}

fn at(p: [f64; 2]) -> [Double; 2] {
    [double(p[0]), double(p[1])]
}

fn place(p: [Double; 2]) -> [f64; 2] {
    [float(p[0]), float(p[1])]
}

fn point_set(coords: &[[f64; 2]], values: &[f64]) -> PointSet<2> {
    PointSet::new(
        coords.iter().map(|p| at(*p)).collect(),
        values.iter().map(|v| double(*v)).collect(),
    )
    .unwrap()
}

fn random_field(n: usize, seed: u64, noise: f64, base: fn(f64, f64) -> f64) -> PointSet<2> {
    let mut rng = Rng::new(seed);
    let mut coords = Vec::new();
    let mut values = Vec::new();
    for _ in 0..n {
        let x = float(rng.uniform()) * 100.0;
        let y = float(rng.uniform()) * 100.0;
        let jitter = if noise == 0.0 { 0.0 } else { noise * float(rng.normal(&ar())) };
        coords.push([x, y]);
        values.push(base(x, y) + jitter);
    }
    point_set(&coords, &values)
}

fn vecv(cv: &CvResult) -> Double {
    let n = cv.observed.len() as f64;
    let mean = cv.observed.iter().map(|o| float(*o)).sum::<f64>() / n;
    let mut errors = 0.0;
    let mut spread = 0.0;
    for (o, p) in cv.observed.iter().zip(&cv.predicted) {
        errors += (float(*o) - float(*p)).powi(2);
        spread += (float(*o) - mean).powi(2);
    }
    double((1.0 - errors / spread) * 100.0)
}

fn smooth_field(n: usize, seed: u64) -> PointSet<2> {
    random_field(n, seed, 0.0, |x, y| (x / 20.0).sin() + (y / 25.0).cos())
}

#[test]
fn idw_is_exact_at_data_points() {
    let data = smooth_field(60, 1);
    let idw = Idw::new(&data, double(2.0), None, None).unwrap();
    for i in (0..data.len()).step_by(10) {
        let p = float(idw.predict(data.coord(i), &ar()));
        assert!((p - float(data.value(i))).abs() < 1e-9);
    }
}

#[test]
fn knn_k1_returns_nearest_value() {
    let data = smooth_field(50, 2);
    let nn = Knn::new(&data, 1, None).unwrap();
    for i in (0..data.len()).step_by(10) {
        let c = place(data.coord(i));
        let near = at([c[0] + 0.01, c[1] - 0.01]);
        assert!((float(nn.predict(near, &ar())) - float(data.value(i))).abs() < 1e-12);
    }
}

#[test]
fn idw_and_knn_beat_the_mean_on_smooth_field() {
    let data = smooth_field(150, 5);
    let idw_cv = idw_cross_validate(&data, double(2.0), Some(12), None, &ar()).unwrap();
    let knn_cv = knn_cross_validate(&data, 6, None, &ar()).unwrap();
    assert!(float(vecv(&idw_cv)) > 0.0);
    assert!(float(vecv(&knn_cv)) > 0.0);
    assert!(idw_cv.variance.iter().all(|v| float(*v).is_nan()));
}

#[test]
fn idw_power_must_be_positive() {
    let data = smooth_field(10, 3);
    assert!(Idw::new(&data, double(0.0), None, None).is_err());
    assert!(Knn::new(&data, 0, None).is_err());
}

#[test]
fn weights_fall_with_distance() {
    let data = point_set(&[[0.0, 0.0], [3.0, 0.0]], &[1.0, 4.0]);
    let idw = Idw::new(&data, double(2.0), None, None).unwrap();
    let p = float(idw.predict(at([1.0, 0.0]), &ar()));
    assert!((p - (1.0 + 4.0 / 4.0) / 1.25).abs() < 1e-12);
    let knn = Knn::new(&data, 2, None).unwrap();
    assert_eq!(float(knn.predict(at([1.0, 0.0]), &ar())), 2.5);
    let both = idw.predict_many(&vec![at([1.0, 0.0]), at([3.0, 0.0])], &ar());
    assert_eq!(float(both[0]), p);
    assert_eq!(float(both[1]), 4.0);
}
