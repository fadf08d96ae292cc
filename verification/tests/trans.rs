use geostat::covariance::Covariance;
use geostat::data::PointSet;
use geostat::kriging::{KrigingConfig, KrigingMethod};
use geostat::model::ModelTraits;
use geostat::rng::Rng;
use geostat::trans::lognormal_kriging;
use geostat::arith::{Arithmetic, Op};
use geostat::double::Double;

fn double(x: f64) -> Double {
    Double::from_bits(x.to_bits())
}

fn float(v: Double) -> f64 {
    f64::from_bits(v.bits)
}

type Calc = Arithmetic<fn(Op, Double, Double) -> Double>;

fn apply(op: Op, a: Double, b: Double) -> Double {
    let (x, y) = (float(a), float(b));
    double(match op {
        Op::Plus => x + y,
        Op::Minus => x - y,
        Op::Times => x * y,
        Op::Over => x / y,
        Op::Power => x.powf(y),
        Op::Root => x.sqrt(),
        Op::Exp => x.exp(),
        Op::Ln => x.ln(),
        Op::Sin => x.sin(),
        Op::Cos => x.cos(),
        Op::Sinh => x.sinh(),
        Op::Cosh => x.cosh(),
        Op::Asinh => x.asinh(),
    })
}

fn ar() -> Calc {
    Arithmetic::new(apply as fn(Op, Double, Double) -> Double)
}

fn at(p: [f64; 2]) -> [Double; 2] {
    [double(p[0]), double(p[1])]
}

fn place(p: [Double; 2]) -> [f64; 2] {
    [float(p[0]), float(p[1])]
}

fn point_set(coords: &[[f64; 2]], values: &[f64]) -> PointSet<2> {
    PointSet::new(
        coords.iter().map(|p| at(*p)).collect(),
        values.iter().map(|v| double(*v)).collect(),
    )
    .unwrap()
}

type Gamma = Box<dyn Fn([Double; 2]) -> Double + Sync>;

fn spherical(h: f64) -> f64 {
    if h >= 1.0 {
        1.0
    } else {
        1.5 * h - 0.5 * h * h * h
    }
}

fn exponential(h: f64) -> f64 {
    1.0 - (-h).exp()
}

fn covariance(
    shape: fn(f64) -> f64,
    nugget: f64,
    sill: f64,
    range: f64,
    azimuth: f64,
    ratio: f64,
) -> Covariance<2, Gamma> {
    let (sin, cos) = azimuth.to_radians().sin_cos();
    let gamma = move |h: [Double; 2]| {
        let (dx, dy) = (float(h[0]), float(h[1]));
        if dx == 0.0 && dy == 0.0 {
            return double(0.0);
        }
        let along = dx * sin + dy * cos;
        let across = (dx * cos - dy * sin) / ratio;
        let r = (along * along + across * across).sqrt();
        double(nugget + sill * shape(r / range))
    };
    Covariance {
        gamma: Box::new(gamma),
        covariance: None,
        sill: double(nugget + sill),
        nugget: double(nugget),
        traits: ModelTraits { has_power: false, invalid_kind: None },
    }
}

fn isotropic(shape: fn(f64) -> f64, nugget: f64, sill: f64, range: f64) -> Covariance<2, Gamma> {
    covariance(shape, nugget, sill, range, 0.0, 1.0)
}

fn random_field(n: usize, seed: u64, noise: f64, base: fn(f64, f64) -> f64) -> PointSet<2> {
    let mut rng = Rng::new(seed);
    let mut coords = Vec::new();
    let mut values = Vec::new();
    for _ in 0..n {
        let x = float(rng.uniform()) * 100.0;
        let y = float(rng.uniform()) * 100.0;
        let jitter = if noise == 0.0 { 0.0 } else { noise * float(rng.normal(&ar())) };
        coords.push([x, y]);
        values.push(base(x, y) + jitter);
    }
    point_set(&coords, &values)
}

fn lognormal_field(n: usize, seed: u64) -> PointSet<2> {
    let logs = random_field(n, seed, 0.2, |x, y| (x / 30.0).sin() + (y / 25.0).cos());
    let values = logs.values().iter().map(|v| double(float(*v).exp())).collect();
    PointSet::new(logs.coords().to_vec(), values).unwrap()
}

#[test]
fn exact_at_data_points() {
    let data = lognormal_field(120, 3);
    let model = isotropic(spherical, 0.01, 0.5, 40.0);
    let targets: Vec<[Double; 2]> = (0..5).map(|i| data.coord(i * 13)).collect();
    let est =
        lognormal_kriging(&data, &targets, &model, &KrigingConfig::default(), &ar()).unwrap();
    for (e, i) in est.iter().zip((0..5).map(|i| i * 13)) {
        assert!((float(e.value) - float(data.value(i))).abs() < 1e-4);
    }
}

#[test]
fn back_transform_inflates_above_naive_exp() {
    let data = lognormal_field(80, 9);
    let model = isotropic(exponential, 0.05, 0.6, 30.0);
    let est = lognormal_kriging(
        &data,
        &vec![at([50.0, 50.0])],
        &model,
        &KrigingConfig::default(),
        &ar(),
    )
    .unwrap();
    assert!(float(est[0].log_variance) > 0.0);
    assert!(float(est[0].value) > float(est[0].log_mean).exp(), "correction must inflate");
}

#[test]
fn rejects_nonpositive_and_drift_methods() {
    let bad = point_set(&[[0.0, 0.0], [1.0, 1.0], [2.0, 0.0]], &[1.0, -1.0, 2.0]);
    let model = isotropic(spherical, 0.0, 1.0, 10.0);
    let target = vec![at([0.5, 0.5])];
    assert!(lognormal_kriging(&bad, &target, &model, &KrigingConfig::default(), &ar()).is_err());
    let good = lognormal_field(20, 1);
    let cfg = KrigingConfig {
        method: KrigingMethod::Universal { degree: 1 },
        ..Default::default()
    };
    assert!(lognormal_kriging(&good, &vec![at([1.0, 1.0])], &model, &cfg, &ar()).is_err());
}
