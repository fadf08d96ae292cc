use geostat::covariance::Covariance;
use geostat::data::PointSet;
use geostat::error::GeostatError;
use geostat::interpolation::CvResult;
use geostat::kriging::{Kriging, KrigingConfig, KrigingMethod};
use geostat::model::ModelTraits;
use geostat::rng::Rng;
use geostat::tuning::{pick_best, tune_idw_power, tune_knn_k, tune_kriging_neighbors};
use geostat::arith::{Arithmetic, Op};
use geostat::double::Double;

fn double(x: f64) -> Double {
    Double::from_bits(x.to_bits())
}

fn float(v: Double) -> f64 {
    f64::from_bits(v.bits)
}

type Calc = Arithmetic<fn(Op, Double, Double) -> Double>;

fn apply(op: Op, a: Double, b: Double) -> Double {
    let (x, y) = (float(a), float(b));
    double(match op {
        Op::Plus => x + y,
        Op::Minus => x - y,
        Op::Times => x * y,
        Op::Over => x / y,
        Op::Power => x.powf(y),
        Op::Root => x.sqrt(),
        Op::Exp => x.exp(),
        Op::Ln => x.ln(),
        Op::Sin => x.sin(),
        Op::Cos => x.cos(),
        Op::Sinh => x.sinh(),
        Op::Cosh => x.cosh(),
        Op::Asinh => x.asinh(),
    })
}

fn ar() -> Calc {
    Arithmetic::new(apply as fn(Op, Double, Double) -> Double)
}

fn doubles(xs: &[f64]) -> Vec<Double> {
    xs.iter().map(|x| double(*x)).collect()
}

fn floats(vs: &[Double]) -> Vec<f64> {
    vs.iter().map(|v| float(*v)).collect()
}

fn at(p: [f64; 2]) -> [Double; 2] {
    [double(p[0]), double(p[1])]
}

fn place(p: [Double; 2]) -> [f64; 2] {
    [float(p[0]), float(p[1])]
}

fn point_set(coords: &[[f64; 2]], values: &[f64]) -> PointSet<2> {
    PointSet::new(
        coords.iter().map(|p| at(*p)).collect(),
        values.iter().map(|v| double(*v)).collect(),
    )
    .unwrap()
}

type Gamma = Box<dyn Fn([Double; 2]) -> Double + Sync>;

fn spherical(h: f64) -> f64 {
    if h >= 1.0 {
        1.0
    } else {
        1.5 * h - 0.5 * h * h * h
    }
}

fn exponential(h: f64) -> f64 {
    1.0 - (-h).exp()
}

fn covariance(
    shape: fn(f64) -> f64,
    nugget: f64,
    sill: f64,
    range: f64,
    azimuth: f64,
    ratio: f64,
) -> Covariance<2, Gamma> {
    let (sin, cos) = azimuth.to_radians().sin_cos();
    let gamma = move |h: [Double; 2]| {
        let (dx, dy) = (float(h[0]), float(h[1]));
        if dx == 0.0 && dy == 0.0 {
            return double(0.0);
        }
        let along = dx * sin + dy * cos;
        let across = (dx * cos - dy * sin) / ratio;
        let r = (along * along + across * across).sqrt();
        double(nugget + sill * shape(r / range))
    };
    Covariance {
        gamma: Box::new(gamma),
        covariance: None,
        sill: double(nugget + sill),
        nugget: double(nugget),
        traits: ModelTraits { has_power: false, invalid_kind: None },
    }
}

fn isotropic(shape: fn(f64) -> f64, nugget: f64, sill: f64, range: f64) -> Covariance<2, Gamma> {
    covariance(shape, nugget, sill, range, 0.0, 1.0)
}

fn random_field(n: usize, seed: u64, noise: f64, base: fn(f64, f64) -> f64) -> PointSet<2> {
    let mut rng = Rng::new(seed);
    let mut coords = Vec::new();
    let mut values = Vec::new();
    for _ in 0..n {
        let x = float(rng.uniform()) * 100.0;
        let y = float(rng.uniform()) * 100.0;
        let jitter = if noise == 0.0 { 0.0 } else { noise * float(rng.normal(&ar())) };
        coords.push([x, y]);
        values.push(base(x, y) + jitter);
    }
    point_set(&coords, &values)
}

fn vecv(cv: &CvResult) -> Double {
    let n = cv.observed.len() as f64;
    let mean = cv.observed.iter().map(|o| float(*o)).sum::<f64>() / n;
    let mut errors = 0.0;
    let mut spread = 0.0;
    for (o, p) in cv.observed.iter().zip(&cv.predicted) {
        errors += (float(*o) - float(*p)).powi(2);
        spread += (float(*o) - mean).powi(2);
    }
    double((1.0 - errors / spread) * 100.0)
}

fn field(n: usize, seed: u64) -> PointSet<2> {
    random_field(n, seed, 0.1, |x, y| (x / 20.0).sin() + (y / 25.0).cos())
}

#[test]
fn tunes_idw_power_to_a_finite_optimum() {
    let data = field(120, 4);
    let powers = [0.5, 1.0, 2.0, 3.0, 5.0];
    let res = tune_idw_power(&data, &doubles(&powers), Some(16), None, &vecv, &ar()).unwrap();
    assert!(powers.contains(&float(res.best)));
    assert!(float(res.best_vecv).is_finite());
    let max = res.trace.iter().map(|t| float(t.1)).fold(f64::NEG_INFINITY, f64::max);
    assert!((float(res.best_vecv) - max).abs() < 1e-12);
    assert_eq!(res.trace.len(), powers.len());
}

#[test]
fn tunes_knn_k() {
    let data = field(120, 8);
    let res = tune_knn_k(&data, &vec![1, 2, 4, 8, 16], None, &vecv, &ar()).unwrap();
    assert!([1, 2, 4, 8, 16].contains(&res.best));
    assert!(float(res.best_vecv).is_finite());
}

fn leave_one_out(
    data: &PointSet<2>,
    model: &Covariance<2, Gamma>,
    cfg: &KrigingConfig,
) -> Result<CvResult, GeostatError> {
    let mut cv = CvResult { observed: vec![], predicted: vec![], variance: vec![] };
    for i in 0..data.len() {
        let rest = data.excluding(i);
        let k = Kriging::new(&rest, model, *cfg, &ar())?;
        let e = k.predict(data.coord(i), &ar())?;
        cv.observed.push(data.value(i));
        cv.predicted.push(e.value);
        cv.variance.push(e.variance);
    }
    Ok(cv)
}

#[test]
fn tunes_kriging_neighbors() {
    let data = field(120, 9);
    let model = isotropic(spherical, 0.02, 1.0, 40.0);
    let validate = |cfg: &KrigingConfig| leave_one_out(&data, &model, cfg);
    let res = tune_kriging_neighbors(
        &validate,
        KrigingMethod::Ordinary,
        &vec![4, 8, 16, 32],
        None,
        &vecv,
    )
    .unwrap();
    assert!([4, 8, 16, 32].contains(&res.best));
    assert!(float(res.best_vecv).is_finite());
}

#[test]
fn empty_candidates_error() {
    let data = field(10, 1);
    assert!(tune_idw_power(&data, &vec![], None, None, &vecv, &ar()).is_err());
    assert!(tune_knn_k(&data, &vec![], None, &vecv, &ar()).is_err());
}

#[test]
fn the_best_score_wins_and_nan_never_does() {
    let trace = vec![(1usize, double(f64::NAN)), (2, double(3.0)), (3, double(7.0))];
    let res = pick_best(trace).unwrap();
    assert_eq!(res.best, 3);
    assert_eq!(float(res.best_vecv), 7.0);
    assert!(pick_best(vec![(1usize, double(f64::NAN))]).is_err());
}
