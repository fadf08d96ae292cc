use geostat::covariance::Covariance;
use geostat::data::PointSet;
use geostat::kriging::{Kriging, KrigingConfig, KrigingMethod};
use geostat::model::ModelTraits;
use geostat::regression::{detrend_external, detrend_polynomial, OlsTrend, RegressionKriging};
use geostat::rng::Rng;
use geostat::arith::{Arithmetic, Op};
use geostat::double::Double;

fn double(x: f64) -> Double {
    Double::from_bits(x.to_bits())
}

fn float(v: Double) -> f64 {
    f64::from_bits(v.bits)
}

type Calc = Arithmetic<fn(Op, Double, Double) -> Double>;

fn apply(op: Op, a: Double, b: Double) -> Double {
    let (x, y) = (float(a), float(b));
    double(match op {
        Op::Plus => x + y,
        Op::Minus => x - y,
        Op::Times => x * y,
        Op::Over => x / y,
        Op::Power => x.powf(y),
        Op::Root => x.sqrt(),
        Op::Exp => x.exp(),
        Op::Ln => x.ln(),
        Op::Sin => x.sin(),
        Op::Cos => x.cos(),
        Op::Sinh => x.sinh(),
        Op::Cosh => x.cosh(),
        Op::Asinh => x.asinh(),
    })
}

fn ar() -> Calc {
    Arithmetic::new(apply as fn(Op, Double, Double) -> Double)
}

fn doubles(xs: &[f64]) -> Vec<Double> {
    xs.iter().map(|x| double(*x)).collect()
}

fn floats(vs: &[Double]) -> Vec<f64> {
    vs.iter().map(|v| float(*v)).collect()
}

fn at(p: [f64; 2]) -> [Double; 2] {
    [double(p[0]), double(p[1])]
}

fn place(p: [Double; 2]) -> [f64; 2] {
    [float(p[0]), float(p[1])]
}

fn point_set(coords: &[[f64; 2]], values: &[f64]) -> PointSet<2> {
    PointSet::new(
        coords.iter().map(|p| at(*p)).collect(),
        values.iter().map(|v| double(*v)).collect(),
    )
    .unwrap()
}

type Gamma = Box<dyn Fn([Double; 2]) -> Double + Sync>;

fn spherical(h: f64) -> f64 {
    if h >= 1.0 {
        1.0
    } else {
        1.5 * h - 0.5 * h * h * h
    }
}

fn exponential(h: f64) -> f64 {
    1.0 - (-h).exp()
}

fn covariance(
    shape: fn(f64) -> f64,
    nugget: f64,
    sill: f64,
    range: f64,
    azimuth: f64,
    ratio: f64,
) -> Covariance<2, Gamma> {
    let (sin, cos) = azimuth.to_radians().sin_cos();
    let gamma = move |h: [Double; 2]| {
        let (dx, dy) = (float(h[0]), float(h[1]));
        if dx == 0.0 && dy == 0.0 {
            return double(0.0);
        }
        let along = dx * sin + dy * cos;
        let across = (dx * cos - dy * sin) / ratio;
        let r = (along * along + across * across).sqrt();
        double(nugget + sill * shape(r / range))
    };
    Covariance {
        gamma: Box::new(gamma),
        covariance: None,
        sill: double(nugget + sill),
        nugget: double(nugget),
        traits: ModelTraits { has_power: false, invalid_kind: None },
    }
}

fn isotropic(shape: fn(f64) -> f64, nugget: f64, sill: f64, range: f64) -> Covariance<2, Gamma> {
    covariance(shape, nugget, sill, range, 0.0, 1.0)
}

#[test]
fn ols_recovers_linear_coefficients() {
    let covariates: Vec<Vec<f64>> =
        (0..30).map(|i| vec![(i % 7) as f64, (i % 5) as f64]).collect();
    let values: Vec<f64> = covariates.iter().map(|c| 2.0 + 3.0 * c[0] - c[1]).collect();
    let rows = covariates.iter().map(|c| doubles(c)).collect();
    let trend = OlsTrend::fit(&rows, &doubles(&values), &ar()).unwrap();
    let b = floats(trend.coefficients());
    assert!((b[0] - 2.0).abs() < 1e-9, "intercept {}", b[0]);
    assert!((b[1] - 3.0).abs() < 1e-9, "slope1 {}", b[1]);
    assert!((b[2] + 1.0).abs() < 1e-9, "slope2 {}", b[2]);
    let p = float(trend.predict(&doubles(&[4.0, 2.0]), &ar()));
    assert!((p - (2.0 + 12.0 - 2.0)).abs() < 1e-9);
}

fn sample_field(n: usize, seed: u64) -> (PointSet<2>, Vec<Vec<Double>>) {
    let mut rng = Rng::new(seed);
    let mut coords = Vec::new();
    let mut values = Vec::new();
    let mut covs = Vec::new();
    for _ in 0..n {
        let x = float(rng.uniform()) * 100.0;
        let y = float(rng.uniform()) * 100.0;
        let resid =
            (x / 25.0).sin() + (y / 30.0).cos() + 0.2 * float(rng.normal(&ar()));
        coords.push([x, y]);
        values.push(5.0 + 0.4 * x + resid);
        covs.push(vec![double(x)]);
    }
    (point_set(&coords, &values), covs)
}

#[test]
fn detrend_removes_exact_polynomial() {
    let mut coords = Vec::new();
    let mut values = Vec::new();
    for i in 0..10 {
        for j in 0..10 {
            let p = [180_000.0 + i as f64 * 100.0, 330_000.0 + j as f64 * 100.0];
            coords.push(p);
            values.push(3.0 + 0.002 * p[0] - 0.001 * p[1]);
        }
    }
    let data = point_set(&coords, &values);
    let (resid, _) = detrend_polynomial(&data, 1, &ar()).unwrap();
    for r in floats(resid.values()) {
        assert!(r.abs() < 1e-6, "residual {r}");
    }
    let vals2: Vec<f64> =
        coords.iter().map(|c| 1.0 + 1e-7 * c[0] * c[1] - 2e-8 * c[0] * c[0]).collect();
    let data2 = point_set(&coords, &vals2);
    let (resid2, _) = detrend_polynomial(&data2, 2, &ar()).unwrap();
    for r in floats(resid2.values()) {
        assert!(r.abs() < 1e-5, "quadratic residual {r}");
    }
}

fn last_gamma(data: &PointSet<2>) -> f64 {
    let (mut sum, mut n) = (0.0, 0usize);
    for i in 0..data.len() {
        for j in i + 1..data.len() {
            let (p, q) = (place(data.coord(i)), place(data.coord(j)));
            let h = ((p[0] - q[0]).powi(2) + (p[1] - q[1]).powi(2)).sqrt();
            if h > 54.0 && h <= 60.0 {
                sum += 0.5 * (float(data.value(i)) - float(data.value(j))).powi(2);
                n += 1;
            }
        }
    }
    sum / n as f64
}

#[test]
fn residual_variogram_deflates_trended_sill() {
    let mut rng = Rng::new(17);
    let mut coords = Vec::new();
    let mut values = Vec::new();
    for _ in 0..200 {
        let x = float(rng.uniform()) * 100.0;
        let y = float(rng.uniform()) * 100.0;
        coords.push([x, y]);
        values.push(0.5 * x + 0.1 * float(rng.normal(&ar())));
    }
    let data = point_set(&coords, &values);
    let (resid, trend) = detrend_polynomial(&data, 1, &ar()).unwrap();
    let raw = last_gamma(&data);
    let res = last_gamma(&resid);
    assert!(res < 0.05 * raw, "residual gamma {res} vs raw {raw}");
    assert!(trend.coefficients().len() == 3);
}

#[test]
fn rk_is_exact_at_data_points() {
    let (data, covs) = sample_field(80, 3);
    let trend = OlsTrend::fit(&covs, data.values(), &ar()).unwrap();
    let trend_at_data: Vec<Double> = covs.iter().map(|c| trend.predict(c, &ar())).collect();
    let rk = RegressionKriging::new(&data, &trend_at_data, &ar()).unwrap();
    let model = isotropic(spherical, 0.001, 0.5, 40.0);
    let cfg = KrigingConfig::default();
    for i in (0..data.len()).step_by(20) {
        let est = rk
            .predict(&vec![data.coord(i)], &vec![trend_at_data[i]], &model, &cfg, &ar())
            .unwrap();
        assert!((float(est[0].value) - float(data.value(i))).abs() < 1e-6);
    }
}

#[test]
fn rk_with_constant_trend_equals_ordinary_kriging() {
    let (data, _) = sample_field(60, 7);
    let c = 10.0;
    let rk = RegressionKriging::new(&data, &vec![double(c); data.len()], &ar()).unwrap();
    let model = isotropic(exponential, 0.01, 0.6, 35.0);
    let cfg = KrigingConfig {
        method: KrigingMethod::Ordinary,
        max_neighbors: None,
        search_radius: None,
        ..Default::default()
    };
    let targets = vec![at([40.0, 55.0]), at([70.0, 20.0]), at([15.0, 80.0])];
    let rk_est = rk.predict(&targets, &vec![double(c); 3], &model, &cfg, &ar()).unwrap();
    let ok = Kriging::new(&data, &model, cfg, &ar()).unwrap();
    for (t, e) in targets.iter().zip(&rk_est) {
        let ok_e = ok.predict(*t, &ar()).unwrap();
        assert!((float(e.value) - float(ok_e.value)).abs() < 1e-9);
        assert!((float(e.variance) - float(ok_e.variance)).abs() < 1e-9);
    }
}

#[test]
fn external_detrending_leaves_what_the_covariates_do_not_explain() {
    let data = point_set(&[[0.0, 0.0], [1.0, 0.0], [2.0, 0.0], [3.0, 0.0]], &[1.0, 3.0, 5.0, 7.0]);
    let covs = (0..4).map(|i| vec![double(i as f64)]).collect();
    let (resid, trend) = detrend_external(&data, &covs, &ar()).unwrap();
    assert!(floats(resid.values()).iter().all(|r| r.abs() < 1e-9));
    assert!((float(trend.coefficients()[1]) - 2.0).abs() < 1e-9);
}
