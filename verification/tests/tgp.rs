use geostat::covariance::Covariance;
use geostat::data::PointSet;
use geostat::kriging::KrigingConfig;
use geostat::marginal::{
    fit_box_cox, fit_sinh_arcsinh, fit_yeo_johnson, BoxCox, Identity, MarginalTransport,
    SinhArcsinh, YeoJohnson,
};
use geostat::model::ModelTraits;
use geostat::rng::Rng;
use geostat::tgp::TransportKriging;
use geostat::arith::{Arithmetic, Op};
use geostat::double::Double;

fn double(x: f64) -> Double {
    Double::from_bits(x.to_bits())
}

fn float(v: Double) -> f64 {
    f64::from_bits(v.bits)
}

type Calc = Arithmetic<fn(Op, Double, Double) -> Double>;

fn apply(op: Op, a: Double, b: Double) -> Double {
    let (x, y) = (float(a), float(b));
    double(match op {
        Op::Plus => x + y,
        Op::Minus => x - y,
        Op::Times => x * y,
        Op::Over => x / y,
        Op::Power => x.powf(y),
        Op::Root => x.sqrt(),
        Op::Exp => x.exp(),
        Op::Ln => x.ln(),
        Op::Sin => x.sin(),
        Op::Cos => x.cos(),
        Op::Sinh => x.sinh(),
        Op::Cosh => x.cosh(),
        Op::Asinh => x.asinh(),
    })
}

fn ar() -> Calc {
    Arithmetic::new(apply as fn(Op, Double, Double) -> Double)
}

fn doubles(xs: &[f64]) -> Vec<Double> {
    xs.iter().map(|x| double(*x)).collect()
}

fn floats(vs: &[Double]) -> Vec<f64> {
    vs.iter().map(|v| float(*v)).collect()
}

fn at(p: [f64; 2]) -> [Double; 2] {
    [double(p[0]), double(p[1])]
}

fn place(p: [Double; 2]) -> [f64; 2] {
    [float(p[0]), float(p[1])]
}

fn point_set(coords: &[[f64; 2]], values: &[f64]) -> PointSet<2> {
    PointSet::new(
        coords.iter().map(|p| at(*p)).collect(),
        values.iter().map(|v| double(*v)).collect(),
    )
    .unwrap()
}

type Gamma = Box<dyn Fn([Double; 2]) -> Double + Sync>;

fn spherical(h: f64) -> f64 {
    if h >= 1.0 {
        1.0
    } else {
        1.5 * h - 0.5 * h * h * h
    }
}

fn exponential(h: f64) -> f64 {
    1.0 - (-h).exp()
}

fn covariance(
    shape: fn(f64) -> f64,
    nugget: f64,
    sill: f64,
    range: f64,
    azimuth: f64,
    ratio: f64,
) -> Covariance<2, Gamma> {
    let (sin, cos) = azimuth.to_radians().sin_cos();
    let gamma = move |h: [Double; 2]| {
        let (dx, dy) = (float(h[0]), float(h[1]));
        if dx == 0.0 && dy == 0.0 {
            return double(0.0);
        }
        let along = dx * sin + dy * cos;
        let across = (dx * cos - dy * sin) / ratio;
        let r = (along * along + across * across).sqrt();
        double(nugget + sill * shape(r / range))
    };
    Covariance {
        gamma: Box::new(gamma),
        covariance: None,
        sill: double(nugget + sill),
        nugget: double(nugget),
        traits: ModelTraits { has_power: false, invalid_kind: None },
    }
}

fn isotropic(shape: fn(f64) -> f64, nugget: f64, sill: f64, range: f64) -> Covariance<2, Gamma> {
    covariance(shape, nugget, sill, range, 0.0, 1.0)
}

fn random_field(n: usize, seed: u64, noise: f64, base: fn(f64, f64) -> f64) -> PointSet<2> {
    let mut rng = Rng::new(seed);
    let mut coords = Vec::new();
    let mut values = Vec::new();
    for _ in 0..n {
        let x = float(rng.uniform()) * 100.0;
        let y = float(rng.uniform()) * 100.0;
        let jitter = if noise == 0.0 { 0.0 } else { noise * float(rng.normal(&ar())) };
        coords.push([x, y]);
        values.push(base(x, y) + jitter);
    }
    point_set(&coords, &values)
}

type Applied = fn(Op, Double, Double) -> Double;

fn box_cox(lambda: f64, shift: f64) -> BoxCox {
    BoxCox { lambda: double(lambda), shift: double(shift) }
}

fn yeo_johnson(lambda: f64) -> YeoJohnson {
    YeoJohnson { lambda: double(lambda) }
}

fn sinh_arcsinh(epsilon: f64, delta: f64, loc: f64, scale: f64) -> SinhArcsinh {
    SinhArcsinh {
        epsilon: double(epsilon),
        delta: double(delta),
        loc: double(loc),
        scale: double(scale),
    }
}

fn forward<T: MarginalTransport<Applied>>(t: &T, z: f64) -> f64 {
    float(t.forward(double(z), &ar()))
}

fn round_trip<T: MarginalTransport<Applied>>(t: &T, zs: &[f64]) {
    for &z in zs {
        let back = float(t.inverse(t.forward(double(z), &ar()), &ar()));
        assert!((back - z).abs() < 1e-7, "{z} -> {back}");
    }
}

#[test]
fn transforms_round_trip() {
    round_trip(&box_cox(0.0, 1.0), &[0.5, 1.0, 5.0, 20.0]);
    round_trip(&box_cox(0.3, 1.0), &[0.5, 1.0, 5.0, 20.0]);
    round_trip(&yeo_johnson(0.5), &[-3.0, -0.5, 0.0, 2.0, 7.0]);
    round_trip(&yeo_johnson(1.7), &[-3.0, -0.5, 0.0, 2.0, 7.0]);
    round_trip(&sinh_arcsinh(0.4, 1.3, 2.0, 1.5), &[-1.0, 0.0, 2.0, 5.0]);
    round_trip(&Identity, &[-1.0, 0.0, 2.0, 5.0]);
}

#[test]
fn box_cox_lambda_zero_is_log() {
    let t = box_cox(0.0, 0.0);
    for z in [0.5f64, 1.0, 3.0, 10.0] {
        assert!((forward(&t, z) - z.ln()).abs() < 1e-12);
        assert!((float(t.log_grad(double(z), &ar())) - (-z.ln())).abs() < 1e-12);
    }
}

fn gradient_matches<T: MarginalTransport<Applied>>(t: &T) {
    let h = 1e-6;
    for z in [0.5, 1.5, 3.0] {
        let num = (forward(t, z + h) - forward(t, z - h)) / (2.0 * h);
        let ana = float(t.log_grad(double(z), &ar())).exp();
        assert!((num - ana).abs() < 1e-4 * (1.0 + ana.abs()), "num {num} vs ana {ana} at z={z}");
    }
}

#[test]
fn log_grad_matches_numerical_derivative() {
    gradient_matches(&box_cox(0.4, 2.0));
    gradient_matches(&yeo_johnson(0.6));
    gradient_matches(&yeo_johnson(1.5));
    gradient_matches(&sinh_arcsinh(0.3, 1.2, 1.0, 2.0));
}

#[test]
fn fit_recovers_lognormal_warp() {
    let mut rng = Rng::new(7);
    let data: Vec<Double> =
        (0..400).map(|_| double((1.0 + 0.6 * float(rng.normal(&ar()))).exp())).collect();
    let fit = fit_box_cox(&data, &ar()).unwrap();
    let lambda = float(fit.transform().lambda);
    assert!(lambda.abs() < 0.15, "lambda = {lambda}");
    let m = data.iter().map(|z| float(fit.to_latent(*z, &ar()))).sum::<f64>() / 400.0;
    assert!(m.abs() < 1e-6);
}

#[test]
fn fit_handles_skew_with_sinh_arcsinh() {
    let mut rng = Rng::new(11);
    let data: Vec<Double> = (0..300)
        .map(|_| {
            let g = float(rng.normal(&ar()));
            double(g + 0.5 * g * g.abs())
        })
        .collect();
    let fit = fit_sinh_arcsinh(&data, &ar()).unwrap();
    let scores: Vec<f64> = data.iter().map(|z| float(fit.to_latent(*z, &ar()))).collect();
    let m = scores.iter().sum::<f64>() / scores.len() as f64;
    let v = scores.iter().map(|s| (s - m).powi(2)).sum::<f64>() / scores.len() as f64;
    assert!((v - 1.0).abs() < 0.05, "latent var {v}");
    for z in data.iter().take(20) {
        let back = float(fit.to_data(fit.to_latent(*z, &ar()), &ar()));
        assert!((back - float(*z)).abs() < 1e-6);
    }
}

#[test]
fn yeo_johnson_fits_data_of_both_signs() {
    let mut rng = Rng::new(13);
    let data: Vec<Double> = (0..200).map(|_| rng.normal(&ar())).collect();
    let fit = fit_yeo_johnson(&data, &ar()).unwrap();
    assert!((float(fit.transform().lambda) - 1.0).abs() < 0.3);
    assert!(float(fit.latent_std()) > 0.0);
    assert!(float(fit.latent_mean()).is_finite());
}

fn lognormal_field(n: usize, seed: u64) -> PointSet<2> {
    let logs = random_field(n, seed, 0.3, |x, y| (x / 30.0).sin() + (y / 25.0).cos());
    let values = logs.values().iter().map(|v| double(float(*v).exp())).collect();
    PointSet::new(logs.coords().to_vec(), values).unwrap()
}

#[test]
fn warped_kriging_recovers_lognormal_etype() {
    let data = lognormal_field(200, 5);
    let marginal = fit_box_cox(data.values(), &ar()).unwrap();
    let model = isotropic(exponential, 0.05, 0.95, 30.0);
    let tk =
        TransportKriging::new(&data, marginal, &model, KrigingConfig::default(), &ar()).unwrap();
    let est = tk
        .predict(at([50.0, 50.0]), &doubles(&[0.1, 0.5, 0.9]), 20_000, 42, &ar())
        .unwrap();
    let mean = float(est.mean);
    let q = floats(&est.quantiles);
    assert!(mean.is_finite() && mean > 0.0);
    assert!(float(est.std) > 0.0);
    assert!(q[0] <= q[1]);
    assert!(q[1] <= q[2]);
    assert!(mean >= q[1] * 0.95);
}

#[test]
fn exact_marginal_at_data_points() {
    let data = lognormal_field(120, 9);
    let marginal = fit_box_cox(data.values(), &ar()).unwrap();
    let model = isotropic(spherical, 0.01, 0.95, 30.0);
    let tk =
        TransportKriging::new(&data, marginal, &model, KrigingConfig::default(), &ar()).unwrap();
    for i in (0..data.len()).step_by(40) {
        let est = tk.predict(data.coord(i), &vec![], 2000, 1, &ar()).unwrap();
        let v = float(data.value(i));
        assert!((float(est.mean) - v).abs() < 1e-2 * v, "{} vs {v}", float(est.mean));
    }
}

#[test]
fn rejects_bad_args() {
    let data = lognormal_field(50, 3);
    let marginal = fit_box_cox(data.values(), &ar()).unwrap();
    let model = isotropic(spherical, 0.1, 0.9, 30.0);
    let tk =
        TransportKriging::new(&data, marginal, &model, KrigingConfig::default(), &ar()).unwrap();
    assert!(tk.predict(at([10.0, 10.0]), &vec![], 1, 1, &ar()).is_err());
    assert!(tk.predict(at([10.0, 10.0]), &doubles(&[1.5]), 100, 1, &ar()).is_err());
}
