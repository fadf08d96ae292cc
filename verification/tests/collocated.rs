use geostat::collocated::{
    estimate_collocated_stats, CollocatedCokriging, CollocatedConfig, MarkovModel,
};
use geostat::covariance::Covariance;
use geostat::data::PointSet;
use geostat::error::GeostatError;
use geostat::kriging::{Kriging, KrigingConfig, KrigingMethod};
use geostat::model::ModelTraits;
use geostat::rng::Rng;
use geostat::arith::{Arithmetic, Op};
use geostat::double::Double;

fn double(x: f64) -> Double {
    Double::from_bits(x.to_bits())
}

fn float(v: Double) -> f64 {
    f64::from_bits(v.bits)
}

type Calc = Arithmetic<fn(Op, Double, Double) -> Double>;

fn apply(op: Op, a: Double, b: Double) -> Double {
    let (x, y) = (float(a), float(b));
    double(match op {
        Op::Plus => x + y,
        Op::Minus => x - y,
        Op::Times => x * y,
        Op::Over => x / y,
        Op::Power => x.powf(y),
        Op::Root => x.sqrt(),
        Op::Exp => x.exp(),
        Op::Ln => x.ln(),
        Op::Sin => x.sin(),
        Op::Cos => x.cos(),
        Op::Sinh => x.sinh(),
        Op::Cosh => x.cosh(),
        Op::Asinh => x.asinh(),
    })
}

fn ar() -> Calc {
    Arithmetic::new(apply as fn(Op, Double, Double) -> Double)
}

fn doubles(xs: &[f64]) -> Vec<Double> {
    xs.iter().map(|x| double(*x)).collect()
}

fn floats(vs: &[Double]) -> Vec<f64> {
    vs.iter().map(|v| float(*v)).collect()
}

fn at(p: [f64; 2]) -> [Double; 2] {
    [double(p[0]), double(p[1])]
}

fn place(p: [Double; 2]) -> [f64; 2] {
    [float(p[0]), float(p[1])]
}

fn point_set(coords: &[[f64; 2]], values: &[f64]) -> PointSet<2> {
    PointSet::new(
        coords.iter().map(|p| at(*p)).collect(),
        values.iter().map(|v| double(*v)).collect(),
    )
    .unwrap()
}

type Gamma = Box<dyn Fn([Double; 2]) -> Double + Sync>;

fn spherical(h: f64) -> f64 {
    if h >= 1.0 {
        1.0
    } else {
        1.5 * h - 0.5 * h * h * h
    }
}

fn exponential(h: f64) -> f64 {
    1.0 - (-h).exp()
}

fn covariance(
    shape: fn(f64) -> f64,
    nugget: f64,
    sill: f64,
    range: f64,
    azimuth: f64,
    ratio: f64,
) -> Covariance<2, Gamma> {
    let (sin, cos) = azimuth.to_radians().sin_cos();
    let gamma = move |h: [Double; 2]| {
        let (dx, dy) = (float(h[0]), float(h[1]));
        if dx == 0.0 && dy == 0.0 {
            return double(0.0);
        }
        let along = dx * sin + dy * cos;
        let across = (dx * cos - dy * sin) / ratio;
        let r = (along * along + across * across).sqrt();
        double(nugget + sill * shape(r / range))
    };
    Covariance {
        gamma: Box::new(gamma),
        covariance: None,
        sill: double(nugget + sill),
        nugget: double(nugget),
        traits: ModelTraits { has_power: false, invalid_kind: None },
    }
}

fn isotropic(shape: fn(f64) -> f64, nugget: f64, sill: f64, range: f64) -> Covariance<2, Gamma> {
    covariance(shape, nugget, sill, range, 0.0, 1.0)
}

fn power_model(nugget: f64, slope: f64, exponent: f64) -> Covariance<2, Gamma> {
    let gamma = move |h: [Double; 2]| {
        let (dx, dy) = (float(h[0]), float(h[1]));
        let r = (dx * dx + dy * dy).sqrt();
        double(if r == 0.0 { 0.0 } else { nugget + slope * r.powf(exponent) })
    };
    Covariance {
        gamma: Box::new(gamma),
        covariance: None,
        sill: double(nugget + slope),
        nugget: double(nugget),
        traits: ModelTraits { has_power: true, invalid_kind: None },
    }
}

fn primary() -> PointSet<2> {
    point_set(
        &[[0.0, 0.0], [10.0, 0.0], [0.0, 10.0], [10.0, 10.0], [5.0, 5.0]],
        &[1.0, 2.0, 1.5, 2.5, 1.8],
    )
}

fn model1() -> Covariance<2, Gamma> {
    isotropic(spherical, 0.0, 1.0, 20.0)
}

fn build<'a>(
    data: &'a PointSet<2>,
    model: &'a Covariance<2, Gamma>,
    means: (f64, f64),
    rho: f64,
    sigmas: (f64, f64),
    markov: MarkovModel<2, Gamma>,
    config: CollocatedConfig,
) -> Result<CollocatedCokriging<'a, 2, Gamma>, GeostatError> {
    CollocatedCokriging::new(
        data,
        model,
        double(means.0),
        double(means.1),
        double(rho),
        double(sigmas.0),
        double(sigmas.1),
        markov,
        config,
    )
}

fn predict(c: &CollocatedCokriging<'_, 2, Gamma>, t: [f64; 2], s: f64) -> (f64, f64) {
    let e = c.predict(at(t), double(s), &ar()).unwrap();
    (float(e.value), float(e.variance))
}

fn mean(data: &PointSet<2>) -> f64 {
    float(data.mean(&ar()))
}

#[test]
fn zero_correlation_reduces_to_simple_kriging() {
    let data = primary();
    let m = model1();
    let sk = Kriging::new(
        &data,
        &m,
        KrigingConfig {
            method: KrigingMethod::Simple { mean: data.mean(&ar()) },
            ..Default::default()
        },
        &ar(),
    )
    .unwrap();
    let cck = build(
        &data,
        &m,
        (mean(&data), 0.0),
        0.0,
        (1.0, 3.0),
        MarkovModel::Mm1,
        CollocatedConfig::default(),
    )
    .unwrap();
    for (target, sec) in [([3.0, 4.0], 99.0), ([7.0, 2.0], -50.0), ([5.0, 5.0], 12.3)] {
        let exact = sk.predict(at(target), &ar()).unwrap();
        let (value, variance) = predict(&cck, target, sec);
        assert!((value - float(exact.value)).abs() < 1e-10);
        assert!((variance - float(exact.variance)).abs() < 1e-10);
    }
}

#[test]
fn predict_many_matches_looped_predict() {
    let data = primary();
    let m = model1();
    let cck = build(
        &data,
        &m,
        (mean(&data), 1.0),
        0.6,
        (1.0, 2.0),
        MarkovModel::Mm1,
        CollocatedConfig::default(),
    )
    .unwrap();
    let targets = [[3.0, 4.0], [7.0, 2.0], [5.0, 5.0], [-1.0, -1.0]];
    let secondary = [10.0, -3.0, 4.2, 0.0];
    let places: Vec<[Double; 2]> = targets.iter().map(|t| at(*t)).collect();
    let batch = cck.predict_many(&places, &doubles(&secondary), &ar()).unwrap();
    assert_eq!(batch.len(), targets.len());
    for (i, t) in targets.iter().enumerate() {
        let (value, variance) = predict(&cck, *t, secondary[i]);
        assert!((float(batch[i].value) - value).abs() < 1e-12);
        assert!((float(batch[i].variance) - variance).abs() < 1e-12);
    }
    let err = cck.predict_many(&places, &doubles(&secondary[..2]), &ar()).unwrap_err();
    assert!(matches!(err, GeostatError::DimensionMismatch(_)));
}

#[test]
fn predict_is_exact_at_a_primary_datum() {
    let data = primary();
    let m = model1();
    let cck = build(
        &data,
        &m,
        (mean(&data), mean(&data)),
        0.6,
        (1.0, 3.0),
        MarkovModel::Mm1,
        CollocatedConfig::default(),
    )
    .unwrap();
    let (value, variance) = predict(&cck, [0.0, 0.0], 42.0);
    assert!((value - 1.0).abs() < 1e-6, "value {value}");
    assert!(variance < 1e-6, "variance {variance}");
}

#[test]
fn mm1_perfectly_collinear_secondary_errors_instead_of_guessing() {
    let data = primary();
    let m = model1();
    let sigma = float(m.covariance_dh(at([0.0, 0.0]), &ar())).sqrt();
    let cck = build(
        &data,
        &m,
        (mean(&data), mean(&data)),
        1.0,
        (sigma, sigma),
        MarkovModel::Mm1,
        CollocatedConfig::default(),
    )
    .unwrap();
    let err = cck.predict(at([0.0, 0.0]), double(42.0), &ar()).unwrap_err();
    assert!(matches!(err, GeostatError::SingularSystem(_)), "{err:?}");
}

#[test]
fn c12_matches_rho_sigma1_sigma2_at_zero_lag_even_when_sigma_mismatches_the_model_sill() {
    let data = primary();
    let m1 = model1();
    let rho12 = 0.4;
    let (sigma1, sigma2) = (3.0, 7.0);
    let expected = rho12 * sigma1 * sigma2;
    let mm1 = build(
        &data,
        &m1,
        (0.0, 0.0),
        rho12,
        (sigma1, sigma2),
        MarkovModel::Mm1,
        CollocatedConfig::default(),
    )
    .unwrap();
    assert!((float(mm1.c12(at([0.0, 0.0]), &ar())) - expected).abs() < 1e-10);
    let secondary_model = isotropic(exponential, 0.0, 5.0, 15.0);
    let mm2 = build(
        &data,
        &m1,
        (0.0, 0.0),
        rho12,
        (sigma1, sigma2),
        MarkovModel::Mm2 { secondary_model },
        CollocatedConfig::default(),
    )
    .unwrap();
    assert!((float(mm2.c12(at([0.0, 0.0]), &ar())) - expected).abs() < 1e-10);
}

#[test]
fn mm1_and_mm2_agree_when_secondary_covariance_is_proportional_to_primary() {
    let data = primary();
    let m1 = model1();
    let k = 4.0;
    let secondary_model = isotropic(spherical, 0.0, k, 20.0);
    let sigma1: f64 = 1.0;
    let sigma2 = (k * sigma1 * sigma1).sqrt();
    let mm1 = build(
        &data,
        &m1,
        (mean(&data), 5.0),
        0.7,
        (sigma1, sigma2),
        MarkovModel::Mm1,
        CollocatedConfig::default(),
    )
    .unwrap();
    let mm2 = build(
        &data,
        &m1,
        (mean(&data), 5.0),
        0.7,
        (sigma1, sigma2),
        MarkovModel::Mm2 { secondary_model },
        CollocatedConfig::default(),
    )
    .unwrap();
    for (target, sec) in [([3.0, 4.0], 8.0), ([7.0, 2.0], 2.0), ([-2.0, 6.0], 5.5)] {
        let a = predict(&mm1, target, sec);
        let b = predict(&mm2, target, sec);
        assert!((a.0 - b.0).abs() < 1e-9);
        assert!((a.1 - b.1).abs() < 1e-9);
    }
}

#[test]
fn stronger_correlation_reduces_variance_more() {
    let data = primary();
    let m = model1();
    let mut prev_var = f64::INFINITY;
    for rho in [0.0, 0.3, 0.6, 0.9] {
        let cck = build(
            &data,
            &m,
            (mean(&data), 0.0),
            rho,
            (1.0, 1.0),
            MarkovModel::Mm1,
            CollocatedConfig::default(),
        )
        .unwrap();
        let (_, variance) = predict(&cck, [3.0, 7.0], 1.0);
        assert!(variance <= prev_var + 1e-9, "rho={rho}");
        prev_var = variance;
    }
}

#[test]
fn estimate_collocated_stats_recovers_known_correlation() {
    let mut rng = Rng::new(11);
    let n = 500;
    let mut primary = Vec::with_capacity(n);
    let mut secondary = Vec::with_capacity(n);
    for _ in 0..n {
        let x = float(rng.normal(&ar()));
        let noise = float(rng.normal(&ar()));
        primary.push(double(2.0 + 3.0 * x));
        secondary.push(double(10.0 - 1.5 * (0.8 * x + 0.6 * noise)));
    }
    let (rho, s1, s2) = estimate_collocated_stats(&primary, &secondary, &ar()).unwrap();
    assert!((float(rho) - (-0.8)).abs() < 0.05, "rho12 {}", float(rho));
    assert!((float(s1) - 3.0).abs() < 0.3, "sigma1 {}", float(s1));
    assert!((float(s2) - 1.5).abs() < 0.15, "sigma2 {}", float(s2));
}

#[test]
fn predict_variance_matches_conditional_gaussian_formula_with_no_primary_neighbours() {
    let data = primary();
    let m = model1();
    for (rho12, sigma1, sigma2) in [(0.9, 3.0, 7.0), (0.4, 3.0, 7.0), (-0.7, 5.0, 2.0)] {
        let cck = build(
            &data,
            &m,
            (mean(&data), 0.0),
            rho12,
            (sigma1, sigma2),
            MarkovModel::Mm1,
            CollocatedConfig::with(Some(0), None, CollocatedConfig::default().ridge),
        )
        .unwrap();
        let (_, variance) = predict(&cck, [3.0, 4.0], 1.0);
        let expected = sigma1 * sigma1 * (1.0 - rho12 * rho12);
        assert!((variance - expected).abs() < 1e-9, "rho12={rho12} sigma1={sigma1}");
    }
}

#[test]
fn predict_variance_stays_bounded_with_mismatched_sigma_and_primary_neighbours() {
    let data = primary();
    let m = model1();
    for (rho12, sigma1, sigma2) in [(0.9, 3.0, 7.0), (-0.6, 4.0, 0.5)] {
        let cck = build(
            &data,
            &m,
            (mean(&data), 0.0),
            rho12,
            (sigma1, sigma2),
            MarkovModel::Mm1,
            CollocatedConfig::default(),
        )
        .unwrap();
        for target in [[3.0, 4.0], [7.0, 2.0], [-1.0, -1.0]] {
            let (_, variance) = predict(&cck, target, 1.0);
            assert!((0.0..=sigma1 * sigma1 + 1e-9).contains(&variance), "variance {variance}");
        }
    }
}

#[test]
fn rejects_bad_params() {
    let data = primary();
    let m = model1();
    let refused = |rho: f64, s1: f64| {
        build(
            &data,
            &m,
            (0.0, 0.0),
            rho,
            (s1, 1.0),
            MarkovModel::Mm1,
            CollocatedConfig::default(),
        )
        .is_err()
    };
    assert!(refused(1.5, 1.0), "rho12 > 1 must be rejected");
    assert!(refused(0.5, 0.0), "sigma1 <= 0 must be rejected");
}

#[test]
fn collocated_rejects_power_model() {
    let data = primary();
    let power = power_model(0.0, 1.0, 1.0);
    assert!(build(
        &data,
        &power,
        (0.0, 0.0),
        0.5,
        (1.0, 1.0),
        MarkovModel::Mm1,
        CollocatedConfig::default()
    )
    .is_err());
    let bounded = model1();
    assert!(build(
        &data,
        &bounded,
        (0.0, 0.0),
        0.5,
        (1.0, 1.0),
        MarkovModel::Mm2 { secondary_model: power_model(0.0, 1.0, 1.0) },
        CollocatedConfig::default()
    )
    .is_err());
}
