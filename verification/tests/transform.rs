use geostat::tails::TailModel;
use geostat::transform::{inv_norm_cdf, norm_cdf, NormalScore, Tails};
use geostat::arith::{Arithmetic, Op};
use geostat::double::Double;

fn double(x: f64) -> Double {
    Double::from_bits(x.to_bits())
}

fn float(v: Double) -> f64 {
    f64::from_bits(v.bits)
}

type Calc = Arithmetic<fn(Op, Double, Double) -> Double>;

fn apply(op: Op, a: Double, b: Double) -> Double {
    let (x, y) = (float(a), float(b));
    double(match op {
        Op::Plus => x + y,
        Op::Minus => x - y,
        Op::Times => x * y,
        Op::Over => x / y,
        Op::Power => x.powf(y),
        Op::Root => x.sqrt(),
        Op::Exp => x.exp(),
        Op::Ln => x.ln(),
        Op::Sin => x.sin(),
        Op::Cos => x.cos(),
        Op::Sinh => x.sinh(),
        Op::Cosh => x.cosh(),
        Op::Asinh => x.asinh(),
    })
}

fn ar() -> Calc {
    Arithmetic::new(apply as fn(Op, Double, Double) -> Double)
}

fn doubles(xs: &[f64]) -> Vec<Double> {
    xs.iter().map(|x| double(*x)).collect()
}

fn floats(vs: &[Double]) -> Vec<f64> {
    vs.iter().map(|v| float(*v)).collect()
}

fn quantile(p: f64) -> f64 {
    float(inv_norm_cdf(double(p), &ar()))
}

fn cdf(z: f64) -> f64 {
    float(norm_cdf(double(z), &ar()))
}

fn fit(values: &[f64]) -> NormalScore {
    NormalScore::fit(&doubles(values), &ar()).unwrap()
}

fn score(ns: &NormalScore, v: f64) -> f64 {
    float(ns.transform(double(v), &ar()))
}

fn back(ns: &NormalScore, s: f64) -> f64 {
    float(ns.back_transform(double(s), &ar()))
}

#[test]
fn inv_norm_cdf_known_values() {
    assert!(quantile(0.5).abs() < 1e-9);
    assert!((quantile(0.975) - 1.959_964).abs() < 1e-5);
    assert!((quantile(0.025) + 1.959_964).abs() < 1e-5);
    assert!((quantile(0.001) + 3.090_232).abs() < 1e-5);
}

#[test]
fn round_trip_identity() {
    let values = vec![3.1, 0.2, 7.5, 1.1, 4.4, 2.2, 9.9, 0.5];
    let ns = fit(&values);
    for &v in &values {
        let b = back(&ns, score(&ns, v));
        assert!((b - v).abs() < 1e-9, "{v} -> {b}");
    }
}

#[test]
fn scores_are_centered() {
    let values: Vec<f64> = (0..101).map(|i| i as f64).collect();
    let ns = fit(&values);
    assert!(score(&ns, 50.0).abs() < 1e-9);
    assert!(score(&ns, 10.0) < score(&ns, 90.0));
}

#[test]
fn weighted_fit_with_equal_weights_matches_unweighted() {
    let values = vec![3.1, 0.2, 7.5, 1.1, 4.4, 2.2, 9.9, 0.5, 1.1];
    let a = fit(&values);
    let weighted = |w: f64| {
        NormalScore::fit_weighted(&doubles(&values), &vec![double(w); values.len()], &ar())
            .unwrap()
    };
    let b = weighted(1.0);
    for &v in &values {
        assert_eq!(score(&a, v), score(&b, v), "score differs at {v}");
    }
    let c = weighted(2.5);
    for &v in &values {
        assert!((score(&a, v) - score(&c, v)).abs() < 1e-12);
    }
}

#[test]
fn weights_shift_the_reference_distribution() {
    let values = vec![1.0, 5.0, 5.5, 6.0, 6.5, 7.0];
    let equal = fit(&values);
    let mut weights = vec![0.2; values.len()];
    weights[0] = 2.0;
    let weighted =
        NormalScore::fit_weighted(&doubles(&values), &doubles(&weights), &ar()).unwrap();
    assert!(score(&weighted, 1.0) > score(&equal, 1.0));
    assert!(score(&weighted, 5.0) > score(&equal, 5.0));
    assert!(score(&weighted, 7.0) > score(&equal, 7.0));
    assert!(NormalScore::fit_weighted(&doubles(&values), &doubles(&[1.0; 3]), &ar()).is_err());
    let mut bad = vec![1.0; values.len()];
    bad[2] = 0.0;
    assert!(NormalScore::fit_weighted(&doubles(&values), &doubles(&bad), &ar()).is_err());
}

#[test]
fn norm_cdf_matches_inverse() {
    assert!((cdf(0.0) - 0.5).abs() < 1e-9);
    assert!((cdf(1.959_964) - 0.975).abs() < 1e-7);
    assert!((cdf(-1.959_964) - 0.025).abs() < 1e-7);
    for p in [0.01, 0.2, 0.5, 0.8, 0.99] {
        assert!((cdf(quantile(p)) - p).abs() < 1e-6, "p = {p}");
    }
}

#[test]
fn tail_extrapolation_extends_beyond_data_range() {
    let values = vec![1.0, 2.0, 3.0, 4.0, 5.0, 6.0, 7.0, 8.0];
    let tails = Tails {
        lower: TailModel::Linear,
        upper: TailModel::Power(double(2.0)),
        lower_bound: Some(double(0.0)),
        upper_bound: Some(double(20.0)),
    };
    let ns = NormalScore::fit_with_tails(&doubles(&values), tails, &ar()).unwrap();
    let hi = back(&ns, 3.5);
    assert!(hi > 8.0 && hi <= 20.0, "upper tail value {hi}");
    let lo = back(&ns, -3.5);
    assert!((0.0..1.0).contains(&lo), "lower tail value {lo}");
    assert!(back(&ns, -4.0) <= back(&ns, -3.0));
    assert!(back(&ns, 3.0) <= back(&ns, 4.0));
    let s_last = score(&ns, 8.0);
    assert!((back(&ns, s_last + 1e-9) - 8.0).abs() < 1e-2);
    assert!((back(&ns, s_last + 1e-13) - 8.0).abs() < 1e-4);
    for &v in &values {
        assert!((back(&ns, score(&ns, v)) - v).abs() < 1e-9);
    }
}

#[test]
fn hyperbolic_upper_tail_caps_at_zmax() {
    let values = vec![1.0, 2.0, 3.0, 5.0, 9.0];
    let tails = Tails {
        lower: TailModel::Clamped,
        upper: TailModel::Hyperbolic(double(1.5)),
        lower_bound: None,
        upper_bound: Some(double(100.0)),
    };
    let ns = NormalScore::fit_with_tails(&doubles(&values), tails, &ar()).unwrap();
    let z = back(&ns, 5.0);
    assert!(z > 9.0 && z <= 100.0, "hyperbolic tail value {z}");
}

#[test]
fn tail_validation_rejects_bad_configs() {
    let values = doubles(&[1.0, 2.0, 3.0]);
    let t = Tails { lower: TailModel::Linear, ..Default::default() };
    assert!(NormalScore::fit_with_tails(&values, t, &ar()).is_err());
    let t = Tails {
        upper: TailModel::Linear,
        upper_bound: Some(double(2.5)),
        ..Default::default()
    };
    assert!(NormalScore::fit_with_tails(&values, t, &ar()).is_err());
    let t = Tails {
        lower: TailModel::Hyperbolic(double(1.5)),
        lower_bound: Some(double(0.0)),
        ..Default::default()
    };
    assert!(NormalScore::fit_with_tails(&values, t, &ar()).is_err());
    let t = Tails {
        upper: TailModel::Hyperbolic(double(1.5)),
        upper_bound: Some(double(1.0)),
        ..Default::default()
    };
    assert!(NormalScore::fit_with_tails(&doubles(&[-3.0, -2.0, -1.0]), t, &ar()).is_err());
}

#[test]
fn handles_ties_and_clamps_tails() {
    let ns = fit(&[1.0, 1.0, 1.0, 2.0, 3.0]);
    assert!(score(&ns, 1.0) < 0.0);
    assert_eq!(back(&ns, 10.0), 3.0);
    assert_eq!(back(&ns, -10.0), 1.0);
    assert!(NormalScore::fit(&doubles(&[5.0, 5.0, 5.0]), &ar()).is_err());
}

#[test]
fn scores_map_back_in_order_and_into_the_range_of_the_data() {
    let ns = fit(&[3.0, 1.0, 2.5, 7.0, 1.0]);
    let mapped: Vec<f64> = (-40..=40).map(|i| back(&ns, i as f64 / 10.0)).collect();
    assert!(mapped.windows(2).all(|w| w[0] <= w[1]));
    assert_eq!((mapped[0], mapped[80]), (1.0, 7.0));
}
