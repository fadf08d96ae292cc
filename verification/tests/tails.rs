use geostat::error::GeostatError;
use geostat::tails::{draw_lower, draw_upper, lower_moments, upper_moments, TailModel};
use geostat::arith::{Arithmetic, Op};
use geostat::double::Double;

fn double(x: f64) -> Double {
    Double::from_bits(x.to_bits())
}

fn float(v: Double) -> f64 {
    f64::from_bits(v.bits)
}

type Calc = Arithmetic<fn(Op, Double, Double) -> Double>;

fn apply(op: Op, a: Double, b: Double) -> Double {
    let (x, y) = (float(a), float(b));
    double(match op {
        Op::Plus => x + y,
        Op::Minus => x - y,
        Op::Times => x * y,
        Op::Over => x / y,
        Op::Power => x.powf(y),
        Op::Root => x.sqrt(),
        Op::Exp => x.exp(),
        Op::Ln => x.ln(),
        Op::Sin => x.sin(),
        Op::Cos => x.cos(),
        Op::Sinh => x.sinh(),
        Op::Cosh => x.cosh(),
        Op::Asinh => x.asinh(),
    })
}

fn ar() -> Calc {
    Arithmetic::new(apply as fn(Op, Double, Double) -> Double)
}

fn parse(s: &str) -> Result<TailModel, GeostatError> {
    TailModel::parse(s, |t: &str| t.parse::<f64>().ok().map(double))
}

fn power(w: f64) -> TailModel {
    TailModel::Power(double(w))
}

fn lower(m: TailModel, zmin: f64, z1: f64, t: f64) -> f64 {
    float(draw_lower(m, double(zmin), double(z1), double(t), &ar()))
}

fn upper(m: TailModel, zk: f64, zmax: f64, t: f64) -> f64 {
    float(draw_upper(m, double(zk), double(zmax), double(t), &ar()))
}

fn pair(m: (Double, Double)) -> (f64, f64) {
    (float(m.0), float(m.1))
}

#[test]
fn parse_specs() {
    assert_eq!(parse("linear").unwrap(), TailModel::Linear);
    assert_eq!(parse("none").unwrap(), TailModel::Clamped);
    assert_eq!(parse("power:1.5").unwrap(), power(1.5));
    assert_eq!(parse("hyper:2").unwrap(), TailModel::Hyperbolic(double(2.0)));
    assert_eq!(parse("hyper").unwrap(), TailModel::Hyperbolic(double(1.5)));
    assert!(parse("pareto").is_err());
    assert!(parse("power:x").is_err());
}

#[test]
fn power_one_is_linear() {
    for t in [0.0, 0.3, 0.7, 1.0] {
        let a = lower(power(1.0), 2.0, 5.0, t);
        let b = lower(TailModel::Linear, 2.0, 5.0, t);
        assert!((a - b).abs() < 1e-14);
    }
    let (m1a, m2a) = pair(upper_moments(power(1.0), double(3.0), double(9.0), &ar()));
    let (m1b, m2b) = pair(upper_moments(TailModel::Linear, double(3.0), double(9.0), &ar()));
    assert!((m1a - m1b).abs() < 1e-12 && (m2a - m2b).abs() < 1e-12);
    assert!((m1b - 6.0).abs() < 1e-12);
    assert!((m2b - (9.0 + 27.0 + 81.0) / 3.0).abs() < 1e-12);
}

#[test]
fn hyperbolic_upper_decays_and_caps() {
    let m = TailModel::Hyperbolic(double(1.5));
    let z1 = upper(m, 4.0, 100.0, 0.5);
    let z2 = upper(m, 4.0, 100.0, 0.99);
    assert!(z1 > 4.0 && z2 > z1 && z2 <= 100.0);
    assert!(upper(m, 4.0, 100.0, 1.0 - 1e-16) <= 100.0);
    let (mean, m2) = pair(upper_moments(m, double(4.0), double(100.0), &ar()));
    let n = 200_000;
    let (mut s1, mut s2) = (0.0, 0.0);
    for i in 0..n {
        let t = (i as f64 + 0.5) / n as f64;
        let z = upper(m, 4.0, 100.0, t);
        s1 += z;
        s2 += z * z;
    }
    s1 /= n as f64;
    s2 /= n as f64;
    assert!((mean - s1).abs() < 1e-3 * s1, "{mean} vs {s1}");
    assert!((m2 - s2).abs() < 5e-3 * s2, "{m2} vs {s2}");
}

#[test]
fn moments_match_numerical_integrals_for_power() {
    for w in [0.5, 1.0, 2.5] {
        let (mean, m2) = pair(lower_moments(power(w), double(1.0), double(3.0), &ar()));
        let n = 100_000;
        let (mut s1, mut s2) = (0.0, 0.0);
        for i in 0..n {
            let t = (i as f64 + 0.5) / n as f64;
            let z = lower(power(w), 1.0, 3.0, t);
            s1 += z;
            s2 += z * z;
        }
        s1 /= n as f64;
        s2 /= n as f64;
        assert!((mean - s1).abs() < 1e-4, "w={w}: {mean} vs {s1}");
        assert!((m2 - s2).abs() < 1e-3, "w={w}: {m2} vs {s2}");
    }
}

#[test]
fn unknown_tails_are_named() {
    match parse(" Pareto : 2 ") {
        Err(GeostatError::InvalidParameter(m)) => assert_eq!(
            m.text,
            "unknown tail model 'pareto' (expected none, linear, power[:w] or hyper[:w])"
        ),
        other => panic!("{other:?}"),
    }
}
