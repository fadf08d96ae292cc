use geostat::covariance::Covariance;
use geostat::data::PointSet;
use geostat::kriging::{Kriging, KrigingConfig};
use geostat::model::ModelTraits;
use geostat::arith::{Arithmetic, Op};
use geostat::double::Double;

fn double(x: f64) -> Double {
    Double::from_bits(x.to_bits())
}

fn float(v: Double) -> f64 {
    f64::from_bits(v.bits)
}

type Calc = Arithmetic<fn(Op, Double, Double) -> Double>;

fn apply(op: Op, a: Double, b: Double) -> Double {
    let (x, y) = (float(a), float(b));
    double(match op {
        Op::Plus => x + y,
        Op::Minus => x - y,
        Op::Times => x * y,
        Op::Over => x / y,
        Op::Power => x.powf(y),
        Op::Root => x.sqrt(),
        Op::Exp => x.exp(),
        Op::Ln => x.ln(),
        Op::Sin => x.sin(),
        Op::Cos => x.cos(),
        Op::Sinh => x.sinh(),
        Op::Cosh => x.cosh(),
        Op::Asinh => x.asinh(),
    })
}

fn ar() -> Calc {
    Arithmetic::new(apply as fn(Op, Double, Double) -> Double)
}

fn at(p: [f64; 2]) -> [Double; 2] {
    [double(p[0]), double(p[1])]
}

fn place(p: [Double; 2]) -> [f64; 2] {
    [float(p[0]), float(p[1])]
}

fn point_set(coords: &[[f64; 2]], values: &[f64]) -> PointSet<2> {
    PointSet::new(
        coords.iter().map(|p| at(*p)).collect(),
        values.iter().map(|v| double(*v)).collect(),
    )
    .unwrap()
}

type Gamma = Box<dyn Fn([Double; 2]) -> Double + Sync>;

fn spherical(h: f64) -> f64 {
    if h >= 1.0 {
        1.0
    } else {
        1.5 * h - 0.5 * h * h * h
    }
}

fn exponential(h: f64) -> f64 {
    1.0 - (-h).exp()
}

fn covariance(
    shape: fn(f64) -> f64,
    nugget: f64,
    sill: f64,
    range: f64,
    azimuth: f64,
    ratio: f64,
) -> Covariance<2, Gamma> {
    let (sin, cos) = azimuth.to_radians().sin_cos();
    let gamma = move |h: [Double; 2]| {
        let (dx, dy) = (float(h[0]), float(h[1]));
        if dx == 0.0 && dy == 0.0 {
            return double(0.0);
        }
        let along = dx * sin + dy * cos;
        let across = (dx * cos - dy * sin) / ratio;
        let r = (along * along + across * across).sqrt();
        double(nugget + sill * shape(r / range))
    };
    Covariance {
        gamma: Box::new(gamma),
        covariance: None,
        sill: double(nugget + sill),
        nugget: double(nugget),
        traits: ModelTraits { has_power: false, invalid_kind: None },
    }
}

fn isotropic(shape: fn(f64) -> f64, nugget: f64, sill: f64, range: f64) -> Covariance<2, Gamma> {
    covariance(shape, nugget, sill, range, 0.0, 1.0)
}

fn hand_rolled(nugget: f64, sill: f64, range: f64) -> Covariance<2, Gamma> {
    let gamma = move |dh: [Double; 2]| {
        let h = dh.iter().map(|d| float(*d) * float(*d)).sum::<f64>().sqrt();
        double(if h == 0.0 { 0.0 } else { nugget + sill * (1.0 - (-h / range).exp()) })
    };
    Covariance {
        gamma: Box::new(gamma),
        covariance: None,
        sill: double(nugget + sill),
        nugget: double(nugget),
        traits: ModelTraits { has_power: false, invalid_kind: None },
    }
}

fn sample_data() -> PointSet<2> {
    point_set(
        &[[0.0, 0.0], [1.0, 0.0], [0.0, 1.0], [1.0, 1.0], [0.4, 0.6]],
        &[1.0, 2.0, 1.5, 2.5, 1.7],
    )
}

#[test]
fn custom_covariance_matches_the_equivalent_variogram_model_exactly() {
    let data = sample_data();
    let custom = hand_rolled(0.05, 0.95, 2.0);
    let equivalent = isotropic(exponential, 0.05, 0.95, 2.0);
    let cfg = KrigingConfig::default();
    let via_trait = Kriging::new(&data, &custom, cfg, &ar()).unwrap();
    let via_concrete = Kriging::new(&data, &equivalent, cfg, &ar()).unwrap();
    for t in [[0.3, 0.3], [0.9, 0.1], [2.0, 2.0]] {
        let a = via_trait.predict(at(t), &ar()).unwrap();
        let b = via_concrete.predict(at(t), &ar()).unwrap();
        assert!((float(a.value) - float(b.value)).abs() < 1e-12);
        assert!((float(a.variance) - float(b.variance)).abs() < 1e-12);
    }
}

#[test]
fn custom_covariance_is_exact_at_data_and_has_positive_variance_elsewhere() {
    let data = sample_data();
    let custom = hand_rolled(0.0, 1.0, 1.5);
    let k = Kriging::new(&data, &custom, KrigingConfig::default(), &ar()).unwrap();
    for i in 0..data.len() {
        let est = k.predict(data.coord(i), &ar()).unwrap();
        assert!((float(est.value) - float(data.value(i))).abs() < 1e-8);
        assert!(float(est.variance) < 1e-8);
    }
    let far = k.predict(at([50.0, 50.0]), &ar()).unwrap();
    assert!(float(far.variance) > 0.0);
}

#[test]
fn variogram_model_covariance_impl_matches_its_inherent_methods() {
    let m = isotropic(spherical, 0.1, 0.9, 10.0);
    for h in [0.0, 1.0, 5.0, 10.0, 20.0] {
        let gamma = if h == 0.0 { 0.0 } else { 0.1 + 0.9 * spherical(h / 10.0) };
        assert_eq!(float(m.gamma_dh(at([h, 0.0]))), gamma);
        assert_eq!(float(m.covariance_dh(at([h, 0.0]), &ar())), (0.1 + 0.9) - gamma);
    }
    assert_eq!(m.nugget(), double(0.1));
    assert!(!m.has_power());
    assert!(m.is_valid_dim());
}

#[test]
fn a_covariance_of_its_own_is_the_covariance_of_the_model() {
    let own = |dh: [Double; 2]| double(if float(dh[0]) == 0.0 { 1.0 } else { 0.25 });
    let mut m = hand_rolled(0.0, 1.0, 2.0);
    m.covariance = Some(Box::new(own));
    assert_eq!(float(m.covariance_dh(at([0.0, 0.0]), &ar())), 1.0);
    assert_eq!(float(m.covariance_dh(at([3.0, 0.0]), &ar())), 0.25);
    assert_eq!(float(m.gamma_dh(at([3.0, 0.0]))), 1.0 - (-1.5f64).exp());
    // Systems are set up from the sill and the semivariance.
    let data = sample_data();
    let plain = hand_rolled(0.0, 1.0, 2.0);
    let a = Kriging::new(&data, &m, KrigingConfig::default(), &ar()).unwrap();
    let b = Kriging::new(&data, &plain, KrigingConfig::default(), &ar()).unwrap();
    let t = at([0.7, 0.2]);
    assert_eq!(a.predict(t, &ar()).unwrap().value, b.predict(t, &ar()).unwrap().value);
}
