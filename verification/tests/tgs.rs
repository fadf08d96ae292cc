use geostat::covariance::Covariance;
use geostat::grid::Grid2D;
use geostat::model::ModelTraits;
use geostat::tgs::{
    category_proportions, tgs_at, tgs_classify, tgs_thresholds, truncated_gaussian_simulation,
    CategoricalData, TgsConfig,
};
use geostat::transform::inv_norm_cdf;
use geostat::arith::{Arithmetic, Op};
use geostat::double::Double;

fn double(x: f64) -> Double {
    Double::from_bits(x.to_bits())
}

fn float(v: Double) -> f64 {
    f64::from_bits(v.bits)
}

type Calc = Arithmetic<fn(Op, Double, Double) -> Double>;

fn apply(op: Op, a: Double, b: Double) -> Double {
    let (x, y) = (float(a), float(b));
    double(match op {
        Op::Plus => x + y,
        Op::Minus => x - y,
        Op::Times => x * y,
        Op::Over => x / y,
        Op::Power => x.powf(y),
        Op::Root => x.sqrt(),
        Op::Exp => x.exp(),
        Op::Ln => x.ln(),
        Op::Sin => x.sin(),
        Op::Cos => x.cos(),
        Op::Sinh => x.sinh(),
        Op::Cosh => x.cosh(),
        Op::Asinh => x.asinh(),
    })
}

fn ar() -> Calc {
    Arithmetic::new(apply as fn(Op, Double, Double) -> Double)
}

fn doubles(xs: &[f64]) -> Vec<Double> {
    xs.iter().map(|x| double(*x)).collect()
}

fn floats(vs: &[Double]) -> Vec<f64> {
    vs.iter().map(|v| float(*v)).collect()
}

type Gamma = Box<dyn Fn([Double; 2]) -> Double + Sync>;

fn spherical(h: f64) -> f64 {
    if h >= 1.0 {
        1.0
    } else {
        1.5 * h - 0.5 * h * h * h
    }
}

fn exponential(h: f64) -> f64 {
    1.0 - (-h).exp()
}

fn covariance(
    shape: fn(f64) -> f64,
    nugget: f64,
    sill: f64,
    range: f64,
    azimuth: f64,
    ratio: f64,
) -> Covariance<2, Gamma> {
    let (sin, cos) = azimuth.to_radians().sin_cos();
    let gamma = move |h: [Double; 2]| {
        let (dx, dy) = (float(h[0]), float(h[1]));
        if dx == 0.0 && dy == 0.0 {
            return double(0.0);
        }
        let along = dx * sin + dy * cos;
        let across = (dx * cos - dy * sin) / ratio;
        let r = (along * along + across * across).sqrt();
        double(nugget + sill * shape(r / range))
    };
    Covariance {
        gamma: Box::new(gamma),
        covariance: None,
        sill: double(nugget + sill),
        nugget: double(nugget),
        traits: ModelTraits { has_power: false, invalid_kind: None },
    }
}

fn isotropic(shape: fn(f64) -> f64, nugget: f64, sill: f64, range: f64) -> Covariance<2, Gamma> {
    covariance(shape, nugget, sill, range, 0.0, 1.0)
}

fn power_model(nugget: f64, slope: f64, exponent: f64) -> Covariance<2, Gamma> {
    let gamma = move |h: [Double; 2]| {
        let (dx, dy) = (float(h[0]), float(h[1]));
        let r = (dx * dx + dy * dy).sqrt();
        double(if r == 0.0 { 0.0 } else { nugget + slope * r.powf(exponent) })
    };
    Covariance {
        gamma: Box::new(gamma),
        covariance: None,
        sill: double(nugget + slope),
        nugget: double(nugget),
        traits: ModelTraits { has_power: true, invalid_kind: None },
    }
}

fn at(p: [f64; 2]) -> [Double; 2] {
    [double(p[0]), double(p[1])]
}

fn tgs(set: impl FnOnce(&mut TgsConfig)) -> TgsConfig {
    let mut config = TgsConfig::default();
    set(&mut config);
    config
}

fn setup() -> (CategoricalData<2>, Covariance<2, Gamma>, Grid2D) {
    let data = CategoricalData::new(
        [
            [10.0, 10.0],
            [90.0, 10.0],
            [10.0, 90.0],
            [90.0, 90.0],
            [50.0, 50.0],
            [30.0, 70.0],
            [70.0, 30.0],
        ]
        .iter()
        .map(|p| at(*p))
        .collect(),
        vec![0, 2, 0, 2, 1, 1, 1],
        Some(3),
    )
    .unwrap();
    let model = isotropic(exponential, 0.05, 0.95, 30.0);
    let grid = Grid2D::from_bbox(at([0.0, 0.0]), at([100.0, 100.0]), 20, 20, &ar()).unwrap();
    (data, model, grid)
}

#[test]
fn thresholds_match_inv_norm_cdf_by_hand() {
    let t = floats(&tgs_thresholds(&doubles(&[0.2, 0.3, 0.5]), &ar()).unwrap());
    assert_eq!(t.len(), 2);
    assert!((t[0] - float(inv_norm_cdf(double(0.2), &ar()))).abs() < 1e-15);
    assert!((t[1] - float(inv_norm_cdf(double(0.5), &ar()))).abs() < 1e-15);
}

#[test]
fn two_category_median_threshold_is_zero() {
    let t = floats(&tgs_thresholds(&doubles(&[0.5, 0.5]), &ar()).unwrap());
    assert_eq!(t.len(), 1);
    assert!(t[0].abs() < 1e-9, "expected ~0.0, got {}", t[0]);
}

#[test]
fn category_proportions_matches_empirical_frequency() {
    let categories = vec![0, 0, 0, 1, 1, 2, 2, 2, 2];
    let props = floats(&category_proportions(&categories, 3, None, &ar()).unwrap());
    assert!((props[0] - 3.0 / 9.0).abs() < 1e-12);
    assert!((props[1] - 2.0 / 9.0).abs() < 1e-12);
    assert!((props[2] - 4.0 / 9.0).abs() < 1e-12);
}

#[test]
fn ensemble_proportions_track_input_proportions() {
    let (data, model, grid) = setup();
    let proportions = [0.2, 0.5, 0.3];
    let cfg = tgs(|c| {
        c.n_realizations = 40;
        c.seed = 7;
        c.proportions = doubles(&proportions);
    });
    let res = truncated_gaussian_simulation(&data, &model, &grid, &cfg, &ar()).unwrap();
    let mut counts = [0usize; 3];
    let mut total = 0usize;
    for r in &res.realizations {
        for &c in r {
            counts[c] += 1;
            total += 1;
        }
    }
    for (k, p) in proportions.iter().enumerate() {
        let empirical = counts[k] as f64 / total as f64;
        assert!((empirical - p).abs() < 0.05, "category {k}: {empirical} vs input {p}");
    }
}

#[test]
fn hard_data_category_honored_at_conditioning_locations() {
    let (data, model, _grid) = setup();
    let cfg = tgs(|c| {
        c.n_realizations = 5;
        c.seed = 11;
    });
    let realizations = tgs_at(&data, &model, data.coords(), &cfg, &ar()).unwrap();
    for r in &realizations {
        assert_eq!(r, data.categories());
    }
}

#[test]
fn tgs_reproducible_with_same_seed() {
    let (data, model, grid) = setup();
    let run = |seed: u64| {
        let cfg = tgs(|c| {
            c.n_realizations = 3;
            c.seed = seed;
        });
        truncated_gaussian_simulation(&data, &model, &grid, &cfg, &ar()).unwrap().realizations
    };
    let a = run(123);
    assert_eq!(a, run(123));
    assert_ne!(a[0], run(124)[0]);
}

#[test]
fn tgs_rejects_bad_config() {
    let (data, model, grid) = setup();
    let refused = |cfg: TgsConfig| {
        truncated_gaussian_simulation(&data, &model, &grid, &cfg, &ar()).is_err()
    };
    assert!(refused(tgs(|c| c.n_realizations = 0)));
    assert!(refused(tgs(|c| c.max_neighbors = 0)));
    assert!(refused(tgs(|c| c.proportions = doubles(&[0.5, 0.6]))));
    assert!(refused(tgs(|c| c.proportions = doubles(&[0.3, 0.7]))));
    let power = power_model(0.0, 1.0, 1.0);
    assert!(truncated_gaussian_simulation(&data, &power, &grid, &TgsConfig::default(), &ar())
        .is_err());
    assert!(CategoricalData::<2>::new(vec![at([0.0, 0.0])], vec![5], Some(3)).is_err());
    assert!(CategoricalData::<2>::new(vec![at([0.0, 0.0])], vec![], None).is_err());
}

#[test]
fn a_value_falls_into_one_category() {
    let t = doubles(&[-1.0, 1.0]);
    assert_eq!(tgs_classify(double(-2.0), &t), 0);
    assert_eq!(tgs_classify(double(0.0), &t), 1);
    assert_eq!(tgs_classify(double(2.0), &t), 2);
}

#[test]
fn more_categorical_realizations_leave_the_first_ones_as_they_were() {
    let (data, model, grid) = setup();
    let run = |n: usize| {
        let cfg = tgs(|c| {
            c.n_realizations = n;
            c.seed = 9;
        });
        truncated_gaussian_simulation(&data, &model, &grid, &cfg, &ar()).unwrap().realizations
    };
    assert_eq!(run(2), run(5)[..2]);
}
