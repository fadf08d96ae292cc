use geostat::covariance::Covariance;
use geostat::data::PointSet;
use geostat::grid::Grid3D;
use geostat::model::ModelTraits;
use geostat::sgs::{sequential_gaussian_simulation_3d, sgs_at, SgsConfig};
use geostat::sis::{sequential_indicator_simulation_3d, SisConfig};
use geostat::tgs::{truncated_gaussian_simulation_3d, CategoricalData, TgsConfig};
use geostat::arith::{Arithmetic, Op};
use geostat::double::Double;

fn double(x: f64) -> Double {
    Double::from_bits(x.to_bits())
}

fn float(v: Double) -> f64 {
    f64::from_bits(v.bits)
}

type Calc = Arithmetic<fn(Op, Double, Double) -> Double>;

fn apply(op: Op, a: Double, b: Double) -> Double {
    let (x, y) = (float(a), float(b));
    double(match op {
        Op::Plus => x + y,
        Op::Minus => x - y,
        Op::Times => x * y,
        Op::Over => x / y,
        Op::Power => x.powf(y),
        Op::Root => x.sqrt(),
        Op::Exp => x.exp(),
        Op::Ln => x.ln(),
        Op::Sin => x.sin(),
        Op::Cos => x.cos(),
        Op::Sinh => x.sinh(),
        Op::Cosh => x.cosh(),
        Op::Asinh => x.asinh(),
    })
}

fn ar() -> Calc {
    Arithmetic::new(apply as fn(Op, Double, Double) -> Double)
}

fn doubles(xs: &[f64]) -> Vec<Double> {
    xs.iter().map(|x| double(*x)).collect()
}

fn floats(vs: &[Double]) -> Vec<f64> {
    vs.iter().map(|v| float(*v)).collect()
}


type Gamma = Box<dyn Fn([Double; 3]) -> Double + Sync>;

fn model() -> Covariance<3, Gamma> {
    let gamma = |h: [Double; 3]| {
        let r = h.iter().map(|x| float(*x).powi(2)).sum::<f64>().sqrt();
        double(if r == 0.0 { 0.0 } else { 0.05 + 0.95 * (1.0 - (-r / 3.0).exp()) })
    };
    Covariance {
        gamma: Box::new(gamma),
        covariance: None,
        sill: double(1.0),
        nugget: double(0.05),
        traits: ModelTraits { has_power: false, invalid_kind: None },
    }
}

fn coords() -> Vec<[Double; 3]> {
    let corner = |i: usize, bit: usize| if i >> bit & 1 == 1 { 9.0 } else { 1.0 };
    (0..8).map(|i| [corner(i, 0), corner(i, 1), corner(i, 2)].map(double)).collect()
}

fn data() -> PointSet<3> {
    PointSet::new(coords(), doubles(&[1.0, 4.0, 2.0, 7.0, 3.0, 8.0, 5.0, 6.0])).unwrap()
}

fn grid() -> Grid3D {
    let (min, max) = ([0.0; 3].map(double), [10.0; 3].map(double));
    Grid3D::from_bbox(min, max, 4, 3, 2, &ar()).unwrap()
}

#[test]
fn gaussian_simulation_in_space_is_reproducible_and_bounded() {
    let mut cfg = SgsConfig::default();
    cfg.n_realizations = 2;
    cfg.multigrid = 1;
    let run = || {
        sequential_gaussian_simulation_3d(&data(), &model(), &grid(), &cfg, &ar()).unwrap()
    };
    let a = run();
    assert_eq!(a, run());
    assert_ne!(a[0], a[1]);
    for field in &a {
        assert_eq!(field.len(), 24);
        assert!(floats(field).iter().all(|v| (1.0..=8.0).contains(v)));
    }
}

#[test]
fn nodes_on_the_centers_are_the_grid() {
    let cfg = SgsConfig::default();
    let nodes = grid().centers(&ar());
    assert_eq!(
        sgs_at(&data(), &model(), &nodes, &cfg, &ar()).unwrap(),
        sequential_gaussian_simulation_3d(&data(), &model(), &grid(), &cfg, &ar()).unwrap()
    );
    assert!(sgs_at(&data(), &model(), &vec![], &cfg, &ar()).is_err());
}

#[test]
fn indicator_simulation_in_space_is_reproducible_and_bounded() {
    let run = |models: usize| {
        let mut cfg = SisConfig::default();
        cfg.cutoffs = doubles(&[3.0, 6.0]);
        cfg.models = (0..models).map(|_| model()).collect();
        cfg.n_realizations = 2;
        sequential_indicator_simulation_3d(&data(), &grid(), &cfg, &ar()).unwrap()
    };
    let a = run(1);
    assert_eq!(a, run(1));
    assert_eq!(a, run(2), "one model serves all cutoffs");
    assert_ne!(a[0], a[1]);
    assert!(a.iter().all(|field| floats(field).iter().all(|v| (1.0..=8.0).contains(v))));
}

#[test]
fn categories_in_space_are_reproducible() {
    let data = CategoricalData::new(coords(), vec![0, 1, 0, 2, 1, 2, 0, 1], None).unwrap();
    let mut cfg = TgsConfig::default();
    cfg.n_realizations = 2;
    let run = || {
        truncated_gaussian_simulation_3d(&data, &model(), &grid(), &cfg, &ar()).unwrap()
    };
    let a = run();
    assert_eq!(a, run());
    assert!(a.iter().all(|field| field.len() == 24 && field.iter().all(|c| *c < 3)));
}
