use geostat::covariance::Covariance;
use geostat::data::PointSet;
use geostat::error::GeostatError;
use geostat::grid::Grid2D;
use geostat::model::ModelTraits;
use geostat::sgs::{sequential_gaussian_simulation, SgsConfig};
use geostat::tails::TailModel;
use geostat::transform::Tails;
use geostat::arith::{Arithmetic, Op};
use geostat::double::Double;

fn double(x: f64) -> Double {
    Double::from_bits(x.to_bits())
}

fn float(v: Double) -> f64 {
    f64::from_bits(v.bits)
}

type Calc = Arithmetic<fn(Op, Double, Double) -> Double>;

fn apply(op: Op, a: Double, b: Double) -> Double {
    let (x, y) = (float(a), float(b));
    double(match op {
        Op::Plus => x + y,
        Op::Minus => x - y,
        Op::Times => x * y,
        Op::Over => x / y,
        Op::Power => x.powf(y),
        Op::Root => x.sqrt(),
        Op::Exp => x.exp(),
        Op::Ln => x.ln(),
        Op::Sin => x.sin(),
        Op::Cos => x.cos(),
        Op::Sinh => x.sinh(),
        Op::Cosh => x.cosh(),
        Op::Asinh => x.asinh(),
    })
}

fn ar() -> Calc {
    Arithmetic::new(apply as fn(Op, Double, Double) -> Double)
}

fn at(p: [f64; 2]) -> [Double; 2] {
    [double(p[0]), double(p[1])]
}

fn place(p: [Double; 2]) -> [f64; 2] {
    [float(p[0]), float(p[1])]
}

fn point_set(coords: &[[f64; 2]], values: &[f64]) -> PointSet<2> {
    PointSet::new(
        coords.iter().map(|p| at(*p)).collect(),
        values.iter().map(|v| double(*v)).collect(),
    )
    .unwrap()
}

type Gamma = Box<dyn Fn([Double; 2]) -> Double + Sync>;

fn spherical(h: f64) -> f64 {
    if h >= 1.0 {
        1.0
    } else {
        1.5 * h - 0.5 * h * h * h
    }
}

fn exponential(h: f64) -> f64 {
    1.0 - (-h).exp()
}

fn covariance(
    shape: fn(f64) -> f64,
    nugget: f64,
    sill: f64,
    range: f64,
    azimuth: f64,
    ratio: f64,
) -> Covariance<2, Gamma> {
    let (sin, cos) = azimuth.to_radians().sin_cos();
    let gamma = move |h: [Double; 2]| {
        let (dx, dy) = (float(h[0]), float(h[1]));
        if dx == 0.0 && dy == 0.0 {
            return double(0.0);
        }
        let along = dx * sin + dy * cos;
        let across = (dx * cos - dy * sin) / ratio;
        let r = (along * along + across * across).sqrt();
        double(nugget + sill * shape(r / range))
    };
    Covariance {
        gamma: Box::new(gamma),
        covariance: None,
        sill: double(nugget + sill),
        nugget: double(nugget),
        traits: ModelTraits { has_power: false, invalid_kind: None },
    }
}

fn isotropic(shape: fn(f64) -> f64, nugget: f64, sill: f64, range: f64) -> Covariance<2, Gamma> {
    covariance(shape, nugget, sill, range, 0.0, 1.0)
}

fn power_model(nugget: f64, slope: f64, exponent: f64) -> Covariance<2, Gamma> {
    let gamma = move |h: [Double; 2]| {
        let (dx, dy) = (float(h[0]), float(h[1]));
        let r = (dx * dx + dy * dy).sqrt();
        double(if r == 0.0 { 0.0 } else { nugget + slope * r.powf(exponent) })
    };
    Covariance {
        gamma: Box::new(gamma),
        covariance: None,
        sill: double(nugget + slope),
        nugget: double(nugget),
        traits: ModelTraits { has_power: true, invalid_kind: None },
    }
}

fn sgs(set: impl FnOnce(&mut SgsConfig)) -> SgsConfig {
    let mut config = SgsConfig::default();
    set(&mut config);
    config
}

fn setup() -> (PointSet<2>, Covariance<2, Gamma>, Grid2D) {
    let data = point_set(
        &[
            [10.0, 10.0],
            [90.0, 10.0],
            [10.0, 90.0],
            [90.0, 90.0],
            [50.0, 50.0],
            [30.0, 70.0],
            [70.0, 30.0],
        ],
        &[1.0, 5.0, 2.0, 8.0, 4.0, 3.0, 6.0],
    );
    let model = isotropic(exponential, 0.05, 0.95, 30.0);
    let grid = Grid2D::from_bbox(at([0.0, 0.0]), at([100.0, 100.0]), 10, 10, &ar()).unwrap();
    (data, model, grid)
}

#[test]
fn simulation_reproducible_with_same_seed() {
    let (data, model, grid) = setup();
    let cfg = sgs(|c| { c.n_realizations = 3; c.seed = 123; });
    let a = sequential_gaussian_simulation(&data, &model, &grid, &cfg, &ar()).unwrap();
    let b = sequential_gaussian_simulation(&data, &model, &grid, &cfg, &ar()).unwrap();
    assert_eq!(a.realizations, b.realizations);
    assert_ne!(a.realizations[0], a.realizations[1]);
    let cfg2 = { let mut c = cfg; c.seed = 124; c };
    let c = sequential_gaussian_simulation(&data, &model, &grid, &cfg2, &ar()).unwrap();
    assert_ne!(a.realizations[0], c.realizations[0]);
}

fn quota_base() -> SgsConfig {
    sgs(|c| { c.n_realizations = 3; c.seed = 11; c.max_neighbors = 12; c.search_radius = None; })
}

#[test]
fn simulation_multigrid_and_node_quota_run_reproducibly() {
    let (data, model, grid) = setup();
    let run = |cfg: &SgsConfig| {
        sequential_gaussian_simulation(&data, &model, &grid, cfg, &ar()).unwrap().realizations
    };
    let plain = run(&quota_base());
    let mg_cfg = { let mut c = quota_base(); c.multigrid = 2; c };
    let mg1 = run(&mg_cfg);
    assert_eq!(mg1, run(&mg_cfg));
    assert_ne!(mg1, plain);
    let quota_cfg = { let mut c = quota_base(); c.max_node_neighbors = Some(8); c };
    let q1 = run(&quota_cfg);
    assert_eq!(q1, run(&quota_cfg));
    assert_ne!(q1, plain);
    for r in mg1.iter().chain(&q1) {
        for v in r {
            assert!(float(*v) >= 1.0 - 1e-9 && float(*v) <= 8.0 + 1e-9);
        }
    }
}

#[test]
fn tails_let_realizations_exceed_the_data_range() {
    let (data, model, grid) = setup();
    let (lo, hi) = (1.0, 8.0);
    let cfg = sgs(|c| { c.n_realizations = 20; c.seed = 7; c.max_neighbors = 12; c.search_radius = None; c.tails = Tails {
            lower: TailModel::Linear,
            upper: TailModel::Linear,
            lower_bound: Some(double(lo - 2.0)),
            upper_bound: Some(double(hi + 2.0)),
        }; });
    let res = sequential_gaussian_simulation(&data, &model, &grid, &cfg, &ar()).unwrap();
    let mut exceeds = false;
    for r in &res.realizations {
        for v in r {
            let v = float(*v);
            assert!(v >= lo - 2.0 - 1e-9 && v <= hi + 2.0 + 1e-9);
            if v > hi || v < lo {
                exceeds = true;
            }
        }
    }
    assert!(exceeds, "with tails enabled some values should leave the data range");
}

#[test]
fn values_within_data_range() {
    let (data, model, grid) = setup();
    let cfg = sgs(|c| { c.n_realizations = 2; c.seed = 7; });
    let res = sequential_gaussian_simulation(&data, &model, &grid, &cfg, &ar()).unwrap();
    for real in &res.realizations {
        assert_eq!(real.len(), grid.n_cells());
        for v in real {
            assert!((1.0..=8.0).contains(&float(*v)), "value outside data range");
        }
    }
}

#[test]
fn simulation_rejects_bad_config() {
    let (data, model, grid) = setup();
    let cfg = sgs(|c| { c.n_realizations = 0; });
    assert!(sequential_gaussian_simulation(&data, &model, &grid, &cfg, &ar()).is_err());
    let cfg = sgs(|c| { c.max_neighbors = 0; });
    assert!(sequential_gaussian_simulation(&data, &model, &grid, &cfg, &ar()).is_err());
}

#[test]
fn simulation_rejects_power_model() {
    let (data, _model, grid) = setup();
    let power = power_model(0.0, 1.0, 1.0);
    let cfg = SgsConfig::default();
    assert!(sequential_gaussian_simulation(&data, &power, &grid, &cfg, &ar()).is_err());
}

#[test]
fn more_realizations_leave_the_first_ones_as_they_were() {
    let (data, model, grid) = setup();
    let run = |n: usize| {
        let cfg = sgs(|c| { c.n_realizations = n; c.seed = 5; });
        sequential_gaussian_simulation(&data, &model, &grid, &cfg, &ar()).unwrap().realizations
    };
    let many = run(4);
    assert_eq!(run(1), many[..1]);
    assert_eq!(run(3), many[..3]);
}

fn apply_without_angles(op: Op, a: Double, b: Double) -> Double {
    match op {
        Op::Sin | Op::Cos => double(f64::NAN),
        _ => apply(op, a, b),
    }
}

#[test]
fn scores_that_are_no_numbers_are_refused() {
    let (data, model, grid) = setup();
    let cfg = sgs(|c| { c.n_realizations = 2; c.seed = 5; });
    let broken: Calc =
        Arithmetic::new(apply_without_angles as fn(Op, Double, Double) -> Double);
    match sequential_gaussian_simulation(&data, &model, &grid, &cfg, &broken) {
        Err(GeostatError::InvalidParameter(m)) => {
            assert_eq!(m.text, "a simulated score is not a number")
        }
        other => panic!("{other:?}"),
    }
}
