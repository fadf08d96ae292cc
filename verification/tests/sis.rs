use geostat::ccdf::order_corrections;
use geostat::covariance::Covariance;
use geostat::data::PointSet;
use geostat::grid::Grid2D;
use geostat::indicator::indicator_estimate_soft;
use geostat::model::ModelTraits;
use geostat::rng::Rng;
use geostat::sis::{sequential_indicator_simulation, sis_at, SisConfig};
use geostat::arith::{Arithmetic, Op};
use geostat::double::Double;

fn double(x: f64) -> Double {
    Double::from_bits(x.to_bits())
}

fn float(v: Double) -> f64 {
    f64::from_bits(v.bits)
}

type Calc = Arithmetic<fn(Op, Double, Double) -> Double>;

fn apply(op: Op, a: Double, b: Double) -> Double {
    let (x, y) = (float(a), float(b));
    double(match op {
        Op::Plus => x + y,
        Op::Minus => x - y,
        Op::Times => x * y,
        Op::Over => x / y,
        Op::Power => x.powf(y),
        Op::Root => x.sqrt(),
        Op::Exp => x.exp(),
        Op::Ln => x.ln(),
        Op::Sin => x.sin(),
        Op::Cos => x.cos(),
        Op::Sinh => x.sinh(),
        Op::Cosh => x.cosh(),
        Op::Asinh => x.asinh(),
    })
}

fn ar() -> Calc {
    Arithmetic::new(apply as fn(Op, Double, Double) -> Double)
}

fn doubles(xs: &[f64]) -> Vec<Double> {
    xs.iter().map(|x| double(*x)).collect()
}

fn floats(vs: &[Double]) -> Vec<f64> {
    vs.iter().map(|v| float(*v)).collect()
}

fn at(p: [f64; 2]) -> [Double; 2] {
    [double(p[0]), double(p[1])]
}

fn place(p: [Double; 2]) -> [f64; 2] {
    [float(p[0]), float(p[1])]
}

fn point_set(coords: &[[f64; 2]], values: &[f64]) -> PointSet<2> {
    PointSet::new(
        coords.iter().map(|p| at(*p)).collect(),
        values.iter().map(|v| double(*v)).collect(),
    )
    .unwrap()
}

type Gamma = Box<dyn Fn([Double; 2]) -> Double + Sync>;

fn spherical(h: f64) -> f64 {
    if h >= 1.0 {
        1.0
    } else {
        1.5 * h - 0.5 * h * h * h
    }
}

fn exponential(h: f64) -> f64 {
    1.0 - (-h).exp()
}

fn covariance(
    shape: fn(f64) -> f64,
    nugget: f64,
    sill: f64,
    range: f64,
    azimuth: f64,
    ratio: f64,
) -> Covariance<2, Gamma> {
    let (sin, cos) = azimuth.to_radians().sin_cos();
    let gamma = move |h: [Double; 2]| {
        let (dx, dy) = (float(h[0]), float(h[1]));
        if dx == 0.0 && dy == 0.0 {
            return double(0.0);
        }
        let along = dx * sin + dy * cos;
        let across = (dx * cos - dy * sin) / ratio;
        let r = (along * along + across * across).sqrt();
        double(nugget + sill * shape(r / range))
    };
    Covariance {
        gamma: Box::new(gamma),
        covariance: None,
        sill: double(nugget + sill),
        nugget: double(nugget),
        traits: ModelTraits { has_power: false, invalid_kind: None },
    }
}

fn isotropic(shape: fn(f64) -> f64, nugget: f64, sill: f64, range: f64) -> Covariance<2, Gamma> {
    covariance(shape, nugget, sill, range, 0.0, 1.0)
}

fn power_model(nugget: f64, slope: f64, exponent: f64) -> Covariance<2, Gamma> {
    let gamma = move |h: [Double; 2]| {
        let (dx, dy) = (float(h[0]), float(h[1]));
        let r = (dx * dx + dy * dy).sqrt();
        double(if r == 0.0 { 0.0 } else { nugget + slope * r.powf(exponent) })
    };
    Covariance {
        gamma: Box::new(gamma),
        covariance: None,
        sill: double(nugget + slope),
        nugget: double(nugget),
        traits: ModelTraits { has_power: true, invalid_kind: None },
    }
}

fn indicator_model() -> Covariance<2, Gamma> {
    isotropic(exponential, 0.02, 0.2, 30.0)
}

fn sis(set: impl FnOnce(&mut SisConfig<2, Gamma>)) -> SisConfig<2, Gamma> {
    let mut config = SisConfig::default();
    set(&mut config);
    config
}

fn setup() -> (PointSet<2>, SisConfig<2, Gamma>, Grid2D) {
    let mut rng = Rng::new(21);
    let mut coords = Vec::new();
    let mut values = Vec::new();
    for _ in 0..60 {
        let x = float(rng.uniform()) * 100.0;
        let y = float(rng.uniform()) * 100.0;
        coords.push([x, y]);
        values.push(
            (x / 30.0).sin() * 2.0 + (y / 25.0).cos() + 0.3 * float(rng.normal(&ar())),
        );
    }
    let data = point_set(&coords, &values);
    let mut sorted = values;
    sorted.sort_by(f64::total_cmp);
    let q = |p: f64| sorted[(p * sorted.len() as f64) as usize];
    let cfg = sis(|c| { c.cutoffs = doubles(&[q(0.25), q(0.5), q(0.75)]); c.models = vec![indicator_model(), indicator_model(), indicator_model()]; c.n_realizations = 4; c.seed = 11; });
    let grid = Grid2D::from_bbox(at([0.0, 0.0]), at([100.0, 100.0]), 12, 12, &ar()).unwrap();
    (data, cfg, grid)
}

fn run(data: &PointSet<2>, grid: &Grid2D, cfg: &SisConfig<2, Gamma>) -> Vec<Vec<Double>> {
    sequential_indicator_simulation(data, grid, cfg, &ar()).unwrap().realizations
}

fn range(data: &PointSet<2>) -> (f64, f64) {
    floats(data.values())
        .iter()
        .fold((f64::INFINITY, f64::NEG_INFINITY), |(lo, hi), v| (lo.min(*v), hi.max(*v)))
}

fn bounded(data: &PointSet<2>, reals: &[Vec<Double>]) {
    let (lo, hi) = range(data);
    for real in reals {
        for v in floats(real) {
            assert!(v >= lo - 1e-9 && v <= hi + 1e-9, "value {v} out of range");
        }
    }
}

#[test]
fn reproducible_and_bounded() {
    let (data, cfg, grid) = setup();
    let a = run(&data, &grid, &cfg);
    assert_eq!(a, run(&data, &grid, &cfg));
    assert_ne!(a[0], a[1]);
    for real in &a {
        assert_eq!(real.len(), grid.n_cells());
    }
    bounded(&data, &a);
}

#[test]
fn sis_median_ik_matches_full_ik_when_models_coincide() {
    let (data, full_cfg, grid) = setup();
    let (_, mut median_cfg, _) = setup();
    median_cfg.models = vec![indicator_model()];
    assert_eq!(run(&data, &grid, &full_cfg), run(&data, &grid, &median_cfg));
}

#[test]
fn ordinary_sis_is_reproducible_and_bounded() {
    let (data, mut cfg, grid) = setup();
    cfg.ordinary = true;
    let a = run(&data, &grid, &cfg);
    assert_eq!(a, run(&data, &grid, &cfg));
    bounded(&data, &a);
}

#[test]
fn sis_multigrid_and_node_quota_run_reproducibly() {
    let (data, base, grid) = setup();
    let plain = run(&data, &grid, &base);
    let (_, mut mg_cfg, _) = setup();
    mg_cfg.multigrid = 2;
    let mg = run(&data, &grid, &mg_cfg);
    assert_eq!(mg, run(&data, &grid, &mg_cfg));
    assert_ne!(mg, plain);
    let (_, mut quota_cfg, _) = setup();
    quota_cfg.max_node_neighbors = Some(6);
    let q = run(&data, &grid, &quota_cfg);
    assert_eq!(q, run(&data, &grid, &quota_cfg));
    assert_ne!(q, plain);
    bounded(&data, &mg);
    bounded(&data, &q);
}

#[test]
fn decluster_weights_shift_the_global_proportions() {
    let mut coords = Vec::new();
    let mut values = Vec::new();
    for i in 0..9 {
        coords.push([(i % 3) as f64 * 0.1, (i / 3) as f64 * 0.1]);
        values.push(0.0);
    }
    coords.push([50.0, 50.0]);
    values.push(10.0);
    let data = point_set(&coords, &values);
    let far_target = vec![at([1.0e6, 1.0e6])];
    let mut cfg = sis(|c| { c.cutoffs = doubles(&[5.0]); c.models = vec![indicator_model()]; c.n_realizations = 400; c.search_radius = Some(double(1.0)); });
    let below = |reals: &[Vec<Double>]| {
        reals.iter().filter(|r| float(r[0]) <= 5.0).count() as f64 / reals.len() as f64
    };
    let unweighted = below(&sis_at(&data, &far_target, &cfg, &ar()).unwrap());
    assert!((unweighted - 0.9).abs() < 0.08, "unweighted ensemble proportion {unweighted}");
    let mut weights = vec![1.0 / 9.0; 9];
    weights.push(1.0);
    cfg.decluster_weights = Some(doubles(&weights));
    let weighted = below(&sis_at(&data, &far_target, &cfg, &ar()).unwrap());
    assert!((weighted - 0.5).abs() < 0.08, "weighted ensemble proportion {weighted}");
}

#[test]
fn decluster_weights_validate_length_and_positivity() {
    let (data, mut cfg, _grid) = setup();
    let target = vec![at([50.0, 50.0])];
    cfg.decluster_weights = Some(vec![double(1.0); data.len() - 1]);
    assert!(sis_at(&data, &target, &cfg, &ar()).is_err());
    cfg.decluster_weights = Some(vec![double(0.0); data.len()]);
    assert!(sis_at(&data, &target, &cfg, &ar()).is_err());
}

#[test]
fn sis_rejects_bad_model_count() {
    let (data, mut cfg, grid) = setup();
    cfg.models = vec![indicator_model(), indicator_model()];
    assert!(sequential_indicator_simulation(&data, &grid, &cfg, &ar()).is_err());
}

#[test]
fn sis_rejects_power_model() {
    let (data, mut cfg, grid) = setup();
    cfg.models = vec![power_model(0.0, 1.0, 1.0)];
    assert!(sequential_indicator_simulation(&data, &grid, &cfg, &ar()).is_err());
}

#[test]
fn ensemble_proportions_track_global() {
    let (data, mut cfg, grid) = setup();
    cfg.n_realizations = 20;
    let reals = run(&data, &grid, &cfg);
    let n_data = data.len() as f64;
    for (k, c) in floats(&cfg.cutoffs).into_iter().enumerate() {
        let global = floats(data.values()).iter().filter(|v| **v <= c).count() as f64 / n_data;
        let pooled = reals.iter().flat_map(|r| r.iter()).filter(|v| float(**v) <= c).count();
        let sim_prop = pooled as f64 / (20.0 * grid.n_cells() as f64);
        assert!(
            (sim_prop - global).abs() < 0.12,
            "cutoff {k}: simulated proportion {sim_prop:.3} vs global {global:.3}"
        );
    }
}

#[test]
fn order_corrections_are_monotone_and_bounded() {
    let mut ccdf = doubles(&[0.4, 0.2, 1.3, 0.9]);
    order_corrections(&mut ccdf, &ar());
    let ccdf = floats(&ccdf);
    assert!(ccdf.windows(2).all(|w| w[0] <= w[1] + 1e-12));
    assert!(ccdf.iter().all(|f| (0.0..=1.0).contains(f)));
}

#[test]
fn sis_rejects_bad_config() {
    let (data, mut bad, grid) = setup();
    bad.cutoffs = doubles(&[1.0, 0.5]);
    bad.models.truncate(2);
    assert!(sequential_indicator_simulation(&data, &grid, &bad, &ar()).is_err());
    let (_, mut bad, _) = setup();
    bad.cutoffs[0] = double(1e9);
    assert!(sequential_indicator_simulation(&data, &grid, &bad, &ar()).is_err());
    let (_, mut bad, _) = setup();
    bad.models.pop();
    assert!(sequential_indicator_simulation(&data, &grid, &bad, &ar()).is_err());
}

#[test]
fn indicator_estimate_soft_deviates_from_its_own_mean_not_from_p() {
    let w = [0.1, 0.2, 0.15];
    let vals = [10.0, 20.0];
    let cutoff = 15.0;
    let p = 0.4;
    let mean_soft = 0.9;
    let soft_val = mean_soft;
    let estimate = |mean: f64| {
        float(indicator_estimate_soft(
            &doubles(&w),
            &doubles(&vals),
            double(cutoff),
            double(p),
            double(soft_val),
            double(mean),
            &ar(),
        ))
    };
    let est = estimate(mean_soft);
    let hard_only: f64 = p + w[..2]
        .iter()
        .zip(&vals)
        .map(|(wi, v)| wi * (if *v <= cutoff { 1.0 } else { 0.0 } - p))
        .sum::<f64>();
    assert!((est - hard_only).abs() < 1e-12, "{est} vs {hard_only}");
    let est_shifted = estimate(0.2);
    let expected_delta = -w[2] * (0.2 - mean_soft);
    assert!((est_shifted - est - expected_delta).abs() < 1e-12);
}

#[test]
fn more_indicator_realizations_leave_the_first_ones_as_they_were() {
    let (data, many, grid) = setup();
    let (_, mut few, _) = setup();
    few.n_realizations = 2;
    assert_eq!(run(&data, &grid, &few), run(&data, &grid, &many)[..2]);
}

#[test]
fn a_proper_distribution_is_left_as_it_was() {
    let mut ccdf = doubles(&[0.0, 0.25, 0.25, 0.9, 1.0]);
    order_corrections(&mut ccdf, &ar());
    assert_eq!(ccdf, doubles(&[0.0, 0.25, 0.25, 0.9, 1.0]));
    let mut once = doubles(&[0.4, 0.2, 1.3, 0.9]);
    order_corrections(&mut once, &ar());
    for (got, want) in floats(&once).iter().zip([0.3, 0.3, 0.95, 0.95]) {
        assert!((got - want).abs() < 1e-12);
    }
    let mut twice = once.clone();
    order_corrections(&mut twice, &ar());
    assert_eq!(twice, once);
}
