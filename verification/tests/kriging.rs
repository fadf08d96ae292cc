use geostat::covariance::Covariance;
use geostat::data::PointSet;
use geostat::error::GeostatError;
use geostat::grid::Grid2D;
use geostat::kriging::{block_offsets, Kriging, KrigingConfig, KrigingMethod};
use geostat::model::ModelTraits;
use geostat::arith::{Arithmetic, Op};
use geostat::double::Double;

fn double(x: f64) -> Double {
    Double::from_bits(x.to_bits())
}

fn float(v: Double) -> f64 {
    f64::from_bits(v.bits)
}

type Calc = Arithmetic<fn(Op, Double, Double) -> Double>;

fn apply(op: Op, a: Double, b: Double) -> Double {
    let (x, y) = (float(a), float(b));
    double(match op {
        Op::Plus => x + y,
        Op::Minus => x - y,
        Op::Times => x * y,
        Op::Over => x / y,
        Op::Power => x.powf(y),
        Op::Root => x.sqrt(),
        Op::Exp => x.exp(),
        Op::Ln => x.ln(),
        Op::Sin => x.sin(),
        Op::Cos => x.cos(),
        Op::Sinh => x.sinh(),
        Op::Cosh => x.cosh(),
        Op::Asinh => x.asinh(),
    })
}

fn ar() -> Calc {
    Arithmetic::new(apply as fn(Op, Double, Double) -> Double)
}

fn at(p: [f64; 2]) -> [Double; 2] {
    [double(p[0]), double(p[1])]
}

fn place(p: [Double; 2]) -> [f64; 2] {
    [float(p[0]), float(p[1])]
}

fn point_set(coords: &[[f64; 2]], values: &[f64]) -> PointSet<2> {
    PointSet::new(
        coords.iter().map(|p| at(*p)).collect(),
        values.iter().map(|v| double(*v)).collect(),
    )
    .unwrap()
}

type Gamma = Box<dyn Fn([Double; 2]) -> Double + Sync>;

fn spherical(h: f64) -> f64 {
    if h >= 1.0 {
        1.0
    } else {
        1.5 * h - 0.5 * h * h * h
    }
}

fn exponential(h: f64) -> f64 {
    1.0 - (-h).exp()
}

fn covariance(
    shape: fn(f64) -> f64,
    nugget: f64,
    sill: f64,
    range: f64,
    azimuth: f64,
    ratio: f64,
) -> Covariance<2, Gamma> {
    let (sin, cos) = azimuth.to_radians().sin_cos();
    let gamma = move |h: [Double; 2]| {
        let (dx, dy) = (float(h[0]), float(h[1]));
        if dx == 0.0 && dy == 0.0 {
            return double(0.0);
        }
        let along = dx * sin + dy * cos;
        let across = (dx * cos - dy * sin) / ratio;
        let r = (along * along + across * across).sqrt();
        double(nugget + sill * shape(r / range))
    };
    Covariance {
        gamma: Box::new(gamma),
        covariance: None,
        sill: double(nugget + sill),
        nugget: double(nugget),
        traits: ModelTraits { has_power: false, invalid_kind: None },
    }
}

fn isotropic(shape: fn(f64) -> f64, nugget: f64, sill: f64, range: f64) -> Covariance<2, Gamma> {
    covariance(shape, nugget, sill, range, 0.0, 1.0)
}

fn power_model(nugget: f64, slope: f64, exponent: f64) -> Covariance<2, Gamma> {
    let gamma = move |h: [Double; 2]| {
        let (dx, dy) = (float(h[0]), float(h[1]));
        let r = (dx * dx + dy * dy).sqrt();
        double(if r == 0.0 { 0.0 } else { nugget + slope * r.powf(exponent) })
    };
    Covariance {
        gamma: Box::new(gamma),
        covariance: None,
        sill: double(nugget + slope),
        nugget: double(nugget),
        traits: ModelTraits { has_power: true, invalid_kind: None },
    }
}

fn sample_data() -> PointSet<2> {
    point_set(
        &[[0.0, 0.0], [1.0, 0.0], [0.0, 1.0], [1.0, 1.0], [0.4, 0.6]],
        &[1.0, 2.0, 1.5, 2.5, 1.7],
    )
}

fn model() -> Covariance<2, Gamma> {
    isotropic(spherical, 0.05, 0.95, 2.0)
}

fn value_at(k: &Kriging<'_, 2, Gamma>, target: [f64; 2]) -> f64 {
    float(k.predict(at(target), &ar()).unwrap().value)
}

fn variance_at(k: &Kriging<'_, 2, Gamma>, target: [f64; 2]) -> f64 {
    float(k.predict(at(target), &ar()).unwrap().variance)
}

#[test]
fn measurement_error_smooths_instead_of_honoring() {
    let data = sample_data();
    let m = model();
    let exact = Kriging::new(&data, &m, KrigingConfig::default(), &ar()).unwrap();
    let noisy = Kriging::with_measurement_error(
        &data,
        &m,
        KrigingConfig::default(),
        vec![double(0.5); data.len()],
        &ar(),
    )
    .unwrap();
    for i in 0..data.len() {
        let p = place(data.coord(i));
        let datum = float(data.value(i));
        assert!((value_at(&exact, p) - datum).abs() < 1e-8);
        assert!((value_at(&noisy, p) - datum).abs() > 1e-3, "datum {i} still honored");
        assert!(variance_at(&noisy, p) > 1e-3);
    }
    let zero = Kriging::with_measurement_error(
        &data,
        &m,
        KrigingConfig::default(),
        vec![double(0.0); data.len()],
        &ar(),
    )
    .unwrap();
    let t = [0.3, 0.7];
    assert!((value_at(&exact, t) - value_at(&zero, t)).abs() < 1e-14);
    assert!((variance_at(&exact, t) - variance_at(&zero, t)).abs() < 1e-14);
    assert!(Kriging::with_measurement_error(
        &data,
        &m,
        KrigingConfig::default(),
        vec![double(0.1); 2],
        &ar()
    )
    .is_err());
    assert!(Kriging::with_measurement_error(
        &data,
        &m,
        KrigingConfig::default(),
        vec![double(-0.1); data.len()],
        &ar()
    )
    .is_err());
}

#[test]
fn min_neighbors_fails_sparse_targets() {
    let data = sample_data();
    let m = model();
    let k = Kriging::new(
        &data,
        &m,
        KrigingConfig {
            search_radius: Some(double(0.75)),
            min_neighbors: Some(3),
            ..Default::default()
        },
        &ar(),
    )
    .unwrap();
    assert!(k.predict(at([0.5, 0.5]), &ar()).is_ok());
    match k.predict(at([1.5, 1.5]), &ar()) {
        Err(GeostatError::NoNeighbors) => {}
        other => panic!("expected NoNeighbors, got {other:?}"),
    }
    assert!(Kriging::new(
        &data,
        &m,
        KrigingConfig { min_neighbors: Some(0), ..Default::default() },
        &ar()
    )
    .is_err());
    assert!(Kriging::new(
        &data,
        &m,
        KrigingConfig { max_neighbors: Some(2), min_neighbors: Some(3), ..Default::default() },
        &ar()
    )
    .is_err());
}

#[test]
fn octant_search_balances_clustered_neighbors() {
    let mut coords = vec![[1.0, 0.1], [1.1, -0.1], [1.2, 0.2], [1.3, -0.2], [1.4, 0.05]];
    let mut values = vec![10.0; coords.len()];
    coords.extend_from_slice(&[[-2.0, 0.5], [-2.0, -0.5], [0.5, -2.0], [0.5, 2.0]]);
    values.extend_from_slice(&[0.0, 0.0, 0.0, 0.0]);
    let data = point_set(&coords, &values);
    let m = model();
    let target = [0.0, 0.0];
    let nearest = Kriging::new(
        &data,
        &m,
        KrigingConfig { max_neighbors: Some(4), ..Default::default() },
        &ar(),
    )
    .unwrap();
    let octant = Kriging::new(
        &data,
        &m,
        KrigingConfig { max_neighbors: Some(4), max_per_octant: Some(1), ..Default::default() },
        &ar(),
    )
    .unwrap();
    let near = value_at(&nearest, target);
    let balanced = value_at(&octant, target);
    assert!(near > 9.0, "nearest-only {near}");
    assert!(balanced < near - 2.0, "octant {balanced} vs nearest {near}");
}

#[test]
fn duplicate_points_rejected_up_front() {
    let data = point_set(
        &[[0.0, 0.0], [1.0, 0.0], [1.0, 0.0], [0.0, 1.0]],
        &[1.0, 2.0, 2.1, 1.5],
    );
    let m = model();
    match Kriging::new(&data, &m, KrigingConfig::default(), &ar()) {
        Err(GeostatError::DuplicatePoints(1, 2)) => {}
        Err(other) => panic!("expected DuplicatePoints(1, 2), got {other:?}"),
        Ok(_) => panic!("expected DuplicatePoints(1, 2)"),
    }
}

#[test]
fn ordinary_kriging_is_exact_at_data() {
    let data = sample_data();
    let m = model();
    let k = Kriging::new(&data, &m, KrigingConfig::default(), &ar()).unwrap();
    for i in 0..data.len() {
        let p = place(data.coord(i));
        assert!((value_at(&k, p) - float(data.value(i))).abs() < 1e-8, "point {i}");
        assert!(variance_at(&k, p) < 1e-8, "point {i}");
    }
}

#[test]
fn power_model_matches_gstat_ordinary_kriging() {
    let data = point_set(
        &[[0.0, 0.0], [10.0, 0.0], [0.0, 10.0], [10.0, 10.0], [5.0, 5.0]],
        &[1.0, 2.0, 1.5, 2.5, 1.8],
    );
    let m = power_model(0.0, 2.0, 1.2);
    let k = Kriging::new(&data, &m, KrigingConfig::default(), &ar()).unwrap();
    let cases = [
        ([3.0, 4.0], 1.5252052569, 6.4437897810),
        ([7.0, 8.0], 2.1366210000, 7.7780140000),
    ];
    for (target, exp_value, exp_var) in cases {
        let value = value_at(&k, target);
        let variance = variance_at(&k, target);
        assert!((value - exp_value).abs() < 1e-6, "value {value} vs gstat {exp_value}");
        assert!((variance - exp_var).abs() < 1e-5, "variance {variance} vs gstat {exp_var}");
    }
    assert!((value_at(&k, [5.0, 5.0]) - 1.8).abs() < 1e-6);
    assert!(variance_at(&k, [5.0, 5.0]) < 1e-6);
}

#[test]
fn power_model_rejects_simple_kriging() {
    let data = sample_data();
    let m = power_model(0.0, 1.0, 1.0);
    let cfg = KrigingConfig {
        method: KrigingMethod::Simple { mean: double(1.5) },
        ..Default::default()
    };
    assert!(Kriging::new(&data, &m, cfg, &ar()).is_err());
}

#[test]
fn power_model_rejects_block_kriging() {
    let data = sample_data();
    let m = power_model(0.0, 1.0, 1.0);
    let k = Kriging::new(&data, &m, KrigingConfig::default(), &ar()).unwrap();
    let offsets = vec![at([0.0, 0.0]), at([0.1, 0.0]), at([0.0, 0.1]), at([0.1, 0.1])];
    assert!(k.predict_block(at([0.5, 0.5]), &offsets, &ar()).is_err());
}

#[test]
fn power_model_universal_kriging_recovers_linear_trend() {
    let coords = [
        [0.0, 0.0],
        [10.0, 0.0],
        [0.0, 10.0],
        [10.0, 10.0],
        [5.0, 2.0],
        [2.0, 8.0],
        [8.0, 3.0],
    ];
    let values: Vec<f64> = coords.iter().map(|p| 2.0 + 0.3 * p[0] - 0.1 * p[1]).collect();
    let data = point_set(&coords, &values);
    let m = power_model(0.01, 0.5, 1.0);
    let cfg = KrigingConfig {
        method: KrigingMethod::Universal { degree: 1 },
        ..Default::default()
    };
    let k = Kriging::new(&data, &m, cfg, &ar()).unwrap();
    let expected = 2.0 + 0.3 * 6.0 - 0.1 * 4.0;
    let value = value_at(&k, [6.0, 4.0]);
    assert!((value - expected).abs() < 0.05, "{value} vs {expected}");
}

#[test]
fn ordinary_kriging_far_field_variance() {
    let data = sample_data();
    let m = model();
    let k = Kriging::new(&data, &m, KrigingConfig::default(), &ar()).unwrap();
    assert!(variance_at(&k, [1e6, 1e6]) >= 0.99 * float(m.sill));
    assert!(value_at(&k, [1e6, 1e6]).is_finite());
}

#[test]
fn simple_kriging_far_field_returns_mean() {
    let data = sample_data();
    let m = model();
    let cfg = KrigingConfig {
        method: KrigingMethod::Simple { mean: double(1.74) },
        ..Default::default()
    };
    let k = Kriging::new(&data, &m, cfg, &ar()).unwrap();
    assert!((value_at(&k, [1e6, 1e6]) - 1.74).abs() < 1e-9);
    assert!((variance_at(&k, [1e6, 1e6]) - float(m.sill)).abs() < 1e-9);
}

#[test]
fn universal_kriging_reproduces_exact_drift() {
    let mut coords = Vec::new();
    let mut values = Vec::new();
    for i in 0..4 {
        for j in 0..4 {
            let x = i as f64;
            let y = j as f64;
            coords.push([x, y]);
            values.push(2.0 + 3.0 * x - y);
        }
    }
    let data = point_set(&coords, &values);
    let m = model();
    let cfg = KrigingConfig {
        method: KrigingMethod::Universal { degree: 1 },
        ..Default::default()
    };
    let k = Kriging::new(&data, &m, cfg, &ar()).unwrap();
    for target in [[1.5, 1.5], [5.0, 2.0]] {
        let expected = 2.0 + 3.0 * target[0] - target[1];
        let value = value_at(&k, target);
        assert!((value - expected).abs() < 1e-7, "{target:?}: {value} vs {expected}");
    }
}

#[test]
fn external_drift_reproduces_linear_relation() {
    let mut coords = Vec::new();
    let mut values = Vec::new();
    let mut drift = Vec::new();
    for i in 0..5 {
        for j in 0..5 {
            let x = i as f64 * 10.0;
            let y = j as f64 * 10.0;
            let d = (x * 0.13 + y * 0.07).sin();
            coords.push([x, y]);
            drift.push(vec![double(d)]);
            values.push(2.0 + 3.0 * d);
        }
    }
    let data = point_set(&coords, &values);
    let m = model();
    let cfg = KrigingConfig {
        method: KrigingMethod::ExternalDrift { n_vars: 1 },
        ..Default::default()
    };
    let k = Kriging::with_external_drift(&data, &m, cfg, drift, &ar()).unwrap();
    for (target, d) in [([12.0, 33.0], 0.4_f64), ([45.0, 5.0], -0.7)] {
        let est = k.predict_with_drift(at(target), &vec![double(d)], &ar()).unwrap();
        let expected = 2.0 + 3.0 * d;
        assert!((float(est.value) - expected).abs() < 1e-7, "{target:?}");
    }
    assert!(k.predict(at([0.0, 0.0]), &ar()).is_err());
    assert!(k
        .predict_with_drift(at([0.0, 0.0]), &vec![double(1.0), double(2.0)], &ar())
        .is_err());
    assert!(Kriging::new(
        &data,
        &m,
        KrigingConfig {
            method: KrigingMethod::ExternalDrift { n_vars: 1 },
            ..Default::default()
        },
        &ar()
    )
    .is_err());
}

#[test]
fn anisotropic_model_weights_by_direction() {
    let data = point_set(&[[0.0, 30.0], [30.0, 0.0], [-25.0, -25.0]], &[10.0, 0.0, 5.0]);
    let m = covariance(spherical, 0.0, 1.0, 100.0, 0.0, 0.25);
    let k = Kriging::new(&data, &m, KrigingConfig::default(), &ar()).unwrap();
    let value = value_at(&k, [0.0, 0.0]);
    assert!(value > 5.0, "estimate {value} not pulled north");
}

#[test]
fn neighborhood_limits_apply() {
    let data = sample_data();
    let m = model();
    let cfg = KrigingConfig {
        method: KrigingMethod::Ordinary,
        max_neighbors: Some(3),
        search_radius: Some(double(0.001)),
        ..Default::default()
    };
    let k = Kriging::new(&data, &m, cfg, &ar()).unwrap();
    assert!(matches!(k.predict(at([0.5, 0.2]), &ar()), Err(GeostatError::NoNeighbors)));
    let p = place(data.coord(0));
    assert!((value_at(&k, p) - float(data.value(0))).abs() < 1e-8);
}

#[test]
fn grid_prediction_shapes_and_nonnegative_variance() {
    let data = sample_data();
    let m = model();
    let k = Kriging::new(&data, &m, KrigingConfig::default(), &ar()).unwrap();
    let grid = Grid2D::from_bbox(at([0.0, 0.0]), at([1.0, 1.0]), 5, 4, &ar()).unwrap();
    let (vals, vars) = k.predict_grid(&grid, &ar());
    assert_eq!(vals.len(), 20);
    assert_eq!(vars.len(), 20);
    assert!(vals.iter().all(|v| float(*v).is_finite()));
    assert!(vars.iter().all(|v| float(*v) >= 0.0));
}

#[test]
fn block_kriging_averages_point_predictions() {
    let data = sample_data();
    let m = model();
    let k = Kriging::new(&data, &m, KrigingConfig::default(), &ar()).unwrap();
    let center = [0.6, 0.4];
    let offsets = block_offsets(at([0.4, 0.4]), [4, 4], &ar()).unwrap();
    let block = k.predict_block(at(center), &offsets, &ar()).unwrap();
    let mean_pts = offsets
        .iter()
        .map(|o| value_at(&k, [center[0] + float(o[0]), center[1] + float(o[1])]))
        .sum::<f64>()
        / offsets.len() as f64;
    assert!((float(block.value) - mean_pts).abs() < 1e-10);
    assert!(float(block.variance) < variance_at(&k, center));
    let uk = Kriging::new(
        &data,
        &m,
        KrigingConfig { method: KrigingMethod::Universal { degree: 1 }, ..Default::default() },
        &ar(),
    )
    .unwrap();
    assert!(uk.predict_block(at(center), &offsets, &ar()).is_err());
    assert!(block_offsets(at([0.0, 1.0]), [4, 4], &ar()).is_err());
    assert!(block_offsets(at([1.0, 1.0]), [0, 4], &ar()).is_err());
}

#[test]
fn kdtree_neighborhood_matches_global_at_full_k() {
    let data = sample_data();
    let m = model();
    let global = Kriging::new(&data, &m, KrigingConfig::default(), &ar()).unwrap();
    let local = Kriging::new(
        &data,
        &m,
        KrigingConfig { max_neighbors: Some(data.len()), ..Default::default() },
        &ar(),
    )
    .unwrap();
    for target in [[0.3, 0.3], [0.9, 0.1], [2.0, 2.0]] {
        assert!((value_at(&global, target) - value_at(&local, target)).abs() < 1e-12);
        assert!((variance_at(&global, target) - variance_at(&local, target)).abs() < 1e-12);
    }
}

#[test]
fn rejects_invalid_config() {
    let data = sample_data();
    let m = model();
    assert!(Kriging::new(
        &data,
        &m,
        KrigingConfig { method: KrigingMethod::Universal { degree: 3 }, ..Default::default() },
        &ar()
    )
    .is_err());
    assert!(Kriging::new(
        &data,
        &m,
        KrigingConfig { max_neighbors: Some(0), ..Default::default() },
        &ar()
    )
    .is_err());
}

#[test]
fn kriging_refusals_name_the_parameter() {
    let data = sample_data();
    let m = model();
    let text = |cfg: KrigingConfig| match Kriging::new(&data, &m, cfg, &ar()) {
        Err(GeostatError::InvalidParameter(msg)) => msg.text,
        Err(other) => panic!("{other:?}"),
        Ok(_) => panic!("accepted"),
    };
    assert_eq!(
        text(KrigingConfig {
            method: KrigingMethod::ExternalDrift { n_vars: 1 },
            ..Default::default()
        }),
        "external drift kriging requires Kriging::with_external_drift"
    );
    let r = Kriging::with_measurement_error(
        &data,
        &m,
        KrigingConfig::default(),
        vec![double(0.1); 2],
        &ar(),
    );
    match r {
        Err(GeostatError::DimensionMismatch(msg)) => {
            assert_eq!(msg.text, "2 error variances vs 5 data points")
        }
        Err(other) => panic!("{other:?}"),
        Ok(_) => panic!("accepted"),
    }
}

#[test]
fn predictions_at_many_targets_match_those_at_one() {
    let data = sample_data();
    let m = model();
    let k = Kriging::new(&data, &m, KrigingConfig::default(), &ar()).unwrap();
    let targets = vec![at([0.2, 0.3]), at([0.7, 0.7]), at([3.0, 1.0])];
    let all = k.predict_many(&targets, &ar());
    for (t, e) in targets.iter().zip(&all) {
        assert_eq!(*e, k.predict(*t, &ar()).unwrap());
    }
}

#[test]
fn failed_targets_are_filled_with_nan() {
    let data = sample_data();
    let m = model();
    let cfg = KrigingConfig { search_radius: Some(double(0.001)), ..Default::default() };
    let k = Kriging::new(&data, &m, cfg, &ar()).unwrap();
    let all = k.predict_many(&vec![at([9.0, 9.0]), at([0.0, 0.0])], &ar());
    assert!(float(all[0].value).is_nan());
    assert!((float(all[1].value) - 1.0).abs() < 1e-8);
}
