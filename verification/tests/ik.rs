use geostat::ccdf::{ccdf_moments, validate_ccdf_tails, Classes};
use geostat::covariance::Covariance;
use geostat::data::PointSet;
use geostat::ik::{indicator_kriging, indicator_kriging_soft, CcdfEstimate, IkConfig};
use geostat::indicator::{calibrate_markov_bayes, MarkovBayesCalibration};
use geostat::model::ModelTraits;
use geostat::rng::Rng;
use geostat::tails::TailModel;
use geostat::arith::{Arithmetic, Op};
use geostat::double::Double;

fn double(x: f64) -> Double {
    Double::from_bits(x.to_bits())
}

fn float(v: Double) -> f64 {
    f64::from_bits(v.bits)
}

type Calc = Arithmetic<fn(Op, Double, Double) -> Double>;

fn apply(op: Op, a: Double, b: Double) -> Double {
    let (x, y) = (float(a), float(b));
    double(match op {
        Op::Plus => x + y,
        Op::Minus => x - y,
        Op::Times => x * y,
        Op::Over => x / y,
        Op::Power => x.powf(y),
        Op::Root => x.sqrt(),
        Op::Exp => x.exp(),
        Op::Ln => x.ln(),
        Op::Sin => x.sin(),
        Op::Cos => x.cos(),
        Op::Sinh => x.sinh(),
        Op::Cosh => x.cosh(),
        Op::Asinh => x.asinh(),
    })
}

fn ar() -> Calc {
    Arithmetic::new(apply as fn(Op, Double, Double) -> Double)
}

fn doubles(xs: &[f64]) -> Vec<Double> {
    xs.iter().map(|x| double(*x)).collect()
}

fn floats(vs: &[Double]) -> Vec<f64> {
    vs.iter().map(|v| float(*v)).collect()
}

fn at(p: [f64; 2]) -> [Double; 2] {
    [double(p[0]), double(p[1])]
}

fn place(p: [Double; 2]) -> [f64; 2] {
    [float(p[0]), float(p[1])]
}

fn point_set(coords: &[[f64; 2]], values: &[f64]) -> PointSet<2> {
    PointSet::new(
        coords.iter().map(|p| at(*p)).collect(),
        values.iter().map(|v| double(*v)).collect(),
    )
    .unwrap()
}

type Gamma = Box<dyn Fn([Double; 2]) -> Double + Sync>;

fn spherical(h: f64) -> f64 {
    if h >= 1.0 {
        1.0
    } else {
        1.5 * h - 0.5 * h * h * h
    }
}

fn exponential(h: f64) -> f64 {
    1.0 - (-h).exp()
}

fn covariance(
    shape: fn(f64) -> f64,
    nugget: f64,
    sill: f64,
    range: f64,
    azimuth: f64,
    ratio: f64,
) -> Covariance<2, Gamma> {
    let (sin, cos) = azimuth.to_radians().sin_cos();
    let gamma = move |h: [Double; 2]| {
        let (dx, dy) = (float(h[0]), float(h[1]));
        if dx == 0.0 && dy == 0.0 {
            return double(0.0);
        }
        let along = dx * sin + dy * cos;
        let across = (dx * cos - dy * sin) / ratio;
        let r = (along * along + across * across).sqrt();
        double(nugget + sill * shape(r / range))
    };
    Covariance {
        gamma: Box::new(gamma),
        covariance: None,
        sill: double(nugget + sill),
        nugget: double(nugget),
        traits: ModelTraits { has_power: false, invalid_kind: None },
    }
}

fn isotropic(shape: fn(f64) -> f64, nugget: f64, sill: f64, range: f64) -> Covariance<2, Gamma> {
    covariance(shape, nugget, sill, range, 0.0, 1.0)
}

fn indicator_model() -> Covariance<2, Gamma> {
    isotropic(exponential, 0.02, 0.2, 30.0)
}

fn setup() -> (PointSet<2>, IkConfig<2, Gamma>) {
    let mut rng = Rng::new(17);
    let mut coords = Vec::new();
    let mut values = Vec::new();
    for _ in 0..80 {
        let x = float(rng.uniform()) * 100.0;
        let y = float(rng.uniform()) * 100.0;
        coords.push([x, y]);
        values.push(
            (x / 25.0).sin() * 2.0 + (y / 30.0).cos() + 0.2 * float(rng.normal(&ar())),
        );
    }
    let data = point_set(&coords, &values);
    let mut sorted = values;
    sorted.sort_by(f64::total_cmp);
    let q = |p: f64| sorted[(p * sorted.len() as f64) as usize];
    let cfg = IkConfig {
        cutoffs: doubles(&[q(0.25), q(0.5), q(0.75)]),
        models: vec![indicator_model(), indicator_model(), indicator_model()],
        ordinary: false,
        max_neighbors: None,
        search_radius: None,
        tail_min: None,
        tail_max: None,
        lower_tail: TailModel::Linear,
        upper_tail: TailModel::Linear,
    };
    (data, cfg)
}

fn places(targets: &[[f64; 2]]) -> Vec<[Double; 2]> {
    targets.iter().map(|t| at(*t)).collect()
}

fn decisive_at_data(ordinary: bool) {
    let (data, mut cfg) = setup();
    cfg.ordinary = ordinary;
    let targets: Vec<[Double; 2]> = (0..10).map(|i| data.coord(i * 7)).collect();
    let est = indicator_kriging(&data, &targets, &cfg, &ar()).unwrap();
    let cutoffs = floats(&cfg.cutoffs);
    for (i, e) in est.iter().enumerate() {
        let ccdf = floats(&e.ccdf);
        assert!(ccdf.windows(2).all(|w| w[0] <= w[1] + 1e-12));
        assert!(ccdf.iter().all(|f| (0.0..=1.0).contains(f)));
        assert!(float(e.cond_var) >= 0.0);
        let v = float(data.value(i * 7));
        let mut f_lo = 0.0;
        let mut best = 0.0;
        for (k, f) in ccdf.iter().enumerate() {
            let p = f - f_lo;
            let in_class = if k == 0 {
                v <= cutoffs[0]
            } else {
                v > cutoffs[k - 1] && v <= cutoffs[k]
            };
            if in_class {
                best = p;
            }
            f_lo = *f;
        }
        if v > cutoffs[2] {
            best = 1.0 - f_lo;
        }
        assert!(best > 0.5, "class probability {best} at datum");
    }
}

#[test]
fn ccdf_is_monotone_bounded_and_exactish_at_data() {
    decisive_at_data(false);
}

#[test]
fn ordinary_ik_is_bounded_monotone_and_exact_at_data() {
    decisive_at_data(true);
}

#[test]
fn ik_median_ik_matches_full_ik_when_models_coincide() {
    let (data, full_cfg) = setup();
    let (_, mut median_cfg) = setup();
    median_cfg.models = vec![indicator_model()];
    let targets: Vec<[Double; 2]> = (0..15).map(|i| at([i as f64 * 6.0, 40.0])).collect();
    let full = indicator_kriging(&data, &targets, &full_cfg, &ar()).unwrap();
    let median = indicator_kriging(&data, &targets, &median_cfg, &ar()).unwrap();
    for (f, m) in full.iter().zip(&median) {
        for (fc, mc) in f.ccdf.iter().zip(&m.ccdf) {
            assert!((float(*fc) - float(*mc)).abs() < 1e-10);
        }
        assert!((float(f.e_type) - float(m.e_type)).abs() < 1e-10);
        assert!((float(f.cond_var) - float(m.cond_var)).abs() < 1e-10);
    }
}

#[test]
fn ik_rejects_bad_model_count() {
    let (data, mut bad) = setup();
    bad.models = vec![indicator_model(), indicator_model()];
    assert!(indicator_kriging(&data, &places(&[[50.0, 50.0]]), &bad, &ar()).is_err());
}

fn calibration(rho: f64, sigma: f64, n: usize) -> Vec<MarkovBayesCalibration> {
    (0..n)
        .map(|_| MarkovBayesCalibration {
            rho: double(rho),
            sigma_soft: double(sigma),
            mean_soft: double(0.5),
        })
        .collect()
}

fn row_of_targets() -> Vec<[Double; 2]> {
    (0..10).map(|i| at([i as f64 * 9.0, 45.0])).collect()
}

#[test]
fn markov_bayes_zero_correlation_matches_hard_only_ik() {
    let (data, cfg) = setup();
    let nc = cfg.cutoffs.len();
    let targets = row_of_targets();
    let hard_only = indicator_kriging(&data, &targets, &cfg, &ar()).unwrap();
    let soft: Vec<Vec<Double>> = targets.iter().map(|_| vec![double(0.7); nc]).collect();
    let calib = calibration(0.0, 0.25, nc);
    let with_soft = indicator_kriging_soft(&data, &targets, &soft, &calib, &cfg, &ar()).unwrap();
    for (a, b) in hard_only.iter().zip(&with_soft) {
        for (fa, fb) in a.ccdf.iter().zip(&b.ccdf) {
            assert!((float(*fa) - float(*fb)).abs() < 1e-9);
        }
    }
}

#[test]
fn markov_bayes_informative_soft_data_reduces_conditional_variance() {
    let (data, cfg) = setup();
    let nc = cfg.cutoffs.len();
    let targets = row_of_targets();
    let hard_only = indicator_kriging(&data, &targets, &cfg, &ar()).unwrap();
    let soft: Vec<Vec<Double>> = targets
        .iter()
        .map(|t| {
            let t = place(*t);
            let d2 = |i: usize| {
                let c = place(data.coord(i));
                (c[0] - t[0]).powi(2) + (c[1] - t[1]).powi(2)
            };
            let nearest = (0..data.len()).min_by(|i, j| d2(*i).total_cmp(&d2(*j))).unwrap();
            let v = float(data.value(nearest));
            cfg.cutoffs
                .iter()
                .map(|c| double(if v <= float(*c) { 0.85 } else { 0.15 }))
                .collect()
        })
        .collect();
    let calib = calibration(0.75, 0.3, nc);
    let with_soft = indicator_kriging_soft(&data, &targets, &soft, &calib, &cfg, &ar()).unwrap();
    let mean_var = |ests: &[CcdfEstimate]| -> f64 {
        ests.iter().map(|e| float(e.cond_var)).sum::<f64>() / ests.len() as f64
    };
    assert!(mean_var(&with_soft) < mean_var(&hard_only));
}

#[test]
fn markov_bayes_rejects_ordinary_and_bad_dims() {
    let (data, mut cfg) = setup();
    let nc = cfg.cutoffs.len();
    let targets = places(&[[50.0, 50.0]]);
    let good_soft = vec![vec![double(0.5); nc]];
    let good_calib = calibration(0.3, 0.2, nc);
    cfg.ordinary = true;
    assert!(
        indicator_kriging_soft(&data, &targets, &good_soft, &good_calib, &cfg, &ar()).is_err()
    );
    cfg.ordinary = false;
    let bad_soft = vec![vec![double(0.5); nc - 1]];
    assert!(indicator_kriging_soft(&data, &targets, &bad_soft, &good_calib, &cfg, &ar()).is_err());
    let mut bad_calib = calibration(0.3, 0.2, nc);
    bad_calib[0].rho = double(1.5);
    assert!(indicator_kriging_soft(&data, &targets, &good_soft, &bad_calib, &cfg, &ar()).is_err());
}

#[test]
fn calibrate_markov_bayes_recovers_known_correlation() {
    let mut rng = Rng::new(3);
    let n = 300;
    let mut hard = Vec::with_capacity(n);
    let mut soft = Vec::with_capacity(n);
    for _ in 0..n {
        let latent = float(rng.normal(&ar()));
        let h = if latent > 0.0 { 1.0 } else { 0.0 };
        let s = 0.6 * latent + 0.4 * float(rng.normal(&ar()));
        hard.push(vec![double(h)]);
        soft.push(vec![double(s)]);
    }
    let calib = calibrate_markov_bayes(&hard, &soft, &ar()).unwrap();
    assert_eq!(calib.len(), 1);
    assert!(float(calib[0].rho) > 0.3, "rho {}", float(calib[0].rho));
    assert!(float(calib[0].sigma_soft) > 0.0);
}

#[test]
fn far_field_returns_global_distribution() {
    let (data, cfg) = setup();
    let est = indicator_kriging(&data, &places(&[[1e6, 1e6]]), &cfg, &ar()).unwrap();
    let n = data.len() as f64;
    for (k, c) in floats(&cfg.cutoffs).into_iter().enumerate() {
        let p = floats(data.values()).iter().filter(|v| **v <= c).count() as f64 / n;
        assert!((float(est[0].ccdf[k]) - p).abs() < 1e-6, "cutoff {k}");
    }
}

#[test]
fn e_type_tracks_kriging_roughly() {
    let (data, cfg) = setup();
    let est = indicator_kriging(&data, data.coords(), &cfg, &ar()).unwrap();
    let n = data.len() as f64;
    let mo = float(data.mean(&ar()));
    let me = est.iter().map(|e| float(e.e_type)).sum::<f64>() / n;
    let mut cov = 0.0;
    let mut vo = 0.0;
    let mut ve = 0.0;
    for (e, o) in est.iter().zip(floats(data.values())) {
        let t = float(e.e_type);
        cov += (t - me) * (o - mo);
        vo += (o - mo) * (o - mo);
        ve += (t - me) * (t - me);
    }
    let corr = cov / (vo.sqrt() * ve.sqrt());
    assert!(corr > 0.85, "E-type vs data correlation {corr}");
}

#[test]
fn tail_models_shift_the_ccdf_moments() {
    let ccdf = doubles(&[0.3, 0.6, 0.85]);
    let cutoffs = doubles(&[1.0, 2.0, 3.0]);
    let moments = |max: f64, lower_tail: TailModel, upper_tail: TailModel| {
        let classes = Classes {
            cutoffs: &cutoffs,
            tail_min: double(0.0),
            tail_max: double(max),
            lower_tail,
            upper_tail,
        };
        let m = ccdf_moments(&ccdf, &classes, &ar());
        (float(m.0), float(m.1))
    };
    let one = TailModel::Power(double(1.0));
    let hyper = TailModel::Hyperbolic(double(1.5));
    let lin = moments(5.0, TailModel::Linear, TailModel::Linear);
    let pow1 = moments(5.0, one, one);
    assert!((lin.0 - pow1.0).abs() < 1e-12 && (lin.1 - pow1.1).abs() < 1e-12);
    let hyp = moments(50.0, TailModel::Linear, hyper);
    assert!(hyp.0 > lin.0, "e-type {} vs {}", hyp.0, lin.0);
    assert!(hyp.1 > lin.1, "cond var {} vs {}", hyp.1, lin.1);
    assert!(validate_ccdf_tails(TailModel::Clamped, TailModel::Linear, double(3.0)).is_err());
    assert!(validate_ccdf_tails(TailModel::Linear, hyper, double(-1.0)).is_err());
    assert!(validate_ccdf_tails(TailModel::Linear, hyper, double(3.0)).is_ok());
}

#[test]
fn ik_rejects_bad_config() {
    let target = places(&[[0.0, 0.0]]);
    let (data, mut bad) = setup();
    bad.cutoffs = doubles(&[2.0, 1.0, 3.0]);
    assert!(indicator_kriging(&data, &target, &bad, &ar()).is_err());
    let (_, mut bad) = setup();
    bad.models.pop();
    assert!(indicator_kriging(&data, &target, &bad, &ar()).is_err());
    let (_, mut bad) = setup();
    bad.cutoffs[2] = double(1e9);
    assert!(indicator_kriging(&data, &target, &bad, &ar()).is_err());
}

#[test]
fn e_types_lie_between_the_tail_bounds() {
    let (data, cfg) = setup();
    let targets: Vec<[f64; 2]> = (0..15).map(|i| [i as f64 * 6.0, 40.0]).collect();
    let values = floats(data.values());
    let lo = values.iter().copied().fold(f64::INFINITY, f64::min);
    let hi = values.iter().copied().fold(f64::NEG_INFINITY, f64::max);
    for e in indicator_kriging(&data, &places(&targets), &cfg, &ar()).unwrap() {
        assert!(lo <= float(e.e_type) && float(e.e_type) <= hi, "{}", float(e.e_type));
    }
    let classes = Classes {
        cutoffs: &doubles(&[1.0, 2.0]),
        tail_min: double(0.0),
        tail_max: double(4.0),
        lower_tail: TailModel::Linear,
        upper_tail: TailModel::Linear,
    };
    let (mean, _) = ccdf_moments(&doubles(&[0.25, 0.5]), &classes, &ar());
    assert_eq!(float(mean), 0.25 * 0.5 + 0.25 * 1.5 + 0.5 * 3.0);
}
