use geostat::cokriging::{CoKriging, CoKrigingConfig};
use geostat::covariance::Covariance;
use geostat::data::PointSet;
use geostat::error::GeostatError;
use geostat::io_utils::VariogramBin;
use geostat::kriging::{block_offsets, Kriging, KrigingConfig};
use geostat::lmc::{Anisotropy, Lmc, LmcStructure};
use geostat::lmc_fit::{fit_lmc, fit_lmc_collocated, project_psd_2x2, TemplateStructure};
use geostat::model::ModelTraits;
use geostat::rng::Rng;
use geostat::arith::{Arithmetic, Op};
use geostat::double::Double;

fn double(x: f64) -> Double {
    Double::from_bits(x.to_bits())
}

fn float(v: Double) -> f64 {
    f64::from_bits(v.bits)
}

type Calc = Arithmetic<fn(Op, Double, Double) -> Double>;

fn apply(op: Op, a: Double, b: Double) -> Double {
    let (x, y) = (float(a), float(b));
    double(match op {
        Op::Plus => x + y,
        Op::Minus => x - y,
        Op::Times => x * y,
        Op::Over => x / y,
        Op::Power => x.powf(y),
        Op::Root => x.sqrt(),
        Op::Exp => x.exp(),
        Op::Ln => x.ln(),
        Op::Sin => x.sin(),
        Op::Cos => x.cos(),
        Op::Sinh => x.sinh(),
        Op::Cosh => x.cosh(),
        Op::Asinh => x.asinh(),
    })
}

fn ar() -> Calc {
    Arithmetic::new(apply as fn(Op, Double, Double) -> Double)
}

fn doubles(xs: &[f64]) -> Vec<Double> {
    xs.iter().map(|x| double(*x)).collect()
}

fn floats(vs: &[Double]) -> Vec<f64> {
    vs.iter().map(|v| float(*v)).collect()
}

fn at(p: [f64; 2]) -> [Double; 2] {
    [double(p[0]), double(p[1])]
}

fn place(p: [Double; 2]) -> [f64; 2] {
    [float(p[0]), float(p[1])]
}

fn point_set(coords: &[[f64; 2]], values: &[f64]) -> PointSet<2> {
    PointSet::new(
        coords.iter().map(|p| at(*p)).collect(),
        values.iter().map(|v| double(*v)).collect(),
    )
    .unwrap()
}

type Gamma = Box<dyn Fn([Double; 2]) -> Double + Sync>;

fn spherical(h: f64) -> f64 {
    if h >= 1.0 {
        1.0
    } else {
        1.5 * h - 0.5 * h * h * h
    }
}

fn exponential(h: f64) -> f64 {
    1.0 - (-h).exp()
}

fn covariance(
    shape: fn(f64) -> f64,
    nugget: f64,
    sill: f64,
    range: f64,
    azimuth: f64,
    ratio: f64,
) -> Covariance<2, Gamma> {
    let (sin, cos) = azimuth.to_radians().sin_cos();
    let gamma = move |h: [Double; 2]| {
        let (dx, dy) = (float(h[0]), float(h[1]));
        if dx == 0.0 && dy == 0.0 {
            return double(0.0);
        }
        let along = dx * sin + dy * cos;
        let across = (dx * cos - dy * sin) / ratio;
        let r = (along * along + across * across).sqrt();
        double(nugget + sill * shape(r / range))
    };
    Covariance {
        gamma: Box::new(gamma),
        covariance: None,
        sill: double(nugget + sill),
        nugget: double(nugget),
        traits: ModelTraits { has_power: false, invalid_kind: None },
    }
}

fn isotropic(shape: fn(f64) -> f64, nugget: f64, sill: f64, range: f64) -> Covariance<2, Gamma> {
    covariance(shape, nugget, sill, range, 0.0, 1.0)
}

fn primary() -> PointSet<2> {
    point_set(
        &[[0.0, 0.0], [10.0, 0.0], [0.0, 10.0], [10.0, 10.0], [4.0, 6.0]],
        &[1.0, 2.0, 1.5, 2.5, 1.7],
    )
}

fn secondary() -> PointSet<2> {
    point_set(
        &[[0.0, 0.0], [10.0, 0.0], [0.0, 10.0], [10.0, 10.0], [4.0, 6.0], [6.0, 3.0]],
        &[2.1, 4.2, 3.0, 5.1, 3.5, 3.9],
    )
}

fn square(rows: [[f64; 2]; 2]) -> Vec<Vec<Double>> {
    rows.iter().map(|r| doubles(r)).collect()
}

fn unit_shape(range: f64) -> Gamma {
    Box::new(move |h: [Double; 2]| {
        let (dx, dy) = (float(h[0]), float(h[1]));
        double(spherical((dx * dx + dy * dy).sqrt() / range))
    })
}

fn structure(range: f64, sills: [[f64; 2]; 2]) -> LmcStructure<2, Gamma> {
    LmcStructure {
        shape: unit_shape(range),
        range: double(range),
        anis: None,
        sills: square(sills),
    }
}

fn lmc(cross: f64) -> Lmc<2, Gamma> {
    Lmc::new(
        square([[0.05, 0.0], [0.0, 0.1]]),
        vec![structure(15.0, [[1.0, cross], [cross, 2.0]])],
        &ar(),
    )
    .unwrap()
}

fn predict(ck: &CoKriging<'_, 2, Gamma>, t: [f64; 2]) -> (f64, f64) {
    let e = ck.predict(at(t), &ar()).unwrap();
    (float(e.value), float(e.variance))
}

#[test]
fn lmc_validation() {
    assert!(Lmc::new(
        square([[0.0, 0.0], [0.0, 0.0]]),
        vec![structure(10.0, [[1.0, 1.6], [1.6, 2.0]])],
        &ar()
    )
    .is_err());
    let none: Vec<LmcStructure<2, Gamma>> = vec![];
    assert!(Lmc::new(square([[1.0, 0.5], [0.2, 1.0]]), none, &ar()).is_err());
    let m = lmc(0.8);
    let d0 = m.direct_model(0);
    assert!((float(d0.total_sill(&ar())) - 1.05).abs() < 1e-12);
}

#[test]
fn cokriging_is_exact_at_primary_data() {
    let p = primary();
    let s = secondary();
    let m = lmc(0.8);
    let ck = CoKriging::new(vec![&p, &s], &m, CoKrigingConfig::default()).unwrap();
    for i in 0..p.len() {
        let (value, variance) = predict(&ck, place(p.coord(i)));
        assert!((value - float(p.value(i))).abs() < 1e-7, "point {i}");
        assert!(variance < 1e-7);
    }
}

#[test]
fn block_cokriging_averages_point_cokriging() {
    let p = primary();
    let s = secondary();
    let m = lmc(0.8);
    let ck = CoKriging::new(vec![&p, &s], &m, CoKrigingConfig::default()).unwrap();
    let center = [5.0, 5.0];
    let offsets = block_offsets(at([4.0, 4.0]), [3, 3], &ar()).unwrap();
    let block = ck.predict_block(at(center), &offsets, &ar()).unwrap();
    let mean_pts = offsets
        .iter()
        .map(|o| predict(&ck, [center[0] + float(o[0]), center[1] + float(o[1])]).0)
        .sum::<f64>()
        / offsets.len() as f64;
    assert!((float(block.value) - mean_pts).abs() < 1e-9);
    assert!(float(block.variance) < predict(&ck, center).1);
    assert!(ck.predict_block(at(center), &vec![], &ar()).is_err());
}

#[test]
fn zero_cross_correlation_reduces_to_ordinary_kriging() {
    let p = primary();
    let s = secondary();
    let m = lmc(0.0);
    let ck = CoKriging::new(vec![&p, &s], &m, CoKrigingConfig::default()).unwrap();
    let direct = m.direct_model(0);
    let model = isotropic(spherical, float(direct.nugget), float(direct.sills[0]), 15.0);
    let ok = Kriging::new(&p, &model, KrigingConfig::default(), &ar()).unwrap();
    for target in [[5.0, 5.0], [2.0, 8.0], [12.0, 4.0]] {
        let (value, variance) = predict(&ck, target);
        let b = ok.predict(at(target), &ar()).unwrap();
        assert!((value - float(b.value)).abs() < 1e-9, "{target:?}");
        assert!((variance - float(b.variance)).abs() < 1e-9);
    }
}

#[test]
fn secondary_reduces_variance() {
    let p = primary();
    let s = secondary();
    let with_cross = lmc(1.2);
    let without = lmc(0.0);
    let target = [6.0, 3.0];
    let ck1 = CoKriging::new(vec![&p, &s], &with_cross, CoKrigingConfig::default()).unwrap();
    let ck0 = CoKriging::new(vec![&p, &s], &without, CoKrigingConfig::default()).unwrap();
    assert!(predict(&ck1, target).1 < predict(&ck0, target).1);
}

fn bins(gamma: impl Fn(f64) -> f64) -> Vec<VariogramBin> {
    (0..12)
        .map(|i| {
            let h = (i as f64 + 0.5) * 2.0;
            VariogramBin { h: double(h), gamma: double(gamma(h)), n_pairs: 50 }
        })
        .collect()
}

type Lag = Box<dyn Fn(Double) -> Double>;

fn template(anis: Option<Anisotropy>) -> Vec<TemplateStructure<2, Lag, Gamma>> {
    vec![TemplateStructure {
        at_lag: Box::new(|h: Double| double(spherical(float(h) / 15.0))),
        shape: unit_shape(15.0),
        range: double(15.0),
        anis,
    }]
}

fn sills(m: &Lmc<2, Gamma>) -> [f64; 3] {
    [
        float(m.sill_of(0, 0, 0)),
        float(m.sill_of(0, 1, 1)),
        float(m.sill_of(0, 0, 1)),
    ]
}

#[test]
fn fit_lmc_recovers_synthetic_sills() {
    let truth = lmc(0.9);
    let mk = |u: usize, v: usize| bins(|h| float(truth.gamma_dh(u, v, at([h, 0.0]), &ar())));
    let fitted = fit_lmc(&mk(0, 0), &mk(1, 1), &mk(0, 1), template(None), &ar()).unwrap();
    let [aa, bb, ab] = sills(&fitted);
    assert!((aa - 1.0).abs() < 0.05);
    assert!((bb - 2.0).abs() < 0.05);
    assert!((ab - 0.9).abs() < 0.05);
    assert!((float(fitted.nugget_of(0, 0)) - 0.05).abs() < 0.02);
}

fn spherical_bins(sill: f64, nugget: f64) -> Vec<VariogramBin> {
    bins(|h| nugget + sill * spherical(h / 15.0))
}

#[test]
fn fit_lmc_projects_to_psd() {
    let fitted = fit_lmc(
        &spherical_bins(1.0, 0.0),
        &spherical_bins(1.0, 0.0),
        &spherical_bins(1.8, 0.0),
        template(None),
        &ar(),
    )
    .unwrap();
    let [aa, bb, ab] = sills(&fitted);
    assert!(ab * ab <= aa * bb + 1e-9);
}

#[test]
fn fit_lmc_rejects_anisotropic_template() {
    let anis =
        Anisotropy { azimuth_deg: double(30.0), ratio: double(0.5), ratio_z: double(1.0) };
    let curve = spherical_bins(1.0, 0.0);
    assert!(fit_lmc(&curve, &curve, &curve, template(Some(anis)), &ar()).is_err());
}

#[test]
fn goulard_voltz_beats_one_shot_clipping() {
    let curves =
        [spherical_bins(1.0, 0.3), spherical_bins(1.0, 0.3), spherical_bins(1.8, 0.0)];
    let fitted = fit_lmc(&curves[0], &curves[1], &curves[2], template(None), &ar()).unwrap();
    let wss_of = |nug: [f64; 3], sill: [f64; 3]| -> f64 {
        let mut total = 0.0;
        for pair in 0..3 {
            let mult = if pair == 2 { 2.0 } else { 1.0 };
            for b in &curves[pair] {
                let h = float(b.h);
                let fit = nug[pair] + sill[pair] * spherical(h / 15.0);
                let w = b.n_pairs as f64 / (h * h);
                total += mult * w * (float(b.gamma) - fit) * (float(b.gamma) - fit);
            }
        }
        total
    };
    let nug = [
        float(fitted.nugget_of(0, 0)),
        float(fitted.nugget_of(1, 1)),
        float(fitted.nugget_of(0, 1)),
    ];
    let wss_gv = wss_of(nug, sills(&fitted));
    let wss_clip = wss_of([0.3, 0.3, 0.0], [1.4, 1.4, 1.4]);
    assert!(wss_gv <= wss_clip + 1e-9, "GV wss {wss_gv} vs one-shot {wss_clip}");
    assert!(wss_gv < 0.98 * wss_clip, "expected strict improvement");
    let cn = nug[2];
    assert!(cn > 0.01 && cn * cn <= nug[0] * nug[1] + 1e-9, "cross nugget {cn}");
}

fn experimental(a: &PointSet<2>, b: &PointSet<2>, n_lags: usize, max: f64) -> Vec<VariogramBin> {
    let mut sums = vec![(0.0, 0.0, 0usize); n_lags];
    for i in 0..a.len() {
        for j in i + 1..a.len() {
            let (p, q) = (place(a.coord(i)), place(a.coord(j)));
            let h = ((p[0] - q[0]).powi(2) + (p[1] - q[1]).powi(2)).sqrt();
            if h == 0.0 || h > max {
                continue;
            }
            let k = ((h / max * n_lags as f64).ceil() as usize - 1).min(n_lags - 1);
            let da = float(a.value(i)) - float(a.value(j));
            let db = float(b.value(i)) - float(b.value(j));
            sums[k].0 += h;
            sums[k].1 += 0.5 * da * db;
            sums[k].2 += 1;
        }
    }
    sums.iter()
        .map(|s| VariogramBin {
            h: double(s.0 / s.2 as f64),
            gamma: double(s.1 / s.2 as f64),
            n_pairs: s.2,
        })
        .collect()
}

fn correlated() -> (PointSet<2>, PointSet<2>) {
    let mut rng = Rng::new(3);
    let mut coords = Vec::new();
    let mut va = Vec::new();
    let mut vb = Vec::new();
    for _ in 0..150 {
        let x = float(rng.uniform()) * 100.0;
        let y = float(rng.uniform()) * 100.0;
        let base = (x / 25.0).sin() + (y / 25.0).cos();
        coords.push([x, y]);
        va.push(base + 0.1 * float(rng.normal(&ar())));
        vb.push(2.0 * base + 0.2 * float(rng.normal(&ar())));
    }
    (point_set(&coords, &va), point_set(&coords, &vb))
}

fn long_template() -> Vec<TemplateStructure<2, Lag, Gamma>> {
    vec![TemplateStructure {
        at_lag: Box::new(|h: Double| double(spherical(float(h) / 45.0))),
        shape: unit_shape(45.0),
        range: double(45.0),
        anis: None,
    }]
}

#[test]
fn cross_variogram_feeds_lmc_fit() {
    let (a, b) = correlated();
    let ea = experimental(&a, &a, 12, 50.0);
    let eb = experimental(&b, &b, 12, 50.0);
    let eab = experimental(&a, &b, 12, 50.0);
    let fitted = fit_lmc(&ea, &eb, &eab, long_template(), &ar()).unwrap();
    assert_eq!(fitted.n_vars(), 2);
    assert!(float(fitted.total_sill(0, 1, &ar())) > 0.0);
}

#[test]
fn collocated_pairs_are_fitted_together() {
    let (a, b) = correlated();
    let ea = experimental(&a, &a, 12, 50.0);
    let eb = experimental(&b, &b, 12, 50.0);
    let cross = |p: &PointSet<2>, s: &PointSet<2>| -> Result<Vec<VariogramBin>, GeostatError> {
        Ok(experimental(p, s, 12, 50.0))
    };
    let fitted =
        fit_lmc_collocated(&a, &b, 12, &ea, &eb, cross, long_template(), &ar()).unwrap();
    assert!(float(fitted.total_sill(0, 1, &ar())) > 0.0);
}

#[test]
fn projection_keeps_a_psd_matrix() {
    let r = project_psd_2x2(double(2.0), double(0.5), double(1.0), &ar());
    assert!((float(r.aa) - 2.0).abs() < 1e-12);
    assert!((float(r.ab) - 0.5).abs() < 1e-12);
    assert!((float(r.bb) - 1.0).abs() < 1e-12);
    let r = project_psd_2x2(double(1.0), double(1.8), double(1.0), &ar());
    assert!((float(r.aa) - 1.4).abs() < 1e-12);
    assert!((float(r.ab) - 1.4).abs() < 1e-12);
}

#[test]
fn one_data_set_is_no_cokriging() {
    let p = primary();
    let m = lmc(0.5);
    match CoKriging::new(vec![&p], &m, CoKrigingConfig::default()) {
        Err(GeostatError::InvalidParameter(msg)) => assert_eq!(
            msg.text,
            "co-kriging needs a primary and at least one secondary variable"
        ),
        Err(other) => panic!("{other:?}"),
        Ok(_) => panic!("accepted"),
    }
}
