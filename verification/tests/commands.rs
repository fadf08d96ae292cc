use geostat::cokriging::{CoKriging, CoKrigingConfig};
use geostat::commands::{
    check_cv_output, check_model_count, check_table_input, choose_indicator_models,
    choose_lag_width, coincident_note, cokrige_cells, collocated_secondary, constant_errors,
    count_coincident, count_nan, cv_label,
    declustered_mean, estimate_pair, finite_range, first_column, krige_cells,
    krige_lognormal_cells, likelihood_label, measurement_errors, parse_stats, plan_cells, plan_cokrige,
    plan_collocated, plan_cv, plan_fit, plan_ik, plan_krige, plan_variogram, plan_vmap,
    rank_methods, raster_bbox, sample_points, scan_sizes, score_points, trend_at_rows,
    write_vmap_csv, CellCourse, CokrigeCourse, CokrigeRequest, CvCourse, CvMethod, CvRequest,
    FitCourse, IndicatorModels, KrigeCourse, KrigeRequest, MapCell, StatsSource, VariogramCourse,
    VariogramRequest,
};
use geostat::covariance::Covariance;
use geostat::data::PointSet;
use geostat::grid::Grid2D;
use geostat::io_utils::read_points;
use geostat::kriging::{Kriging, KrigingConfig};
use geostat::lmc::{Lmc, LmcStructure};
use geostat::model::ModelTraits;
use geostat::options::Refusal;
use geostat::raster::RasterGrid;
use geostat::regression::OlsTrend;
use geostat::transform::NormalScore;
use geostat::arith::{Arithmetic, Op};
use geostat::double::Double;

fn double(x: f64) -> Double {
    Double::from_bits(x.to_bits())
}

fn float(v: Double) -> f64 {
    f64::from_bits(v.bits)
}

type Calc = Arithmetic<fn(Op, Double, Double) -> Double>;

fn apply(op: Op, a: Double, b: Double) -> Double {
    let (x, y) = (float(a), float(b));
    double(match op {
        Op::Plus => x + y,
        Op::Minus => x - y,
        Op::Times => x * y,
        Op::Over => x / y,
        Op::Power => x.powf(y),
        Op::Root => x.sqrt(),
        Op::Exp => x.exp(),
        Op::Ln => x.ln(),
        Op::Sin => x.sin(),
        Op::Cos => x.cos(),
        Op::Sinh => x.sinh(),
        Op::Cosh => x.cosh(),
        Op::Asinh => x.asinh(),
    })
}

fn ar() -> Calc {
    Arithmetic::new(apply as fn(Op, Double, Double) -> Double)
}

fn doubles(xs: &[f64]) -> Vec<Double> {
    xs.iter().map(|x| double(*x)).collect()
}

fn floats(vs: &[Double]) -> Vec<f64> {
    vs.iter().map(|v| float(*v)).collect()
}

fn at(p: [f64; 2]) -> [Double; 2] {
    [double(p[0]), double(p[1])]
}

fn place(p: [Double; 2]) -> [f64; 2] {
    [float(p[0]), float(p[1])]
}

fn point_set(coords: &[[f64; 2]], values: &[f64]) -> PointSet<2> {
    PointSet::new(
        coords.iter().map(|p| at(*p)).collect(),
        values.iter().map(|v| double(*v)).collect(),
    )
    .unwrap()
}

type Gamma = Box<dyn Fn([Double; 2]) -> Double + Sync>;

fn spherical(h: f64) -> f64 {
    if h >= 1.0 {
        1.0
    } else {
        1.5 * h - 0.5 * h * h * h
    }
}

fn exponential(h: f64) -> f64 {
    1.0 - (-h).exp()
}

fn covariance(
    shape: fn(f64) -> f64,
    nugget: f64,
    sill: f64,
    range: f64,
    azimuth: f64,
    ratio: f64,
) -> Covariance<2, Gamma> {
    let (sin, cos) = azimuth.to_radians().sin_cos();
    let gamma = move |h: [Double; 2]| {
        let (dx, dy) = (float(h[0]), float(h[1]));
        if dx == 0.0 && dy == 0.0 {
            return double(0.0);
        }
        let along = dx * sin + dy * cos;
        let across = (dx * cos - dy * sin) / ratio;
        let r = (along * along + across * across).sqrt();
        double(nugget + sill * shape(r / range))
    };
    Covariance {
        gamma: Box::new(gamma),
        covariance: None,
        sill: double(nugget + sill),
        nugget: double(nugget),
        traits: ModelTraits { has_power: false, invalid_kind: None },
    }
}

fn isotropic(shape: fn(f64) -> f64, nugget: f64, sill: f64, range: f64) -> Covariance<2, Gamma> {
    covariance(shape, nugget, sill, range, 0.0, 1.0)
}

fn parse(s: &str) -> Option<Double> {
    s.parse::<f64>().ok().map(double)
}

fn show(v: Double) -> String {
    float(v).to_string()
}

fn refused<T>(r: Result<T, Refusal>) -> String {
    match r {
        Ok(_) => panic!("accepted"),
        Err(Refusal::Request(t, _)) => t,
        Err(Refusal::Core(e)) => format!("{e:?}"),
    }
}

#[test]
fn variogram_requests_take_one_course() {
    let plain = VariogramRequest {
        anisotropic: false,
        mle: false,
        trend: false,
        detrend: false,
        detrend_cols: false,
        z_col: false,
    };
    assert_eq!(plan_variogram(plain).unwrap(), VariogramCourse::Plane);
    let drift = VariogramRequest { detrend_cols: true, ..plain };
    assert_eq!(plan_variogram(drift).unwrap(), VariogramCourse::Drift);
    let space = VariogramRequest { z_col: true, ..plain };
    assert_eq!(plan_variogram(space).unwrap(), VariogramCourse::Space);
    assert_eq!(
        refused(plan_variogram(VariogramRequest { anisotropic: true, mle: true, ..plain })),
        "--mle and --anisotropic cannot be combined yet"
    );
    assert_eq!(
        refused(plan_variogram(VariogramRequest { trend: true, ..plain })),
        "--trend requires --mle (it selects REML/trend maximum likelihood)"
    );
    assert_eq!(
        refused(plan_variogram(VariogramRequest { detrend: true, detrend_cols: true, ..plain })),
        "--detrend and --detrend-cols are mutually exclusive"
    );
    assert_eq!(
        refused(plan_variogram(VariogramRequest { anisotropic: true, ..space })),
        "--anisotropic is 2-D only (drop --z-col)"
    );
    assert_eq!(
        refused(plan_variogram(VariogramRequest { detrend_cols: true, ..space })),
        "--detrend-cols is 2-D only (drop --z-col)"
    );
    assert_eq!(
        refused(plan_vmap(true)),
        "the variogram map is 2-D only (drop --z-col)"
    );
    assert!(plan_vmap(false).is_ok());
}

#[test]
fn fits_are_by_likelihood_before_least_squares() {
    assert_eq!(plan_fit(true, Some(1), true, true, true).unwrap(), FitCourse::Likelihood(Some(1)));
    assert_eq!(plan_fit(false, None, true, false, true).unwrap(), FitCourse::LeastSquares);
    assert_eq!(plan_fit(false, None, false, true, false).unwrap(), FitCourse::NoFit);
    assert_eq!(
        refused(plan_fit(false, None, true, true, false)),
        "--fit cannot be combined with --estimator madogram (it is not on the scale of gamma)"
    );
    assert_eq!(
        refused(plan_fit(false, None, false, false, true)),
        "--model-out requires --fit or --mle"
    );
    assert_eq!(likelihood_label(20, None), "Vecchia ML fit (m = 20)");
    assert_eq!(likelihood_label(20, Some(2)), "Vecchia REML fit (m = 20, trend degree 2)");
}

fn plain_krige() -> KrigeRequest {
    KrigeRequest {
        error: false,
        error_col: false,
        drift_cols: false,
        lognormal: false,
        z_col: false,
        vecchia: false,
        block: false,
        targets: false,
        raster: false,
        gpkg_output: false,
    }
}

#[test]
fn kriging_requests_take_one_course() {
    let plain = plain_krige();
    assert_eq!(plan_krige(plain).unwrap(), KrigeCourse::Cells);
    let space = KrigeRequest { z_col: true, targets: true, ..plain };
    assert_eq!(plan_krige(space).unwrap(), KrigeCourse::Space);
    let drift = KrigeRequest { drift_cols: true, targets: true, ..plain };
    assert_eq!(plan_krige(drift).unwrap(), KrigeCourse::Drift);
    assert_eq!(
        refused(plan_krige(KrigeRequest { error: true, ..drift })),
        "--error/--error-col support plain 2-D (block) kriging only for now"
    );
    assert_eq!(
        refused(plan_krige(KrigeRequest { error_col: true, vecchia: true, ..plain })),
        "--vecchia supports plain 2-D point kriging only (simple-kriging mean)"
    );
    assert_eq!(
        refused(plan_krige(KrigeRequest { block: true, ..space })),
        "3-D mode supports plain point kriging only (no --drift-cols/--block)"
    );
    assert_eq!(
        refused(plan_krige(KrigeRequest { targets: false, ..space })),
        "3-D kriging requires --targets (CSV with x, y, z)"
    );
    assert_eq!(
        refused(plan_krige(KrigeRequest { targets: false, ..drift })),
        "--drift-cols requires --targets (CSV with x, y and drift columns)"
    );
    let raster = KrigeRequest { raster: true, gpkg_output: true, ..plain };
    assert_eq!(plan_krige(raster).unwrap(), KrigeCourse::Cells);
    assert_eq!(
        refused(plan_krige(KrigeRequest { gpkg_output: false, ..raster })),
        "--raster requires a .gpkg output"
    );
    assert_eq!(
        refused(plan_krige(KrigeRequest { targets: true, ..plain })),
        "--targets requires --drift-cols or --z-col (plain 2-D kriging predicts a grid)"
    );
    assert_eq!(plan_cells(plain).unwrap(), CellCourse::Kriging);
    let vecchia = KrigeRequest { vecchia: true, ..plain };
    assert_eq!(plan_cells(vecchia).unwrap(), CellCourse::Vecchia);
    let lognormal = KrigeRequest { lognormal: true, ..plain };
    assert_eq!(plan_cells(lognormal).unwrap(), CellCourse::Lognormal);
    assert_eq!(
        refused(plan_cells(KrigeRequest { block: true, ..lognormal })),
        "--lognormal cannot be combined with --block or --drift-cols"
    );
}

fn data() -> PointSet<2> {
    point_set(
        &[[0.0, 0.0], [1.0, 0.0], [0.0, 1.0], [1.0, 1.0], [0.4, 0.6]],
        &[1.0, 2.0, 1.5, 2.5, 1.7],
    )
}

fn model() -> Covariance<2, Gamma> {
    isotropic(spherical, 0.05, 0.95, 2.0)
}

fn grid() -> Grid2D {
    Grid2D::from_bbox(at([0.0, 0.0]), at([1.0, 1.0]), 3, 2, &ar()).unwrap()
}

#[test]
fn cells_are_kriged_as_points_or_blocks() {
    let (data, model, grid) = (data(), model(), grid());
    let cfg = KrigingConfig::default();
    let run = |errors: Option<Vec<Double>>, block: Option<&str>, discr: &str| {
        krige_cells(&data, errors, &model, cfg, &grid, block, discr, &parse, &ar())
    };
    let k = Kriging::new(&data, &model, cfg, &ar()).unwrap();
    assert_eq!(run(None, None, "4,4").unwrap(), k.predict_grid(&grid, &ar()));
    assert_eq!(
        run(None, Some("0.2,0.2"), "2,3").unwrap(),
        k.predict_block_grid(&grid, at([0.2, 0.2]), [2, 3], &ar()).unwrap()
    );
    let noisy = run(Some(constant_errors(double(0.5), 5)), None, "4,4").unwrap();
    assert_ne!(noisy, run(None, None, "4,4").unwrap());
    assert_eq!(
        refused(run(None, Some("0.2"), "2,3")),
        "--block and --block-discr take two comma-separated values"
    );
    assert_eq!(refused(run(None, Some("0.2,q"), "2,3")), "invalid number 'q'");
    assert!(matches!(run(None, Some("0.2,0.2"), "0,3"), Err(Refusal::Core(_))));
    assert!(matches!(
        run(Some(constant_errors(double(0.5), 2)), None, "4,4"),
        Err(Refusal::Core(_))
    ));
    let (values, _) =
        krige_lognormal_cells(&data, &model, cfg, &grid, &ar()).unwrap();
    assert!(values.iter().all(|v| float(*v) > 0.0));
}

#[test]
fn predictions_are_summarized() {
    let values = doubles(&[3.0, f64::NAN, -1.0, f64::INFINITY]);
    assert_eq!(count_nan(&values), 1);
    assert_eq!(finite_range(&values), Some((double(-1.0), double(3.0))));
    assert_eq!(finite_range(&doubles(&[f64::NAN])), None);
    assert_eq!(floats(&raster_bbox(&grid(), &ar())), vec![0.0, 0.0, 1.0, 1.0]);
}

#[test]
fn cokriging_requests_take_one_course() {
    let plain =
        CokrigeRequest { min_neighbors: false, octant: false, secondary_input: false, lmc: false };
    assert_eq!(plan_cokrige(plain).unwrap(), CokrigeCourse::Collocated);
    let apart = CokrigeRequest { secondary_input: true, lmc: true, ..plain };
    assert_eq!(plan_cokrige(apart).unwrap(), CokrigeCourse::Heterotopic);
    assert_eq!(
        refused(plan_cokrige(CokrigeRequest { octant: true, ..plain })),
        "--min-neighbors/--octant are not supported by this command yet"
    );
    assert_eq!(
        refused(plan_cokrige(CokrigeRequest { lmc: false, ..apart })),
        "--secondary-input (heterotopic co-kriging) requires --lmc: automatic LMC fitting needs collocated data"
    );
}

#[test]
fn cells_are_cokriged_as_points_or_blocks() {
    let primary = data();
    let extras: Vec<Vec<Double>> = (0..5).map(|i| vec![double(i as f64)]).collect();
    let secondary = collocated_secondary(&primary, &extras).unwrap();
    assert_eq!(floats(secondary.values()), vec![0.0, 1.0, 2.0, 3.0, 4.0]);
    assert_eq!(secondary.coords(), primary.coords());
    let shape: Gamma = Box::new(|h: [Double; 2]| {
        let r = (float(h[0]).powi(2) + float(h[1]).powi(2)).sqrt();
        double(spherical(r / 2.0))
    });
    let sills = vec![doubles(&[1.0, 0.5]), doubles(&[0.5, 2.0])];
    let lmc = Lmc::new(
        vec![doubles(&[0.1, 0.0]), doubles(&[0.0, 0.1])],
        vec![LmcStructure { shape, range: double(2.0), anis: None, sills }],
        &ar(),
    )
    .unwrap();
    let cfg = || CoKrigingConfig::default();
    let grid = grid();
    let run = |block: Option<&str>| {
        cokrige_cells(&primary, &secondary, &lmc, cfg(), &grid, block, "2,2", &parse, &ar())
    };
    let ck = CoKriging::new(vec![&primary, &secondary], &lmc, cfg()).unwrap();
    assert_eq!(run(None).unwrap(), ck.predict_grid(&grid, &ar()));
    assert_eq!(
        run(Some("0.2,0.2")).unwrap(),
        ck.predict_block_grid(&grid, at([0.2, 0.2]), [2, 2], &ar()).unwrap()
    );
    assert!(matches!(run(Some("0,0.2")), Err(Refusal::Core(_))));
}

#[test]
fn cross_validation_requests_take_one_course() {
    let plain = CvRequest { z_col: false, drift_cols: false, folds: false };
    assert_eq!(plan_cv(plain).unwrap(), CvCourse::Plane);
    assert_eq!(plan_cv(CvRequest { drift_cols: true, ..plain }).unwrap(), CvCourse::Drift);
    assert_eq!(plan_cv(CvRequest { z_col: true, folds: true, ..plain }).unwrap(), CvCourse::Space);
    assert_eq!(
        refused(plan_cv(CvRequest { z_col: true, drift_cols: true, folds: false })),
        "3-D cross-validation does not support --drift-cols"
    );
    assert_eq!(
        refused(plan_cv(CvRequest { z_col: false, drift_cols: true, folds: true })),
        "--folds (k-fold) is not yet supported with --drift-cols"
    );
    assert!(check_cv_output(CvCourse::Plane, true).is_ok());
    assert_eq!(
        refused(check_cv_output(CvCourse::Space, true)),
        "--output is not supported in 3-D mode yet"
    );
}

#[test]
fn cross_validation_reports_name_their_method() {
    assert_eq!(cv_label(CvMethod::LeaveOneOut, 7), "Leave-one-out cross-validation (7 points):");
    assert_eq!(cv_label(CvMethod::KFold, 12), "K-fold cross-validation (12 points):");
    assert_eq!(cv_label(CvMethod::Blocks, 0), "Spatial block cross-validation (0 points):");
}

#[test]
fn geopackages_have_no_covariate_columns() {
    assert!(check_table_input(false).is_ok());
    assert!(refused(check_table_input(true)).contains("GeoPackage"));
}

#[test]
fn collocated_statistics_are_given_or_estimated() {
    assert_eq!(plan_collocated(true, true, false, false).unwrap(), StatsSource::Given);
    assert_eq!(plan_collocated(false, true, true, true).unwrap(), StatsSource::Column);
    let none = refused(plan_collocated(false, false, false, false));
    assert!(none.contains("--stats") && none.contains("--secondary-col"), "{none}");
    assert!(refused(plan_collocated(true, false, true, false)).contains("--secondary-model"));

    let given = "1.7428571428571427,3.5285714285714285,0.9959533685290869,\
        0.5010193690500052,1.005292119186239";
    let given = parse_stats(given, &parse).unwrap();
    let primary = doubles(&[1.0, 2.0, 1.5, 2.5, 1.8, 1.2, 2.2]);
    let secondary = doubles(&[2.1, 3.9, 3.0, 5.2, 3.6, 2.5, 4.4]);
    let auto = estimate_pair(&primary, &secondary, &ar()).unwrap();
    let close = |a: Double, b: Double| (float(a) - float(b)).abs() < 1e-9;
    assert!(close(given.mean1, auto.mean1) && close(given.mean2, auto.mean2));
    assert!(close(given.rho12, auto.rho12));
    assert!(close(given.sigma1, auto.sigma1) && close(given.sigma2, auto.sigma2));
    assert_eq!(
        refused(parse_stats("1,2", &parse)),
        "--stats takes \"mean1,mean2,rho12,sigma1,sigma2\", got '1,2'"
    );
    assert!(matches!(
        estimate_pair(&doubles(&[1.0]), &doubles(&[2.0]), &ar()),
        Err(Refusal::Core(_))
    ));
}

#[test]
fn indicator_models_are_given_shared_or_fitted() {
    assert!(plan_ik(false, false).is_ok());
    assert_eq!(
        refused(plan_ik(true, false)),
        "--min-neighbors/--octant are not supported by this command yet"
    );
    assert_eq!(refused(check_model_count(2, 3)), "2 models for 3 cutoffs");
    assert!(check_model_count(3, 3).is_ok());
    assert_eq!(choose_indicator_models(true, true), IndicatorModels::Given);
    assert_eq!(choose_indicator_models(false, true), IndicatorModels::Median);
    assert_eq!(choose_indicator_models(false, false), IndicatorModels::Each);
}

#[test]
fn points_take_their_normal_scores() {
    let data = data();
    let ns = NormalScore::fit(data.values(), &ar()).unwrap();
    let scored = score_points(&data, &ns, &ar()).unwrap();
    assert_eq!(scored.coords(), data.coords());
    assert_eq!(scored.value(2), ns.transform(data.value(2), &ar()));
}

#[test]
fn declustering_scales_with_the_data() {
    assert_eq!(
        float(declustered_mean(&doubles(&[0.5, 1.5]), &doubles(&[2.0, 4.0]), &ar())),
        3.5
    );
    let wide = point_set(&[[0.0, 0.0], [3.0, 4.0]], &[1.0, 2.0]);
    let (lo, hi) = scan_sizes(&wide, None, None, &ar());
    assert_eq!((float(lo), float(hi)), (0.1, 1.0));
    let (lo, hi) = scan_sizes(&wide, Some(double(7.0)), Some(double(9.0)), &ar());
    assert_eq!((float(lo), float(hi)), (7.0, 9.0));
    assert_eq!(float(choose_lag_width(&wide, None, 5, &ar())), 0.5);
    assert_eq!(float(choose_lag_width(&wide, Some(double(2.0)), 5, &ar())), 2.0);
}

#[test]
fn maps_leave_empty_cells_blank() {
    let cell = |gamma: f64| MapCell {
        hx: double(1.0),
        hy: double(-1.0),
        gamma: double(gamma),
        n_pairs: 3,
    };
    assert_eq!(
        write_vmap_csv(&vec![cell(0.5), cell(f64::NAN)], &show),
        "hx,hy,gamma,n_pairs\n1,-1,0.5,3\n1,-1,,3\n"
    );
}

#[test]
fn samples_leave_missing_values_blank() {
    let raster = RasterGrid {
        name: "dem".to_string(),
        srs_id: 0,
        nx: 2,
        ny: 1,
        bbox: [0.0, 0.0, 2.0, 1.0].map(double),
        values: doubles(&[7.5, f64::NAN]),
    };
    let points = vec![at([0.5, 0.5]), at([1.5, 0.5]), at([9.0, 9.0])];
    let (csv, hits) = sample_points(&raster, &points, "e", "n", "h", &show, &ar());
    assert_eq!(csv, "e,n,h\n0.5,0.5,7.5\n1.5,0.5,\n9,9,\n");
    assert_eq!(hits, 1);
}

#[test]
fn methods_rank_by_falling_score() {
    assert_eq!(rank_methods(&doubles(&[1.0, 5.0, -2.0, 5.0])), vec![1, 3, 0, 2]);
}

#[test]
fn trends_are_taken_row_by_row() {
    let rows: Vec<Vec<Double>> = (0..4).map(|i| vec![double(i as f64)]).collect();
    let trend = OlsTrend::fit(&rows, &doubles(&[1.0, 3.0, 5.0, 7.0]), &ar()).unwrap();
    let at_rows = floats(&trend_at_rows(&trend, &rows, &ar()));
    assert!(at_rows.iter().zip([1.0, 3.0, 5.0, 7.0]).all(|(a, b)| (a - b).abs() < 1e-9));
    assert_eq!(floats(&first_column(&rows)), vec![0.0, 1.0, 2.0, 3.0]);
}

#[test]
fn a_column_of_errors_wins_over_a_constant() {
    let column = doubles(&[0.1, 0.2]);
    assert_eq!(measurement_errors(Some(double(9.0)), Some(&column), 2), column);
    assert_eq!(measurement_errors(None, Some(&column), 2), column);
    assert_eq!(measurement_errors(Some(double(9.0)), None, 3), doubles(&[9.0, 9.0, 9.0]));
    assert!(measurement_errors(None, None, 3).is_empty());
}

#[test]
fn coincident_pairs_are_reported_by_the_cli() {
    let parse = |s: &str| s.parse::<f64>().ok().map(double);
    let csv = "x,y,z\n0,0,1.0\n0,0,5.0\n1,0,2.0\n2,0,3.0\n3,1,4.0\n";
    let (data, _) = read_points(csv.as_bytes(), "coincident.csv", "x", "y", "z", &parse).unwrap();
    assert_eq!(count_coincident(&data), 1);
    let note = coincident_note(&data).unwrap();
    assert!(note.contains("coincident"), "{note}");
    assert_eq!(note, "Note: 1 coincident pair(s) of points, in no lag");
}

#[test]
fn every_pair_at_a_place_counts() {
    let apart = point_set(&[[0.0, 0.0], [1.0, 0.0]], &[1.0, 2.0]);
    assert_eq!(count_coincident(&apart), 0);
    assert!(coincident_note(&apart).is_none());
    let piled = point_set(
        &[[0.0, 0.0], [1.0, 0.0], [0.0, 0.0], [-0.0, 0.0], [1.0, 0.0]],
        &[1.0, 2.0, 3.0, 4.0, 5.0],
    );
    assert_eq!(count_coincident(&piled), 4);
}
