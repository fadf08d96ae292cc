use geostat::data::PointSet;
use geostat::kriging::KrigingMethod;
use geostat::options::{
    build_grid, build_method, choose_cutoffs, is_gpkg, parse_bbox, parse_counts, parse_floats,
    parse_kinds, split_names, MethodChoice, Refusal,
};
use geostat::arith::{Arithmetic, Op};
use geostat::double::Double;

fn double(x: f64) -> Double {
    Double::from_bits(x.to_bits())
}

fn float(v: Double) -> f64 {
    f64::from_bits(v.bits)
}

type Calc = Arithmetic<fn(Op, Double, Double) -> Double>;

fn apply(op: Op, a: Double, b: Double) -> Double {
    let (x, y) = (float(a), float(b));
    double(match op {
        Op::Plus => x + y,
        Op::Minus => x - y,
        Op::Times => x * y,
        Op::Over => x / y,
        Op::Power => x.powf(y),
        Op::Root => x.sqrt(),
        Op::Exp => x.exp(),
        Op::Ln => x.ln(),
        Op::Sin => x.sin(),
        Op::Cos => x.cos(),
        Op::Sinh => x.sinh(),
        Op::Cosh => x.cosh(),
        Op::Asinh => x.asinh(),
    })
}

fn ar() -> Calc {
    Arithmetic::new(apply as fn(Op, Double, Double) -> Double)
}

fn doubles(xs: &[f64]) -> Vec<Double> {
    xs.iter().map(|x| double(*x)).collect()
}

fn floats(vs: &[Double]) -> Vec<f64> {
    vs.iter().map(|v| float(*v)).collect()
}

fn at(p: [f64; 2]) -> [Double; 2] {
    [double(p[0]), double(p[1])]
}

fn place(p: [Double; 2]) -> [f64; 2] {
    [float(p[0]), float(p[1])]
}

fn point_set(coords: &[[f64; 2]], values: &[f64]) -> PointSet<2> {
    PointSet::new(
        coords.iter().map(|p| at(*p)).collect(),
        values.iter().map(|v| double(*v)).collect(),
    )
    .unwrap()
}

fn parse(s: &str) -> Option<Double> {
    s.parse::<f64>().ok().map(double)
}

fn text(r: Refusal) -> String {
    match r {
        Refusal::Request(t, None) => t,
        Refusal::Request(t, Some(d)) => t.replace("{}", &float(d).to_string()),
        Refusal::Core(e) => format!("{e:?}"),
    }
}

#[test]
fn geopackages_are_known_by_their_extension() {
    assert!(is_gpkg(Some("gpkg")));
    assert!(is_gpkg(Some("GPKG")));
    assert!(!is_gpkg(Some("csv")));
    assert!(!is_gpkg(None));
}

#[test]
fn lists_are_split_at_commas() {
    assert_eq!(split_names(" a, b c ,"), vec!["a", "b c", ""]);
    assert_eq!(floats(&parse_floats("1, 2.5,-3", &parse).unwrap()), vec![1.0, 2.5, -3.0]);
    assert_eq!(text(parse_floats("1, x ,y", &parse).unwrap_err()), "invalid number 'x'");
}

#[test]
fn boxes_take_four_numbers() {
    let (min, max) = parse_bbox("0,1,2,3", &parse).unwrap();
    assert_eq!((place(min), place(max)), ([0.0, 1.0], [2.0, 3.0]));
    assert_eq!(
        text(parse_bbox("0,1,2", &parse).unwrap_err()),
        "bbox must be \"xmin,ymin,xmax,ymax\", got '0,1,2'"
    );
}

fn data() -> PointSet<2> {
    point_set(&[[0.0, 0.0], [4.0, 2.0], [1.0, 1.0]], &[3.0, 1.0, 2.0])
}

#[test]
fn grids_cover_the_data_or_a_given_box() {
    let g = build_grid(None, &data(), 4, 2, None, &parse, &ar()).unwrap();
    assert_eq!((float(g.dx), float(g.dy), g.nx, g.ny), (1.0, 1.0, 4, 2));
    let g = build_grid(Some("0,0,10,5"), &data(), 4, 2, Some(double(2.5)), &parse, &ar()).unwrap();
    assert_eq!((g.nx, g.ny), (4, 2));
    assert!(build_grid(Some("0,0,0,5"), &data(), 4, 2, None, &parse, &ar()).is_err());
    assert!(build_grid(Some("0,0"), &data(), 4, 2, None, &parse, &ar()).is_err());
}

#[test]
fn simple_kriging_takes_the_data_mean_unless_told() {
    let m = |mean: Option<Double>| build_method(MethodChoice::Simple, 1, mean, &data(), &ar());
    assert_eq!(m(None), KrigingMethod::Simple { mean: double(2.0) });
    assert_eq!(m(Some(double(9.0))), KrigingMethod::Simple { mean: double(9.0) });
    assert_eq!(
        build_method(MethodChoice::Universal, 2, None, &data(), &ar()),
        KrigingMethod::Universal { degree: 2 }
    );
    assert_eq!(
        build_method(MethodChoice::Ordinary, 2, None, &data(), &ar()),
        KrigingMethod::Ordinary
    );
}

#[test]
fn cutoffs_are_given_or_data_quantiles() {
    let values = doubles(&[4.0, 1.0, 3.0, 2.0]);
    let cut = |c: Option<&str>, q: &str| choose_cutoffs(c, q, &values, &parse, &ar());
    assert_eq!(floats(&cut(None, "0,0.5,1").unwrap()), vec![1.0, 3.0, 4.0]);
    assert_eq!(floats(&cut(Some("7,8"), "0.5").unwrap()), vec![7.0, 8.0]);
    assert_eq!(text(cut(None, "0.5,1.5").unwrap_err()), "quantile 1.5 outside [0, 1]");
    assert_eq!(text(cut(Some("a"), "0.5").unwrap_err()), "invalid number 'a'");
}

#[test]
fn counts_are_listed_or_usual() {
    let count = |s: &str| s.parse::<usize>().ok();
    assert_eq!(parse_counts(None, vec![1, 2], &count).unwrap(), vec![1, 2]);
    assert_eq!(parse_counts(Some("4, 8"), vec![1], &count).unwrap(), vec![4, 8]);
    assert_eq!(
        text(parse_counts(Some("4,x"), vec![1], &count).unwrap_err()),
        "invalid integer in --grid"
    );
}

#[test]
fn kinds_are_read_by_their_own_parser() {
    let list = |s: &str| -> Result<Vec<usize>, String> { Ok(vec![s.len()]) };
    assert_eq!(parse_kinds("best", &list), Ok(vec![4]));
}
