use geostat::data::PointSet;
use geostat::error::GeostatError;
use geostat::arith::{Arithmetic, Op};
use geostat::double::Double;

fn double(x: f64) -> Double {
    Double::from_bits(x.to_bits())
}

fn float(v: Double) -> f64 {
    f64::from_bits(v.bits)
}

type Calc = Arithmetic<fn(Op, Double, Double) -> Double>;

fn apply(op: Op, a: Double, b: Double) -> Double {
    let (x, y) = (float(a), float(b));
    double(match op {
        Op::Plus => x + y,
        Op::Minus => x - y,
        Op::Times => x * y,
        Op::Over => x / y,
        Op::Power => x.powf(y),
        Op::Root => x.sqrt(),
        Op::Exp => x.exp(),
        Op::Ln => x.ln(),
        Op::Sin => x.sin(),
        Op::Cos => x.cos(),
        Op::Sinh => x.sinh(),
        Op::Cosh => x.cosh(),
        Op::Asinh => x.asinh(),
    })
}

fn ar() -> Calc {
    Arithmetic::new(apply as fn(Op, Double, Double) -> Double)
}

fn at(p: [f64; 2]) -> [Double; 2] {
    [double(p[0]), double(p[1])]
}

fn place(p: [Double; 2]) -> [f64; 2] {
    [float(p[0]), float(p[1])]
}

fn point_set(coords: &[[f64; 2]], values: &[f64]) -> PointSet<2> {
    PointSet::new(
        coords.iter().map(|p| at(*p)).collect(),
        values.iter().map(|v| double(*v)).collect(),
    )
    .unwrap()
}

#[test]
fn pointset_validates_input() {
    assert!(PointSet::<2>::new(vec![], vec![]).is_err());
    assert!(PointSet::new(vec![at([0.0, 0.0])], vec![double(1.0), double(2.0)]).is_err());
    assert!(PointSet::new(vec![at([f64::NAN, 0.0])], vec![double(1.0)]).is_err());
    assert!(PointSet::new(vec![at([0.0, 0.0])], vec![double(f64::INFINITY)]).is_err());
    let ps = point_set(&[[0.0, 0.0], [1.0, 1.0]], &[1.0, 2.0]);
    assert_eq!(ps.len(), 2);
    assert!((float(ps.mean(&ar())) - 1.5).abs() < 1e-12);
}

#[test]
fn bbox_and_excluding() {
    let ps = point_set(&[[0.0, 5.0], [2.0, 1.0], [1.0, 3.0]], &[1.0, 2.0, 3.0]);
    let (min, max) = ps.bbox();
    assert_eq!(place(min), [0.0, 1.0]);
    assert_eq!(place(max), [2.0, 5.0]);
    let sub = ps.excluding(1);
    assert_eq!(sub.len(), 2);
    assert_eq!(float(sub.value(1)), 3.0);
}

#[test]
fn refused_points_say_why() {
    match PointSet::new(vec![at([0.0, 0.0])], vec![double(1.0), double(2.0)]) {
        Err(GeostatError::DimensionMismatch(m)) => {
            assert_eq!(m.text, "1 coordinates vs 2 values")
        }
        other => panic!("{other:?}"),
    }
    match PointSet::new(vec![at([f64::NAN, 0.0])], vec![double(1.0)]) {
        Err(GeostatError::InvalidParameter(m)) => assert_eq!(m.text, "non-finite coordinate"),
        other => panic!("{other:?}"),
    }
    match PointSet::new(vec![at([1.0, 0.0])], vec![double(f64::NAN)]) {
        Err(GeostatError::InvalidParameter(m)) => assert_eq!(m.text, "non-finite value"),
        other => panic!("{other:?}"),
    }
    match PointSet::<2>::new(vec![], vec![]) {
        Err(GeostatError::InsufficientData(m)) => assert_eq!(m.text, "no points provided"),
        other => panic!("{other:?}"),
    }
}

#[test]
fn duplicates_are_found_with_their_positions() {
    let ps = point_set(&[[0.0, 0.0], [1.0, 2.0], [3.0, 1.0], [1.0, 2.0]], &[1.0, 2.0, 3.0, 4.0]);
    assert_eq!(ps.duplicate_pair(), Some((1, 3)));
    assert_eq!(point_set(&[[0.0, 0.0], [1.0, 2.0]], &[1.0, 2.0]).duplicate_pair(), None);
}

#[test]
fn columns_make_a_point_set() {
    let x = vec![double(0.0), double(1.0)];
    let y = vec![double(2.0), double(3.0)];
    let z = vec![double(4.0), double(5.0)];
    let ps = PointSet::from_xyz(&x, &y, &z).unwrap();
    assert_eq!(place(ps.coord(1)), [1.0, 3.0]);
    let ps = PointSet::from_xyzv(&x, &y, &z, &vec![double(6.0), double(7.0)]).unwrap();
    assert_eq!(float(ps.coord(0)[2]), 4.0);
    assert_eq!(float(ps.value(0)), 6.0);
    assert!(PointSet::from_xyz(&x, &y, &vec![double(1.0)]).is_err());
}

#[test]
fn sums_start_from_minus_zero() {
    let ps = point_set(&[[0.0, 0.0], [1.0, 1.0]], &[-0.0, -0.0]);
    assert_eq!(ps.mean(&ar()).bits, (-0.0_f64).to_bits());
    let mixed = point_set(&[[0.0, 0.0], [1.0, 1.0]], &[-0.0, 0.0]);
    assert_eq!(mixed.mean(&ar()).bits, 0.0_f64.to_bits());
}
