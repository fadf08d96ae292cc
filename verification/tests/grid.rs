use geostat::grid::{Grid2D, Grid3D};
use geostat::arith::{Arithmetic, Op};
use geostat::double::Double;

fn double(x: f64) -> Double {
    Double::from_bits(x.to_bits())
}

fn float(v: Double) -> f64 {
    f64::from_bits(v.bits)
}

type Calc = Arithmetic<fn(Op, Double, Double) -> Double>;

fn apply(op: Op, a: Double, b: Double) -> Double {
    let (x, y) = (float(a), float(b));
    double(match op {
        Op::Plus => x + y,
        Op::Minus => x - y,
        Op::Times => x * y,
        Op::Over => x / y,
        Op::Power => x.powf(y),
        Op::Root => x.sqrt(),
        Op::Exp => x.exp(),
        Op::Ln => x.ln(),
        Op::Sin => x.sin(),
        Op::Cos => x.cos(),
        Op::Sinh => x.sinh(),
        Op::Cosh => x.cosh(),
        Op::Asinh => x.asinh(),
    })
}

fn ar() -> Calc {
    Arithmetic::new(apply as fn(Op, Double, Double) -> Double)
}

fn at(p: [f64; 2]) -> [Double; 2] {
    [double(p[0]), double(p[1])]
}

fn place(p: [Double; 2]) -> [f64; 2] {
    [float(p[0]), float(p[1])]
}

#[test]
fn centers_order_and_count() {
    let g = Grid2D::from_bbox(at([0.0, 0.0]), at([4.0, 2.0]), 4, 2, &ar()).unwrap();
    assert_eq!(g.n_cells(), 8);
    let c = g.centers(&ar());
    assert_eq!(c.len(), 8);
    assert_eq!(place(c[0]), [0.5, 0.5]);
    assert_eq!(place(c[1]), [1.5, 0.5]);
    assert_eq!(place(c[4]), [0.5, 1.5]);
    assert_eq!(place(c[7]), [3.5, 1.5]);
}

#[test]
fn resolution_grid() {
    let g = Grid2D::with_resolution(at([0.0, 0.0]), at([10.0, 5.0]), double(2.5), &ar()).unwrap();
    assert_eq!((g.nx, g.ny), (4, 2));
    assert!(Grid2D::with_resolution(at([0.0, 0.0]), at([1.0, 1.0]), double(0.0), &ar()).is_err());
    assert!(Grid2D::from_bbox(at([0.0, 0.0]), at([0.0, 1.0]), 2, 2, &ar()).is_err());
}

#[test]
fn cells_in_space_go_along_x_then_y_then_z() {
    let lo = [double(0.0), double(0.0), double(0.0)];
    let hi = [double(2.0), double(2.0), double(2.0)];
    let g = Grid3D::from_bbox(lo, hi, 2, 2, 2, &ar()).unwrap();
    assert_eq!(g.n_cells(), 8);
    let c = g.centers(&ar());
    let xyz = |i: usize| (float(c[i][0]), float(c[i][1]), float(c[i][2]));
    assert_eq!(xyz(1), (1.5, 0.5, 0.5));
    assert_eq!(xyz(2), (0.5, 1.5, 0.5));
    assert_eq!(xyz(4), (0.5, 0.5, 1.5));
    assert!(Grid3D::from_bbox(lo, hi, 2, 0, 2, &ar()).is_err());
}
