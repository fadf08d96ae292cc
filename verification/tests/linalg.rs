use geostat::error::GeostatError;
use geostat::linalg::{cholesky_solve_in_place, lu_factor, solve};
use geostat::matrix::Matrix;
use geostat::arith::{Arithmetic, Op};
use geostat::double::Double;

fn double(x: f64) -> Double {
    Double::from_bits(x.to_bits())
}

fn float(v: Double) -> f64 {
    f64::from_bits(v.bits)
}

type Calc = Arithmetic<fn(Op, Double, Double) -> Double>;

fn apply(op: Op, a: Double, b: Double) -> Double {
    let (x, y) = (float(a), float(b));
    double(match op {
        Op::Plus => x + y,
        Op::Minus => x - y,
        Op::Times => x * y,
        Op::Over => x / y,
        Op::Power => x.powf(y),
        Op::Root => x.sqrt(),
        Op::Exp => x.exp(),
        Op::Ln => x.ln(),
        Op::Sin => x.sin(),
        Op::Cos => x.cos(),
        Op::Sinh => x.sinh(),
        Op::Cosh => x.cosh(),
        Op::Asinh => x.asinh(),
    })
}

fn ar() -> Calc {
    Arithmetic::new(apply as fn(Op, Double, Double) -> Double)
}

fn doubles(xs: &[f64]) -> Vec<Double> {
    xs.iter().map(|x| double(*x)).collect()
}

fn floats(vs: &[Double]) -> Vec<f64> {
    vs.iter().map(|v| float(*v)).collect()
}

fn matrix(rows: &[Vec<f64>]) -> Matrix {
    Matrix::from_rows(&rows.iter().map(|r| doubles(r)).collect(), rows[0].len())
}

#[test]
fn solves_known_system() {
    let a = matrix(&[vec![2.0, 1.0, -1.0], vec![-3.0, -1.0, 2.0], vec![-2.0, 1.0, 2.0]]);
    let x = floats(&solve(a, doubles(&[8.0, -11.0, -3.0]), &ar()).unwrap());
    for (xi, ei) in x.iter().zip([2.0, 3.0, -1.0]) {
        assert!((xi - ei).abs() < 1e-12, "{xi} vs {ei}");
    }
}

#[test]
fn detects_singular() {
    let a = matrix(&[vec![1.0, 2.0], vec![2.0, 4.0]]);
    assert!(matches!(
        solve(a, doubles(&[1.0, 2.0]), &ar()),
        Err(GeostatError::SingularSystem(_))
    ));
}

#[test]
fn cholesky_matches_lu_on_spd_and_rejects_non_pd() {
    let a = [4.0, 1.0, 0.5, 1.0, 3.0, 0.2, 0.5, 0.2, 2.0];
    let b = [1.0, 2.0, 3.0];
    let mut aw = doubles(&a);
    let mut bw = doubles(&b);
    cholesky_solve_in_place(&mut aw, 3, &mut bw, &ar()).unwrap();
    let rows: Vec<Vec<f64>> = a.chunks(3).map(|r| r.to_vec()).collect();
    let x_lu = solve(matrix(&rows), doubles(&b), &ar()).unwrap();
    for (c, l) in floats(&bw).iter().zip(floats(&x_lu)) {
        assert!((c - l).abs() < 1e-12, "{c} vs {l}");
    }
    let mut sd = doubles(&[1.0, 2.0, 2.0, 4.0]);
    let mut b2 = doubles(&[1.0, 2.0]);
    assert!(matches!(
        cholesky_solve_in_place(&mut sd, 2, &mut b2, &ar()),
        Err(GeostatError::SingularSystem(_))
    ));
}

#[test]
fn solves_indefinite_kriging_like_system() {
    let a = [vec![1.0, 0.3, 1.0], vec![0.3, 1.0, 1.0], vec![1.0, 1.0, 0.0]];
    let b = [0.7, 0.5, 1.0];
    let x = floats(&solve(matrix(&a), doubles(&b), &ar()).unwrap());
    for i in 0..3 {
        let r: f64 = (0..3).map(|j| a[i][j] * x[j]).sum::<f64>() - b[i];
        assert!(r.abs() < 1e-12);
    }
    assert!((x[0] + x[1] - 1.0).abs() < 1e-12);
}

#[test]
fn factors_give_the_determinant() {
    let lu = lu_factor(matrix(&[vec![2.0, 1.0], vec![4.0, 5.0]]), &ar()).unwrap();
    assert!((float(lu.ln_det_abs(&ar())) - 6.0f64.ln()).abs() < 1e-12);
}
