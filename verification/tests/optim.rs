use geostat::optim::{bfgs, bfgs_multistart, nelder_mead, nelder_mead_multistart};
use geostat::arith::{Arithmetic, Op};
use geostat::double::Double;

fn double(x: f64) -> Double {
    Double::from_bits(x.to_bits())
}

fn float(v: Double) -> f64 {
    f64::from_bits(v.bits)
}

type Calc = Arithmetic<fn(Op, Double, Double) -> Double>;

fn apply(op: Op, a: Double, b: Double) -> Double {
    let (x, y) = (float(a), float(b));
    double(match op {
        Op::Plus => x + y,
        Op::Minus => x - y,
        Op::Times => x * y,
        Op::Over => x / y,
        Op::Power => x.powf(y),
        Op::Root => x.sqrt(),
        Op::Exp => x.exp(),
        Op::Ln => x.ln(),
        Op::Sin => x.sin(),
        Op::Cos => x.cos(),
        Op::Sinh => x.sinh(),
        Op::Cosh => x.cosh(),
        Op::Asinh => x.asinh(),
    })
}

fn ar() -> Calc {
    Arithmetic::new(apply as fn(Op, Double, Double) -> Double)
}

fn doubles(xs: &[f64]) -> Vec<Double> {
    xs.iter().map(|x| double(*x)).collect()
}

fn floats(vs: &[Double]) -> Vec<f64> {
    vs.iter().map(|v| float(*v)).collect()
}

fn objective(f: fn(&[f64]) -> f64) -> impl Fn(&Vec<Double>) -> Double {
    move |x: &Vec<Double>| double(f(&floats(x)))
}

fn gradient(g: fn(&[f64]) -> Vec<f64>) -> impl Fn(&Vec<Double>) -> Vec<Double> {
    move |x: &Vec<Double>| doubles(&g(&floats(x)))
}

fn rosenbrock(x: &[f64]) -> f64 {
    let a = 1.0 - x[0];
    let b = x[1] - x[0] * x[0];
    a * a + 100.0 * b * b
}

fn rosenbrock_gradient(x: &[f64]) -> Vec<f64> {
    let a = 1.0 - x[0];
    let b = x[1] - x[0] * x[0];
    vec![-2.0 * a - 400.0 * x[0] * b, 200.0 * b]
}

fn wells(x: &[f64]) -> f64 {
    let a = x[0] + 3.0;
    let b = x[0] - 3.0;
    -2.0 * (-0.5 * a * a).exp() - 3.0 * (-0.5 * b * b).exp()
}

fn wells_gradient(x: &[f64]) -> Vec<f64> {
    let a = x[0] + 3.0;
    let b = x[0] - 3.0;
    vec![2.0 * a * (-0.5 * a * a).exp() + 3.0 * b * (-0.5 * b * b).exp()]
}

#[test]
fn minimizes_rosenbrock() {
    let (x, fx) =
        nelder_mead(&objective(rosenbrock), &doubles(&[-1.2, 1.0]), double(0.1), 5000, &ar());
    let x = floats(&x);
    assert!((x[0] - 1.0).abs() < 1e-3, "x0 = {}", x[0]);
    assert!((x[1] - 1.0).abs() < 1e-3, "x1 = {}", x[1]);
    assert!(float(fx) < 1e-6);
}

#[test]
fn multistart_escapes_a_local_optimum() {
    let f = objective(wells);
    let (_, single) = nelder_mead(&f, &doubles(&[-3.0]), double(0.1), 500, &ar());
    assert!(float(single) > -2.5, "expected the shallow well, got {}", float(single));
    let starts = vec![doubles(&[-3.0]), doubles(&[3.0]), doubles(&[0.0])];
    let (x, fx) = nelder_mead_multistart(&f, &starts, double(0.1), 500, &ar());
    assert!((float(x[0]) - 3.0).abs() < 1e-2, "x0 = {}", float(x[0]));
    assert!(float(fx) < -2.9, "fx = {}", float(fx));
}

#[test]
fn bfgs_minimizes_rosenbrock_in_far_fewer_evaluations_than_nelder_mead() {
    let f = objective(rosenbrock);
    let grad = gradient(rosenbrock_gradient);
    let start = doubles(&[-1.2, 1.0]);
    let (x, fx) = bfgs(&f, &grad, &start, 200, &ar());
    let x = floats(&x);
    assert!((x[0] - 1.0).abs() < 1e-4, "x0 = {}", x[0]);
    assert!((x[1] - 1.0).abs() < 1e-4, "x1 = {}", x[1]);
    assert!(float(fx) < 1e-8, "fx = {}", float(fx));
    let nm = floats(&nelder_mead(&f, &start, double(0.1), 30, &ar()).0);
    let qn = floats(&bfgs(&f, &grad, &start, 30, &ar()).0);
    let error = |x: &[f64]| ((x[0] - 1.0).powi(2) + (x[1] - 1.0).powi(2)).sqrt();
    assert!(error(&qn) < error(&nm), "bfgs {} nelder-mead {}", error(&qn), error(&nm));
}

#[test]
fn bfgs_multistart_escapes_a_local_optimum() {
    let f = objective(wells);
    let grad = gradient(wells_gradient);
    let (_, single) = bfgs(&f, &grad, &doubles(&[-3.0]), 100, &ar());
    assert!(float(single) > -2.5, "expected the shallow well, got {}", float(single));
    let starts = vec![doubles(&[-3.0]), doubles(&[3.0]), doubles(&[0.0])];
    let (x, fx) = bfgs_multistart(&f, &grad, &starts, 100, &ar());
    assert!((float(x[0]) - 3.0).abs() < 1e-3, "x0 = {}", float(x[0]));
    assert!(float(fx) < -2.9, "fx = {}", float(fx));
}

#[test]
fn bfgs_matches_finite_difference_gradient_on_a_quadratic() {
    let center = [2.0, -1.0, 0.5];
    let f = |x: &Vec<Double>| {
        double((0..3).map(|i| (float(x[i]) - center[i]).powi(2)).sum::<f64>())
    };
    let grad = |x: &Vec<Double>| -> Vec<Double> {
        (0..3).map(|i| double(2.0 * (float(x[i]) - center[i]))).collect()
    };
    let (x, fx) = bfgs(&f, &grad, &doubles(&[0.0, 0.0, 0.0]), 100, &ar());
    for i in 0..3 {
        assert!((float(x[i]) - center[i]).abs() < 1e-6, "x[{i}] = {}", float(x[i]));
    }
    assert!(float(fx) < 1e-10);
}

#[test]
fn the_minimum_is_no_worse_than_the_start() {
    let f = objective(rosenbrock);
    let start = doubles(&[-1.2, 1.0]);
    for steps in [0, 1, 5, 40] {
        let (_, fx) = nelder_mead(&f, &start, double(0.1), steps, &ar());
        assert!(float(fx) <= rosenbrock(&[-1.2, 1.0]));
    }
}

#[test]
fn the_minimum_is_no_worse_than_any_vertex() {
    let f = objective(rosenbrock);
    let start = doubles(&[-1.2, 1.0]);
    for steps in [0, 1, 5, 40] {
        let (_, fx) = nelder_mead(&f, &start, double(0.1), steps, &ar());
        for vertex in [[-1.2, 1.0], [-1.2 + 0.1, 1.0], [-1.2, 1.0 + 0.1]] {
            assert!(float(fx) <= rosenbrock(&vertex));
        }
    }
}
