use geostat::rng::{realization_seed, splitmix64, Rng};
use geostat::arith::{Arithmetic, Op};
use geostat::double::Double;

fn double(x: f64) -> Double {
    Double::from_bits(x.to_bits())
}

fn float(v: Double) -> f64 {
    f64::from_bits(v.bits)
}

type Calc = Arithmetic<fn(Op, Double, Double) -> Double>;

fn apply(op: Op, a: Double, b: Double) -> Double {
    let (x, y) = (float(a), float(b));
    double(match op {
        Op::Plus => x + y,
        Op::Minus => x - y,
        Op::Times => x * y,
        Op::Over => x / y,
        Op::Power => x.powf(y),
        Op::Root => x.sqrt(),
        Op::Exp => x.exp(),
        Op::Ln => x.ln(),
        Op::Sin => x.sin(),
        Op::Cos => x.cos(),
        Op::Sinh => x.sinh(),
        Op::Cosh => x.cosh(),
        Op::Asinh => x.asinh(),
    })
}

fn ar() -> Calc {
    Arithmetic::new(apply as fn(Op, Double, Double) -> Double)
}

#[test]
fn reproducible_streams() {
    let mut a = Rng::new(42);
    let mut b = Rng::new(42);
    for _ in 0..100 {
        assert_eq!(a.next_u64(), b.next_u64());
    }
    let mut c = Rng::new(43);
    assert_ne!(Rng::new(42).next_u64(), c.next_u64());
}

#[test]
fn uniform_in_unit_interval() {
    let mut r = Rng::new(1);
    for _ in 0..10_000 {
        let u = float(r.uniform());
        assert!((0.0..1.0).contains(&u));
    }
}

#[test]
fn normal_moments() {
    let mut r = Rng::new(7);
    let n = 100_000;
    let mut sum = 0.0;
    let mut sum2 = 0.0;
    for _ in 0..n {
        let z = float(r.normal(&ar()));
        sum += z;
        sum2 += z * z;
    }
    let mean = sum / n as f64;
    let var = sum2 / n as f64 - mean * mean;
    assert!(mean.abs() < 0.02, "mean {mean}");
    assert!((var - 1.0).abs() < 0.05, "var {var}");
}

#[test]
fn shuffle_permutes() {
    let mut r = Rng::new(3);
    let mut xs: Vec<usize> = (0..50).collect();
    r.shuffle(&mut xs);
    let mut sorted = xs.clone();
    sorted.sort_unstable();
    assert_eq!(sorted, (0..50).collect::<Vec<_>>());
    assert_ne!(xs, (0..50).collect::<Vec<_>>());
}

#[test]
fn seeds_are_mixed_by_splitmix() {
    let mut state = 0;
    assert_eq!(splitmix64(&mut state), 0xE220_A839_7B1D_CDAF);
    assert_eq!(state, 0x9E37_79B9_7F4A_7C15);
    assert_eq!(splitmix64(&mut state), 0x6E78_9E6A_A1B9_65F4);
    assert_ne!(realization_seed(42, 0), realization_seed(42, 1));
}
