use geostat::bucket_grid::BucketGrid;
use geostat::kdtree::KdTree;
use geostat::rng::Rng;
use geostat::search::{into_sorted, push_candidate};
use geostat::arith::{Arithmetic, Op};
use geostat::double::Double;

fn double(x: f64) -> Double {
    Double::from_bits(x.to_bits())
}

fn float(v: Double) -> f64 {
    f64::from_bits(v.bits)
}

type Calc = Arithmetic<fn(Op, Double, Double) -> Double>;

fn apply(op: Op, a: Double, b: Double) -> Double {
    let (x, y) = (float(a), float(b));
    double(match op {
        Op::Plus => x + y,
        Op::Minus => x - y,
        Op::Times => x * y,
        Op::Over => x / y,
        Op::Power => x.powf(y),
        Op::Root => x.sqrt(),
        Op::Exp => x.exp(),
        Op::Ln => x.ln(),
        Op::Sin => x.sin(),
        Op::Cos => x.cos(),
        Op::Sinh => x.sinh(),
        Op::Cosh => x.cosh(),
        Op::Asinh => x.asinh(),
    })
}

fn ar() -> Calc {
    Arithmetic::new(apply as fn(Op, Double, Double) -> Double)
}

fn at<const D: usize>(p: [f64; D]) -> [Double; D] {
    p.map(double)
}

fn uniform(rng: &mut Rng) -> f64 {
    float(rng.uniform())
}

fn random_points(n: usize, seed: u64) -> Vec<[f64; 2]> {
    let mut rng = Rng::new(seed);
    (0..n).map(|_| [uniform(&mut rng) * 100.0, uniform(&mut rng) * 100.0]).collect()
}

fn k_nearest_brute(pts: &[[f64; 2]], target: [f64; 2], k: usize, radius: Option<f64>) -> Vec<usize> {
    let mut cand: Vec<(f64, usize)> = pts
        .iter()
        .enumerate()
        .map(|(i, c)| {
            let mut d2 = 0.0;
            for d in 0..2 {
                let dd = c[d] - target[d];
                d2 += dd * dd;
            }
            (d2, i)
        })
        .filter(|c| match radius {
            Some(r) => c.0 <= r * r,
            None => true,
        })
        .collect();
    cand.sort_by(|a, b| a.0.total_cmp(&b.0));
    cand.truncate(k);
    cand.into_iter().map(|(_, i)| i).collect()
}

#[test]
fn kdtree_matches_brute_force() {
    let pts = random_points(500, 5);
    let tree = KdTree::build(pts.iter().map(|p| at(*p)).collect());
    let mut rng = Rng::new(6);
    for _ in 0..200 {
        let t = [uniform(&mut rng) * 120.0 - 10.0, uniform(&mut rng) * 120.0 - 10.0];
        for (k, r) in [(1, None), (8, None), (16, Some(15.0)), (1000, Some(5.0))] {
            let a = tree.nearest(at(t), k, r.map(double), &ar());
            let b = k_nearest_brute(&pts, t, k, r);
            assert_eq!(a, b, "k={k}, r={r:?}, target={t:?}");
        }
    }
}

#[test]
fn bucket_grid_matches_brute_force_incrementally() {
    let pts = random_points(400, 9);
    let mut grid = BucketGrid::new(at([0.0, 0.0]), at([100.0, 100.0]), 400, &ar());
    let mut inserted: Vec<[f64; 2]> = Vec::new();
    let mut rng = Rng::new(10);
    for (i, &p) in pts.iter().enumerate() {
        grid.insert(at(p), &ar());
        inserted.push(p);
        if i % 37 == 0 {
            let t = [uniform(&mut rng) * 100.0, uniform(&mut rng) * 100.0];
            for (k, r) in [(4, None), (16, Some(20.0))] {
                let a = grid.k_nearest(at(t), k, r.map(double), &ar());
                let b = k_nearest_brute(&inserted, t, k, r);
                assert_eq!(a, b, "after {} inserts, k={k}, r={r:?}", i + 1);
            }
        }
    }
    assert_eq!(grid.len(), 400);
}

#[test]
fn empty_and_degenerate_inputs() {
    let tree: KdTree<2> = KdTree::build(vec![]);
    assert!(tree.nearest(at([0.0, 0.0]), 5, None, &ar()).is_empty());
    let grid = BucketGrid::new(at([0.0, 0.0]), at([1.0, 1.0]), 0, &ar());
    assert!(grid.k_nearest(at([0.5, 0.5]), 5, None, &ar()).is_empty());
    let tree = KdTree::build(vec![at([1.0, 1.0])]);
    assert_eq!(tree.nearest(at([0.0, 0.0]), 5, None, &ar()), vec![0]);
    assert!(tree.nearest(at([0.0, 0.0]), 5, Some(double(0.5)), &ar()).is_empty());
}

#[test]
fn collinear_points_do_not_blow_up_bucket_count() {
    let mut grid = BucketGrid::new(at([0.0, 5.0]), at([500.0, 5.0]), 50, &ar());
    assert_eq!(grid.counts(), &vec![50, 1]);
    let mut inserted: Vec<[f64; 2]> = Vec::new();
    let mut rng = Rng::new(1);
    for i in 0..50u32 {
        let p = [i as f64 * 10.0, 5.0];
        grid.insert(at(p), &ar());
        inserted.push(p);
    }
    let t = [uniform(&mut rng) * 500.0, 5.0];
    let a = grid.k_nearest(at(t), 5, None, &ar());
    assert_eq!(a, k_nearest_brute(&inserted, t, 5, None));
}

#[test]
fn collinear_points_3d_do_not_blow_up_bucket_count() {
    let grid = BucketGrid::new(at([0.0, 0.0, 5.0]), at([500.0, 500.0, 5.0]), 100, &ar());
    let n = grid.counts();
    assert_eq!(n[2], 1);
    assert!(n[0] * n[1] * n[2] <= 4 * 100);
}

#[test]
fn all_coincident_points_single_bucket() {
    let grid = BucketGrid::new(at([3.0, 3.0]), at([3.0, 3.0]), 10, &ar());
    assert_eq!(grid.counts(), &vec![1, 1]);
}

#[test]
fn the_nearest_candidates_are_kept_in_order() {
    let mut heap = Vec::new();
    for (d2, i) in [(9.0, 0), (1.0, 1), (4.0, 2), (0.25, 3), (16.0, 4)] {
        push_candidate(&mut heap, 3, double(d2), i);
    }
    assert_eq!(into_sorted(heap), vec![3, 1, 2]);
}
