//! Sequential Gaussian simulation: multigrid levels, the random path, the
//! neighborhoods of the nodes and the walk along the path.
//!
//! Per realization: a random path over the nodes (a function of the seed); at
//! each node an estimate from the nearest conditioning points (data and
//! previously simulated nodes); a draw around it; and the node joins the
//! conditioning set. The caller supplies distances, estimates and draws.

use vstd::arithmetic::power2::pow2;
use vstd::prelude::*;

use crate::grid::{Grid2D, Grid3D};
use crate::order::{sort_positions, stable_order};
use crate::rng::{shuffled, Rng, Words};

verus! {

/// Every index is a multiple of 2 to the power `g`.
pub open spec fn aligned(idx: Seq<usize>, g: nat) -> bool {
    forall|i: int| 0 <= i < idx.len() ==> (#[trigger] idx[i]) as nat % pow2(g) == 0
}

/// `g` is the multigrid level of the cell: the largest level up to
/// `max_level` on whose sub-grid the cell lies.
pub open spec fn is_level(idx: Seq<usize>, max_level: nat, g: nat) -> bool {
    &&& g <= max_level
    &&& aligned(idx, g)
    &&& forall|h: nat| g < h <= max_level ==> !#[trigger] aligned(idx, h)
}

proof fn lemma_aligned_zero(idx: Seq<usize>)
    ensures
        aligned(idx, 0),
{
    vstd::arithmetic::power2::lemma2_to64();
}

/// A cell has one multigrid level.
pub proof fn level_is_unique(idx: Seq<usize>, max_level: nat, g: nat, h: nat)
    requires
        is_level(idx, max_level, g),
        is_level(idx, max_level, h),
    ensures
        g == h,
{
}

/// Multigrid level of a grid cell: the largest `g <= max_level` such that
/// every index is a multiple of `2^g` (coarser sub-grids get higher levels).
pub fn grid_level(idx: &[usize], max_level: u8) -> (g: u8)
    requires
        max_level < usize::BITS,
    ensures
        is_level(idx@, max_level as nat, g as nat),
{
    let mut g: u8 = max_level;
    loop
        invariant
            g <= max_level,
            max_level < usize::BITS,
            forall|h: nat| g < h <= max_level ==> !#[trigger] aligned(idx@, h),
        decreases g,
    {
        let stride: usize = power_of_two(g);
        let mut all: bool = true;
        for i in 0..idx.len()
            invariant
                stride == pow2(g as nat),
                stride > 0,
                all ==> forall|j: int|
                    0 <= j < i ==> (#[trigger] idx@[j]) as nat % pow2(g as nat) == 0,
                !all ==> !aligned(idx@, g as nat),
        {
            if idx[i] % stride != 0 {
                all = false;
            }
        }
        if all {
            return g;
        }
        if g == 0 {
            proof {
                lemma_aligned_zero(idx@);
            }
            return 0;
        }
        g = g - 1;
    }
}

fn power_of_two(g: u8) -> (p: usize)
    requires
        g < usize::BITS,
    ensures
        p == pow2(g as nat),
        p > 0,
{
    let mut p: usize = 1;
    proof {
        vstd::arithmetic::power2::lemma2_to64();
    }
    for e in 0..g
        invariant
            g < usize::BITS,
            p == pow2(e as nat),
            p > 0,
    {
        proof {
            vstd::arithmetic::power2::lemma_pow2_unfold((e + 1) as nat);
            vstd::arithmetic::power2::lemma2_to64();
            vstd::arithmetic::power2::lemma2_to64_rest();
            if e + 1 < g {
                vstd::arithmetic::power2::lemma_pow2_strictly_increases(
                    (e + 1) as nat,
                    g as nat,
                );
            }
            if usize::BITS == 32 {
                if g < 31 {
                    vstd::arithmetic::power2::lemma_pow2_strictly_increases(g as nat, 31);
                }
            } else {
                if g < 63 {
                    vstd::arithmetic::power2::lemma_pow2_strictly_increases(g as nat, 63);
                }
            }
        }
        p = p * 2;
    }
    p
}

/// The levels of the cells of an `nx`-column grid, in storage order.
pub open spec fn are_levels_2d(levels: Seq<u8>, nx: int, max_level: nat) -> bool {
    forall|i: int|
        0 <= i < levels.len() ==> is_level(
            seq![(i % nx) as usize, (i / nx) as usize],
            max_level,
            (#[trigger] levels[i]) as nat,
        )
}

/// The levels of the cells of a grid of `nx` columns and `ny` rows per layer,
/// in storage order.
pub open spec fn are_levels_3d(levels: Seq<u8>, nx: int, ny: int, max_level: nat) -> bool {
    forall|i: int|
        0 <= i < levels.len() ==> is_level(
            seq![(i % nx) as usize, ((i / nx) % ny) as usize, (i / (nx * ny)) as usize],
            max_level,
            (#[trigger] levels[i]) as nat,
        )
}

/// Multigrid levels of the cells of an `nx`-column grid, in storage order.
pub fn levels_2d(nx: usize, n_cells: usize, max_level: u8) -> (levels: Vec<u8>)
    requires
        nx > 0,
        max_level < usize::BITS,
    ensures
        levels.len() == n_cells,
        are_levels_2d(levels@, nx as int, max_level as nat),
{
    let mut levels: Vec<u8> = Vec::new();
    for i in 0..n_cells
        invariant
            nx > 0,
            max_level < usize::BITS,
            levels.len() == i,
            forall|j: int|
                0 <= j < i ==> is_level(
                    seq![(j % nx as int) as usize, (j / nx as int) as usize],
                    max_level as nat,
                    (#[trigger] levels@[j]) as nat,
                ),
    {
        let idx: [usize; 2] = [i % nx, i / nx];
        assert(idx@ =~= seq![(i as int % nx as int) as usize, (i as int / nx as int) as usize]);
        levels.push(grid_level(&idx, max_level));
    }
    levels
}

/// Multigrid levels of the cells of a 3-D grid, in storage order.
pub fn levels_3d(nx: usize, ny: usize, n_cells: usize, max_level: u8) -> (levels: Vec<u8>)
    requires
        nx > 0,
        ny > 0,
        nx * ny <= usize::MAX,
        max_level < usize::BITS,
    ensures
        levels.len() == n_cells,
        are_levels_3d(levels@, nx as int, ny as int, max_level as nat),
{
    let mut levels: Vec<u8> = Vec::new();
    assert(nx * ny > 0) by (nonlinear_arith)
        requires
            nx > 0,
            ny > 0,
    ;
    let plane: usize = nx * ny;
    for i in 0..n_cells
        invariant
            nx > 0,
            ny > 0,
            plane == nx * ny,
            plane > 0,
            max_level < usize::BITS,
            levels.len() == i,
            forall|j: int|
                0 <= j < i ==> is_level(
                    seq![
                        (j % nx as int) as usize,
                        ((j / nx as int) % ny as int) as usize,
                        (j / (nx * ny)) as usize,
                    ],
                    max_level as nat,
                    (#[trigger] levels@[j]) as nat,
                ),
    {
        let idx: [usize; 3] = [i % nx, (i / nx) % ny, i / plane];
        assert(idx@ =~= seq![
            (i as int % nx as int) as usize,
            ((i as int / nx as int) % ny as int) as usize,
            (i as int / (nx * ny)) as usize,
        ]);
        levels.push(grid_level(&idx, max_level));
    }
    levels
}

/// Levels of a 2-D grid for `multigrid` refinements; none without refinement.
pub open spec fn levels_for_2d(levels: Option<Vec<u8>>, grid: Grid2D, multigrid: u8) -> bool {
    match levels {
        None => multigrid == 0,
        Some(v) => multigrid > 0 && v@.len() == grid.cells() && are_levels_2d(
            v@,
            grid.nx as int,
            multigrid as nat,
        ),
    }
}

/// Levels of a 3-D grid for `multigrid` refinements; none without refinement.
pub open spec fn levels_for_3d(levels: Option<Vec<u8>>, grid: Grid3D, multigrid: u8) -> bool {
    match levels {
        None => multigrid == 0,
        Some(v) => multigrid > 0 && v@.len() == grid.cells() && are_levels_3d(
            v@,
            grid.nx as int,
            grid.ny as int,
            multigrid as nat,
        ),
    }
}

/// Multigrid levels of a 2-D grid.
pub fn multigrid_2d(grid: &Grid2D, multigrid: u8) -> (levels: Option<Vec<u8>>)
    requires
        multigrid < usize::BITS,
        grid.cells() <= usize::MAX,
    ensures
        levels_for_2d(levels, *grid, multigrid),
{
    if multigrid == 0 {
        return None;
    }
    if grid.nx == 0 {
        assert(grid.cells() == 0) by (nonlinear_arith)
            requires
                grid.nx == 0,
                grid.cells() == grid.nx as nat * grid.ny as nat,
        ;
        return Some(Vec::new());
    }
    Some(levels_2d(grid.nx, grid.n_cells(), multigrid))
}

/// Multigrid levels of a 3-D grid.
pub fn multigrid_3d(grid: &Grid3D, multigrid: u8) -> (levels: Option<Vec<u8>>)
    requires
        multigrid < usize::BITS,
        grid.cells() <= usize::MAX,
        grid.nx as nat * grid.ny as nat <= usize::MAX,
    ensures
        levels_for_3d(levels, *grid, multigrid),
{
    if multigrid == 0 {
        return None;
    }
    if grid.nx == 0 || grid.ny == 0 {
        assert(grid.cells() == 0) by (nonlinear_arith)
            requires
                grid.nx == 0 || grid.ny == 0,
                grid.cells() == grid.nx as nat * grid.ny as nat * grid.nz as nat,
        ;
        return Some(Vec::new());
    }
    Some(levels_3d(grid.nx, grid.ny, grid.n_cells(), multigrid))
}

/// The nodes in storage order.
pub open spec fn storage_order(n: nat) -> Seq<usize> {
    Seq::new(n, |i: int| i as usize)
}

/// Sort keys that put higher levels first.
pub open spec fn coarse_first(path: Seq<usize>, levels: Seq<u8>) -> Seq<i64> {
    path.map(|_j: int, i: usize| -(levels[i as int] as int) as i64)
}

/// `base` read in the order of positions `order`.
pub open spec fn read_in(base: Seq<usize>, order: Seq<usize>) -> Seq<usize> {
    Seq::new(order.len(), |j: int| base[order[j] as int])
}

/// `path` is the simulation path of a generator in state `w`: the shuffled
/// nodes, and with levels the coarse levels first, keeping the shuffle within
/// each level.
pub open spec fn is_path(path: Seq<usize>, w: Words, n: nat, levels: Option<Seq<u8>>) -> bool {
    match levels {
        None => path == shuffled_nodes(w, n),
        Some(ls) => ordered_by_level(path, shuffled_nodes(w, n), ls),
    }
}

/// The nodes, shuffled by a generator in state `w`.
pub open spec fn shuffled_nodes(w: Words, n: nat) -> Seq<usize> {
    shuffled(w, storage_order(n), n - 1)
}

/// `path` is `base` rearranged with coarse levels first.
pub open spec fn ordered_by_level(path: Seq<usize>, base: Seq<usize>, levels: Seq<u8>) -> bool {
    exists|order: Seq<usize>| #[trigger] orders_path(path, base, levels, order)
}

/// `path` is `base` rearranged by `order`, which puts coarse levels first and
/// keeps the order of `base` within a level.
pub open spec fn orders_path(
    path: Seq<usize>,
    base: Seq<usize>,
    levels: Seq<u8>,
    order: Seq<usize>,
) -> bool {
    stable_order(coarse_first(base, levels), order) && path == read_in(base, order)
}

/// The levels, where there are any.
pub open spec fn level_list(levels: Option<&Vec<u8>>) -> Option<Seq<u8>> {
    match levels {
        Some(ls) => Some(ls@),
        None => None,
    }
}

/// Random path over `n` nodes; with multigrid levels, coarse levels first.
pub fn simulation_path(rng: &mut Rng, n: usize, levels: Option<&Vec<u8>>) -> (path: Vec<usize>)
    requires
        levels matches Some(ls) ==> ls.len() == n,
    ensures
        is_path(path@, old(rng).words(), n as nat, level_list(levels)),
        path@.to_multiset() == storage_order(n as nat).to_multiset(),
        final(rng).words() == old(rng).words().after((if n == 0 { 0 } else { n - 1 }) as nat),
        final(rng).spare() == old(rng).spare(),
{
    let mut base: Vec<usize> = Vec::new();
    for i in 0..n
        invariant
            base@ =~= storage_order(i as nat),
    {
        base.push(i);
    }
    assert(base@ == storage_order(n as nat));
    rng.shuffle(&mut base);
    proof {
        lemma_same_multiset_members(base@, n as nat);
    }
    match levels {
        None => {
            base
        },
        Some(ls) => {
            let mut keys: Vec<i64> = Vec::new();
            for j in 0..base.len()
                invariant
                    forall|i: int| 0 <= i < base.len() ==> (#[trigger] base@[i]) < ls.len(),
                    keys@ =~= coarse_first(base@.take(j as int), ls@),
            {
                keys.push(-(ls[base[j]] as i64));
            }
            assert(base@.take(base.len() as int) =~= base@);
            let order: Vec<usize> = sort_positions(&keys);
            let mut path: Vec<usize> = Vec::new();
            for j in 0..order.len()
                invariant
                    order.len() == base.len(),
                    forall|i: int| 0 <= i < order.len() ==> (#[trigger] order@[i]) < base.len(),
                    path@ =~= read_in(base@, order@.take(j as int)),
            {
                path.push(base[order[j]]);
            }
            assert(order@.take(order.len() as int) =~= order@);
            proof {
                assert(stable_order(coarse_first(base@, ls@), order@));
                lemma_reordered_multiset(base@, order@);
                assert(orders_path(path@, base@, ls@, order@));
                assert(ordered_by_level(path@, base@, ls@));
            }
            path
        },
    }
}

/// A list with the members of `0..n` holds only those.
pub proof fn lemma_same_multiset_members(s: Seq<usize>, n: nat)
    requires
        s.to_multiset() == storage_order(n).to_multiset(),
        n <= usize::MAX,
    ensures
        s.len() == n,
        forall|i: int| 0 <= i < s.len() ==> (#[trigger] s[i]) < n,
        forall|v: usize| v < n ==> #[trigger] s.contains(v),
{
    broadcast use vstd::seq_lib::group_to_multiset_ensures;

    let t = storage_order(n);
    assert(s.len() == s.to_multiset().len());
    assert(t.len() == t.to_multiset().len());
    assert forall|i: int| 0 <= i < s.len() implies (#[trigger] s[i]) < n by {
        assert(s.contains(s[i]));
        assert(s.to_multiset().count(s[i]) > 0);
        assert(t.to_multiset().count(s[i]) > 0);
        assert(t.contains(s[i]));
        let j = choose|j: int| 0 <= j < t.len() && t[j] == s[i];
    }
    assert forall|v: usize| v < n implies #[trigger] s.contains(v) by {
        assert(t[v as int] == v);
        assert(t.contains(v));
        assert(t.to_multiset().count(v) > 0);
        assert(s.to_multiset().count(v) > 0);
    }
}

/// Reading a list in the order of a permutation keeps its members.
proof fn lemma_reordered_multiset(base: Seq<usize>, order: Seq<usize>)
    requires
        base.len() <= usize::MAX,
        crate::order::covers(order, 0, base.len() as int),
        order.no_duplicates() || exists|keys: Seq<i64>| #[trigger] stable_order(keys, order),
    ensures
        read_in(base, order).to_multiset() == base.to_multiset(),
{
    assert(order.no_duplicates()) by {
        if !order.no_duplicates() {
            let keys = choose|keys: Seq<i64>| #[trigger] stable_order(keys, order);
            assert forall|a: int, b: int| 0 <= a < b < order.len() implies order[a] != order[b] by {
                assert(crate::order::precedes(keys, order[a], order[b]));
            }
        }
    }
    lemma_reordered_multiset_rec(base, order, base.len() as int);
}

/// By induction on the length: the element read last is taken out of both.
proof fn lemma_reordered_multiset_rec(base: Seq<usize>, order: Seq<usize>, n: int)
    requires
        n == base.len(),
        n <= usize::MAX,
        crate::order::covers(order, 0, n),
        order.no_duplicates(),
    ensures
        read_in(base, order).to_multiset() == base.to_multiset(),
    decreases n,
{
    broadcast use vstd::seq_lib::group_to_multiset_ensures;

    let out = read_in(base, order);
    if n == 0 {
        assert(out =~= base);
    } else {
        // Remove position n - 1 from the order and the last element of base.
        let top = (n - 1) as usize;
        assert(order.contains(top));
        let q = choose|q: int| 0 <= q < order.len() && order[q] == top;
        let order2 = order.remove(q);
        let base2 = base.drop_last();
        assert forall|a: int| 0 <= a < order2.len() implies 0 <= #[trigger] order2[a] < n - 1 by {
            let src = if a < q { a } else { a + 1 };
            assert(order2[a] == order[src]);
            assert(order[src] != order[q]);
        }
        assert forall|p: usize| 0 <= p < n - 1 implies #[trigger] order2.contains(p) by {
            assert(order.contains(p));
            let a = choose|a: int| 0 <= a < order.len() && order[a] == p;
            let dst = if a < q { a } else { a - 1 };
            assert(order2[dst] == p);
        }
        assert(order2.no_duplicates()) by {
            assert forall|a: int, b: int| 0 <= a < b < order2.len() implies order2[a]
                != order2[b] by {
                let sa = if a < q { a } else { a + 1 };
                let sb = if b < q { b } else { b + 1 };
                assert(order2[a] == order[sa]);
                assert(order2[b] == order[sb]);
            }
        }
        lemma_reordered_multiset_rec(base2, order2, n - 1);
        let out2 = read_in(base2, order2);
        assert(out.remove(q) =~= out2) by {
            assert forall|a: int| 0 <= a < out2.len() implies out.remove(q)[a] == out2[a] by {
                let src = if a < q { a } else { a + 1 };
                assert(order2[a] == order[src]);
            }
        }
        assert(out[q] == base.last());
        vstd::seq_lib::to_multiset_remove(out, q);
        assert(base =~= base2.push(base.last()));
        vstd::seq_lib::to_multiset_build(base2, base.last());
        assert(out.to_multiset() =~= out2.to_multiset().insert(base.last())) by {
            assert(out.contains(out[q]));
            assert(out.to_multiset().count(out[q]) > 0);
        }
    }
}

/// Along a simulation path the levels never rise: coarse sub-grids come
/// before their refinements.
pub proof fn path_goes_from_coarse_to_fine(
    path: Seq<usize>,
    w: Words,
    n: nat,
    levels: Seq<u8>,
    a: int,
    b: int,
)
    requires
        is_path(path, w, n, Some(levels)),
        levels.len() == n,
        n <= usize::MAX,
        0 <= a < b < n,
    ensures
        path.len() == n,
        levels[path[a] as int] >= levels[path[b] as int],
{
    let base = shuffled(w, storage_order(n), n - 1);
    crate::rng::shuffle_is_a_permutation(w, storage_order(n));
    lemma_same_multiset_members(base, n);
    let order = choose|order: Seq<usize>| #[trigger] orders_path(path, base, levels, order);
    assert(crate::order::precedes(coarse_first(base, levels), order[a], order[b]));
}

/// A generator draws one path.
pub proof fn path_is_unique(
    a: Seq<usize>,
    b: Seq<usize>,
    w: Words,
    n: nat,
    levels: Option<Seq<u8>>,
)
    requires
        is_path(a, w, n, levels),
        is_path(b, w, n, levels),
    ensures
        a == b,
{
    if let Some(ls) = levels {
        let base = shuffled_nodes(w, n);
        let oa = choose|order: Seq<usize>| #[trigger] orders_path(a, base, ls, order);
        let ob = choose|order: Seq<usize>| #[trigger] orders_path(b, base, ls, order);
        crate::order::stable_order_is_unique(coarse_first(base, ls), oa, ob);
    }
}

/// A simulation path visits every node exactly once.
pub proof fn path_is_a_permutation(path: Seq<usize>, w: Words, n: nat, levels: Option<Seq<u8>>)
    requires
        is_path(path, w, n, levels),
        levels matches Some(ls) ==> ls.len() == n,
        n <= usize::MAX,
    ensures
        path.to_multiset() == storage_order(n).to_multiset(),
{
    let base = shuffled(w, storage_order(n), n - 1);
    crate::rng::shuffle_is_a_permutation(w, storage_order(n));
    lemma_same_multiset_members(base, n);
    if let Some(ls) = levels {
        let order = choose|order: Seq<usize>| #[trigger] orders_path(path, base, ls, order);
        lemma_reordered_multiset(base, order);
    }
}

/// The cells of a 2-D grid have one list of levels.
pub proof fn levels_are_unique_2d(
    a: Option<Vec<u8>>,
    b: Option<Vec<u8>>,
    grid: Grid2D,
    multigrid: u8,
)
    requires
        levels_for_2d(a, grid, multigrid),
        levels_for_2d(b, grid, multigrid),
    ensures
        a is Some <==> b is Some,
        a is Some ==> (a->0)@ == (b->0)@,
{
    if a is Some {
        let (x, y) = ((a->0)@, (b->0)@);
        let nx = grid.nx as int;
        assert forall|i: int| 0 <= i < x.len() implies x[i] == y[i] by {
            let idx = seq![(i % nx) as usize, (i / nx) as usize];
            level_is_unique(idx, multigrid as nat, x[i] as nat, y[i] as nat);
        }
        assert(x =~= y);
    }
}

/// The cells of a 3-D grid have one list of levels.
pub proof fn levels_are_unique_3d(
    a: Option<Vec<u8>>,
    b: Option<Vec<u8>>,
    grid: Grid3D,
    multigrid: u8,
)
    requires
        levels_for_3d(a, grid, multigrid),
        levels_for_3d(b, grid, multigrid),
    ensures
        a is Some <==> b is Some,
        a is Some ==> (a->0)@ == (b->0)@,
{
    if a is Some {
        let (x, y) = ((a->0)@, (b->0)@);
        let nx = grid.nx as int;
        let ny = grid.ny as int;
        assert forall|i: int| 0 <= i < x.len() implies x[i] == y[i] by {
            let idx = seq![
                (i % nx) as usize,
                ((i / nx) % ny) as usize,
                (i / (nx * ny)) as usize,
            ];
            level_is_unique(idx, multigrid as nat, x[i] as nat, y[i] as nat);
        }
        assert(x =~= y);
    }
}

} // verus!
