//! Incremental bucket grid for sequential simulation: constant-time
//! insertion, shell-expanding nearest-neighbor queries.

use vstd::prelude::*;

use crate::double::Double;
use crate::kdtree::limit;
use crate::search::{
    after_offer, arranged, computes, eligible, encodings, function_of, heap_worst, into_sorted,
    k_nearest_of, lemma_candidates_to_found, lemma_skip, nearest_of, offer_keeps_nearest,
    push_candidate, within_reach, worst_bits, Distance, Entry,
};

verus! {

/// Number of cells spanned by the first `d` axes.
pub open spec fn volume(n: Seq<usize>, d: int) -> nat
    decreases d,
{
    if d <= 0 {
        1
    } else {
        volume(n, d - 1) * (n[d - 1] as nat)
    }
}

/// Storage index of a cell: the first axis varies fastest.
pub open spec fn flat(c: Seq<usize>, n: Seq<usize>, d: int) -> nat
    decreases d,
{
    if d <= 0 {
        0
    } else {
        flat(c, n, d - 1) + (c[d - 1] as nat) * volume(n, d - 1)
    }
}

/// `c` is a cell of the grid.
pub open spec fn in_grid(c: Seq<usize>, n: Seq<usize>) -> bool {
    c.len() == n.len() && forall|d: int| 0 <= d < n.len() ==> (#[trigger] c[d]) < n[d]
}

/// Distance between two cells along one axis.
pub open spec fn apart(a: usize, b: usize) -> nat {
    if a >= b {
        (a - b) as nat
    } else {
        (b - a) as nat
    }
}

/// Chebyshev distance of two cells over the first `d` axes.
pub open spec fn chebyshev(a: Seq<usize>, b: Seq<usize>, d: int) -> nat
    decreases d,
{
    if d <= 0 {
        0
    } else {
        let rest = chebyshev(a, b, d - 1);
        let here = apart(a[d - 1], b[d - 1]);
        if here > rest {
            here
        } else {
            rest
        }
    }
}

/// Raw cell coordinate brought into `0..n`.
pub open spec fn clamped(raw: int, n: int) -> int {
    if raw < 0 {
        0
    } else if raw >= n {
        n - 1
    } else {
        raw
    }
}

/// The cell of the grid nearest to raw cell coordinates.
pub open spec fn nearest_cell(raw: Seq<isize>, n: Seq<usize>) -> Seq<usize> {
    Seq::new(n.len(), |d: int| clamped(raw[d] as int, n[d] as int) as usize)
}

proof fn lemma_volume_positive(n: Seq<usize>, d: int)
    requires
        0 <= d <= n.len(),
        forall|i: int| 0 <= i < n.len() ==> (#[trigger] n[i]) > 0,
    ensures
        volume(n, d) > 0,
    decreases d,
{
    if d > 0 {
        lemma_volume_positive(n, d - 1);
        assert(volume(n, d - 1) * (n[d - 1] as nat) > 0) by (nonlinear_arith)
            requires
                volume(n, d - 1) > 0,
                n[d - 1] > 0,
        ;
    }
}

proof fn lemma_volume_grows(n: Seq<usize>, d: int, e: int)
    requires
        0 <= d <= e <= n.len(),
        forall|i: int| 0 <= i < n.len() ==> (#[trigger] n[i]) > 0,
    ensures
        volume(n, d) <= volume(n, e),
    decreases e - d,
{
    if d < e {
        lemma_volume_grows(n, d, e - 1);
        lemma_volume_positive(n, e - 1);
        assert(volume(n, e - 1) <= volume(n, e - 1) * (n[e - 1] as nat)) by (nonlinear_arith)
            requires
                n[e - 1] > 0,
        ;
    }
}

proof fn lemma_flat_bound(c: Seq<usize>, n: Seq<usize>, d: int)
    requires
        0 <= d <= n.len(),
        in_grid(c, n),
    ensures
        flat(c, n, d) < volume(n, d),
    decreases d,
{
    if d > 0 {
        lemma_flat_bound(c, n, d - 1);
        let v = volume(n, d - 1);
        let low = flat(c, n, d - 1);
        let x = c[d - 1] as nat;
        let m = n[d - 1] as nat;
        assert(low + x * v < v * m) by (nonlinear_arith)
            requires
                low < v,
                x < m,
        ;
    }
}

/// Different cells have different storage indices.
pub proof fn flat_is_injective(a: Seq<usize>, b: Seq<usize>, n: Seq<usize>, d: int)
    requires
        0 <= d <= n.len(),
        in_grid(a, n),
        in_grid(b, n),
        flat(a, n, d) == flat(b, n, d),
    ensures
        forall|i: int| 0 <= i < d ==> a[i] == b[i],
    decreases d,
{
    if d > 0 {
        lemma_flat_bound(a, n, d - 1);
        lemma_flat_bound(b, n, d - 1);
        let v = volume(n, d - 1);
        let la = flat(a, n, d - 1);
        let lb = flat(b, n, d - 1);
        let x = a[d - 1] as nat;
        let y = b[d - 1] as nat;
        assert(x == y && la == lb) by (nonlinear_arith)
            requires
                la < v,
                lb < v,
                la + x * v == lb + y * v,
        ;
        flat_is_injective(a, b, n, d - 1);
    }
}

proof fn lemma_chebyshev(a: Seq<usize>, b: Seq<usize>, d: int)
    ensures
        forall|i: int| 0 <= i < d ==> apart(#[trigger] a[i], b[i]) <= chebyshev(a, b, d),
        d > 0 ==> exists|i: int| 0 <= i < d && apart(#[trigger] a[i], b[i]) == chebyshev(a, b, d),
    decreases d,
{
    if d > 0 {
        lemma_chebyshev(a, b, d - 1);
        if apart(a[d - 1], b[d - 1]) >= chebyshev(a, b, d - 1) {
            assert(apart(a[d - 1], b[d - 1]) == chebyshev(a, b, d));
        }
    }
}

/// The cells listed are pairwise different.
pub open spec fn cells_differ(cells: Seq<Vec<usize>>) -> bool {
    forall|a: int, b: int|
        0 <= a < b < cells.len() ==> (#[trigger] cells[a])@ != (#[trigger] cells[b])@
}

/// `c` is among the cells listed.
pub open spec fn has_cell(cells: Seq<Vec<usize>>, c: Seq<usize>) -> bool {
    exists|a: int| 0 <= a < cells.len() && (#[trigger] cells[a])@ == c
}

/// `c` lies in the box `lo..hi`, upper ends excluded.
pub open spec fn in_box(c: Seq<usize>, lo: Seq<usize>, hi: Seq<usize>, d: int) -> bool {
    c.len() == d && forall|i: int| 0 <= i < d ==> lo[i] <= #[trigger] c[i] < hi[i]
}

/// The cells listed, by their coordinates.
pub open spec fn cells_listed(cells: Seq<Vec<usize>>) -> Seq<Seq<usize>> {
    cells.map(|_i: int, c: Vec<usize>| c@)
}

/// Every cell with each of the coordinates `a..b` on a further axis; the further
/// axis varies slowest.
pub open spec fn layers(cells: Seq<Seq<usize>>, a: int, b: int) -> Seq<Seq<usize>>
    decreases b - a,
{
    if b <= a {
        Seq::empty()
    } else {
        layers(cells, a, b - 1) + cells.map(|_i: int, c: Seq<usize>| c.push((b - 1) as usize))
    }
}

/// The cells of the box `lo..hi` over the first `d` axes, the first axis varying
/// fastest.
pub open spec fn box_list(lo: Seq<usize>, hi: Seq<usize>, d: int) -> Seq<Seq<usize>>
    decreases d,
{
    if d <= 0 {
        seq![Seq::empty()]
    } else {
        layers(box_list(lo, hi, d - 1), lo[d - 1] as int, hi[d - 1] as int)
    }
}

fn with_coordinate(c: &Vec<usize>, v: usize) -> (r: Vec<usize>)
    ensures
        r@ == c@.push(v),
{
    let mut r: Vec<usize> = Vec::new();
    for i in 0..c.len()
        invariant
            r@ =~= c@.take(i as int),
    {
        r.push(c[i]);
    }
    r.push(v);
    assert(r@ =~= c@.push(v));
    r
}

/// All cells of the box `lo..hi`, the first axis varying fastest.
pub fn box_cells(lo: &Vec<usize>, hi: &Vec<usize>) -> (cells: Vec<Vec<usize>>)
    requires
        lo.len() == hi.len(),
    ensures
        cells_differ(cells@),
        forall|c: Seq<usize>| #[trigger]
            has_cell(cells@, c) <==> in_box(c, lo@, hi@, lo@.len() as int),
        cells_listed(cells@) == box_list(lo@, hi@, lo@.len() as int),
{
    let mut cells: Vec<Vec<usize>> = Vec::new();
    cells.push(Vec::new());
    proof {
        assert(cells@[0]@ =~= Seq::<usize>::empty());
        assert(cells_listed(cells@) =~= box_list(lo@, hi@, 0));
        assert forall|c: Seq<usize>| #[trigger] has_cell(cells@, c) <==> in_box(
            c,
            lo@,
            hi@,
            0,
        ) by {
            assert(cells@[0]@ =~= Seq::<usize>::empty());
            if c.len() == 0 {
                assert(c =~= Seq::<usize>::empty());
                assert(cells@[0]@ == c);
            }
        }
    }
    for d in 0..lo.len()
        invariant
            lo.len() == hi.len(),
            cells_differ(cells@),
            forall|c: Seq<usize>| #[trigger]
                has_cell(cells@, c) <==> in_box(c, lo@, hi@, d as int),
            cells_listed(cells@) == box_list(lo@, hi@, d as int),
    {
        let mut longer: Vec<Vec<usize>> = Vec::new();
        let mut v: usize = lo[d];
        assert(cells_listed(longer@) =~= layers(cells_listed(cells@), v as int, v as int));
        while v < hi[d]
            invariant
                d < lo.len(),
                lo.len() == hi.len(),
                lo@[d as int] <= v,
                v <= hi@[d as int] || v == lo@[d as int],
                cells_differ(cells@),
                cells_differ(longer@),
                forall|c: Seq<usize>| #[trigger]
                    has_cell(cells@, c) <==> in_box(c, lo@, hi@, d as int),
                forall|c: Seq<usize>| #[trigger]
                    has_cell(longer@, c) <==> in_box(c.drop_last(), lo@, hi@, d as int) && c.len()
                        == d + 1 && lo@[d as int] <= c.last() < v,
                cells_listed(longer@) == layers(
                    cells_listed(cells@),
                    lo@[d as int] as int,
                    v as int,
                ),
            decreases hi@[d as int] - v,
        {
            let ghost before = longer@;
            for a in 0..cells.len()
                invariant
                    d < lo.len(),
                    lo.len() == hi.len(),
                    lo@[d as int] <= v < hi@[d as int],
                    cells_differ(cells@),
                    forall|c: Seq<usize>| #[trigger]
                        has_cell(cells@, c) <==> in_box(c, lo@, hi@, d as int),
                    forall|c: Seq<usize>| #[trigger]
                        has_cell(before, c) <==> in_box(c.drop_last(), lo@, hi@, d as int)
                            && c.len() == d + 1 && lo@[d as int] <= c.last() < v,
                    longer.len() == before.len() + a,
                    forall|b: int| 0 <= b < before.len() ==> longer@[b] == before[b],
                    forall|b: int|
                        0 <= b < a ==> (#[trigger] longer@[before.len() + b])@ == cells@[b]@.push(v),
                    cells_differ(before),
            {
                let c: Vec<usize> = with_coordinate(&cells[a], v);
                longer.push(c);
            }
            proof {
                lemma_box_layer(cells@, before, longer@, lo@, hi@, d as int, v);
                assert forall|b: int| 0 <= b < cells.len() implies cells_listed(
                    longer@,
                )[before.len() + b] == cells_listed(cells@)[b].push(v) by {
                    assert(longer@[before.len() + b]@ == cells@[b]@.push(v));
                }
                assert(cells_listed(longer@) =~= cells_listed(before) + cells_listed(cells@).map(
                    |_i: int, c: Seq<usize>| c.push(v),
                ));
                assert(cells_listed(longer@) =~= layers(
                    cells_listed(cells@),
                    lo@[d as int] as int,
                    v + 1,
                ));
            }
            v = v + 1;
        }
        proof {
            assert forall|c: Seq<usize>| #[trigger] has_cell(longer@, c) <==> in_box(
                c,
                lo@,
                hi@,
                d + 1,
            ) by {
                if c.len() == d + 1 {
                    let s = c.drop_last();
                    assert forall|i: int| 0 <= i < d implies s[i] == c[i] by {}
                    if in_box(c, lo@, hi@, d + 1) {
                        assert(lo@[d as int] <= c[d as int] < hi@[d as int]);
                        assert forall|i: int| 0 <= i < d implies lo@[i] <= #[trigger] s[i]
                            < hi@[i] by {
                            assert(lo@[i] <= c[i] < hi@[i]);
                        }
                    }
                    if in_box(s, lo@, hi@, d as int) && lo@[d as int] <= c.last() < v {
                        assert forall|i: int| 0 <= i < d + 1 implies lo@[i] <= #[trigger] c[i]
                            < hi@[i] by {
                            if i < d {
                                assert(s[i] == c[i]);
                            }
                        }
                    }
                }
            }
        }
        proof {
            if hi@[d as int] < lo@[d as int] {
                assert(layers(cells_listed(cells@), lo@[d as int] as int, hi@[d as int] as int)
                    =~= cells_listed(longer@));
            }
        }
        cells = longer;
    }
    cells
}

proof fn lemma_box_layer(
    cells: Seq<Vec<usize>>,
    before: Seq<Vec<usize>>,
    longer: Seq<Vec<usize>>,
    lo: Seq<usize>,
    hi: Seq<usize>,
    d: int,
    v: usize,
)
    requires
        0 <= d,
        v < usize::MAX,
        lo[d] <= v,
        cells_differ(cells),
        cells_differ(before),
        forall|c: Seq<usize>| #[trigger] has_cell(cells, c) <==> in_box(c, lo, hi, d),
        forall|c: Seq<usize>| #[trigger]
            has_cell(before, c) <==> in_box(c.drop_last(), lo, hi, d) && c.len() == d + 1 && lo[d]
                <= c.last() < v,
        longer.len() == before.len() + cells.len(),
        forall|b: int| 0 <= b < before.len() ==> longer[b] == before[b],
        forall|b: int|
            0 <= b < cells.len() ==> (#[trigger] longer[before.len() + b])@ == cells[b]@.push(v),
    ensures
        cells_differ(longer),
        forall|c: Seq<usize>| #[trigger]
            has_cell(longer, c) <==> in_box(c.drop_last(), lo, hi, d) && c.len() == d + 1 && lo[d]
                <= c.last() < v + 1,
{
    let nb = before.len() as int;
    assert forall|a: int, b: int| 0 <= a < b < longer.len() implies (#[trigger] longer[a])@ != (
    #[trigger] longer[b])@ by {
        if b < nb {
            assert(before[a]@ != before[b]@);
        } else if a < nb {
            assert(has_cell(before, before[a]@));
            assert(longer[nb + (b - nb)]@ == cells[b - nb]@.push(v));
            assert(longer[b]@.last() == v);
        } else {
            assert(longer[nb + (a - nb)]@ == cells[a - nb]@.push(v));
            assert(longer[nb + (b - nb)]@ == cells[b - nb]@.push(v));
            assert(cells[a - nb]@ != cells[b - nb]@);
            assert(longer[a]@.drop_last() =~= cells[a - nb]@);
            assert(longer[b]@.drop_last() =~= cells[b - nb]@);
        }
    }
    assert forall|c: Seq<usize>| #[trigger] has_cell(longer, c) <==> in_box(
        c.drop_last(),
        lo,
        hi,
        d,
    ) && c.len() == d + 1 && lo[d] <= c.last() < v + 1 by {
        if has_cell(longer, c) {
            let a = choose|a: int| 0 <= a < longer.len() && (#[trigger] longer[a])@ == c;
            if a < nb {
                assert(before[a]@ == c);
                assert(has_cell(before, c));
            } else {
                assert(longer[nb + (a - nb)]@ == cells[a - nb]@.push(v));
                assert(c.drop_last() =~= cells[a - nb]@);
                assert(has_cell(cells, c.drop_last()));
            }
        }
        if in_box(c.drop_last(), lo, hi, d) && c.len() == d + 1 && lo[d] <= c.last() < v + 1 {
            if c.last() < v {
                assert(has_cell(before, c));
                let a = choose|a: int| 0 <= a < before.len() && (#[trigger] before[a])@ == c;
                assert(longer[a]@ == c);
            } else {
                assert(has_cell(cells, c.drop_last()));
                let a = choose|a: int|
                    0 <= a < cells.len() && (#[trigger] cells[a])@ == c.drop_last();
                assert(longer[nb + a]@ == cells[a]@.push(v));
                assert(c =~= c.drop_last().push(v));
            }
        }
    }
}

/// `c` has its first axis at distance `r` from `t` at axis `f`, and no axis
/// farther than `r`.
pub open spec fn on_face(c: Seq<usize>, t: Seq<usize>, r: nat, f: int) -> bool {
    &&& 0 <= f < t.len()
    &&& apart(c[f], t[f]) == r
    &&& forall|d: int| 0 <= d < f ==> apart(#[trigger] c[d], t[d]) < r
    &&& forall|d: int| f < d < t.len() ==> apart(#[trigger] c[d], t[d]) <= r
}

/// Some axis before `f` is the face of `c`.
spec fn on_some_face(c: Seq<usize>, t: Seq<usize>, r: nat, f: int) -> bool {
    exists|g: int| 0 <= g < f && on_face(c, t, r, g)
}

proof fn lemma_faces_are_the_shell(c: Seq<usize>, t: Seq<usize>, r: nat)
    requires
        c.len() == t.len(),
        t.len() > 0,
    ensures
        on_some_face(c, t, r, t.len() as int) <==> chebyshev(c, t, t.len() as int) == r,
{
    let n = t.len() as int;
    lemma_chebyshev(c, t, n);
    if on_some_face(c, t, r, n) {
        let g = choose|g: int| 0 <= g < n && on_face(c, t, r, g);
        let w = choose|i: int|
            0 <= i < n && apart(#[trigger] c[i], t[i]) == chebyshev(c, t, n);
        assert(apart(c[g], t[g]) <= chebyshev(c, t, n));
        assert(apart(c[w], t[w]) <= r);
    }
    if chebyshev(c, t, n) == r {
        let w = choose|i: int|
            0 <= i < n && apart(#[trigger] c[i], t[i]) == chebyshev(c, t, n);
        let g = lemma_first_at(c, t, r, w);
        assert(on_face(c, t, r, g));
    }
}

/// The first axis at distance `r`, given one such axis.
proof fn lemma_first_at(c: Seq<usize>, t: Seq<usize>, r: nat, w: int) -> (g: int)
    requires
        0 <= w < t.len(),
        apart(c[w], t[w]) == r,
        forall|i: int| 0 <= i < t.len() ==> apart(#[trigger] c[i], t[i]) <= r,
    ensures
        0 <= g <= w,
        apart(c[g], t[g]) == r,
        forall|d: int| 0 <= d < g ==> apart(#[trigger] c[d], t[d]) < r,
    decreases w,
{
    if exists|i: int| 0 <= i < w && apart(#[trigger] c[i], t[i]) == r {
        let i = choose|i: int| 0 <= i < w && apart(#[trigger] c[i], t[i]) == r;
        lemma_first_at(c, t, r, i)
    } else {
        w
    }
}

/// Coordinate `v` at axis `i` belongs to that side of the face at axis `f`.
spec fn on_axis(v: usize, t: usize, n: usize, r: usize, i: int, f: int, upper: bool) -> bool {
    v < n && (if i < f {
        apart(v, t) < r
    } else if i == f {
        apart(v, t) == r && (v > t) == upper
    } else {
        apart(v, t) <= r
    })
}

/// First coordinate on that side of the face at axis `f`, at axis `d`.
pub open spec fn face_start(n: int, t: int, r: int, d: int, f: int, upper: bool) -> int {
    if d < f {
        if t < r { 0 } else { t - r + 1 }
    } else if d == f {
        if upper {
            if r >= n - t { 0 } else { t + r }
        } else {
            if t < r { 0 } else { t - r }
        }
    } else {
        if t < r { 0 } else { t - r }
    }
}

/// End of the coordinates on that side of the face at axis `f`, at axis `d`.
pub open spec fn face_end(n: int, t: int, r: int, d: int, f: int, upper: bool) -> int {
    if d < f {
        if r >= n - t { n } else { t + r }
    } else if d == f {
        if upper {
            if r >= n - t { 0 } else { t + r + 1 }
        } else {
            if t < r { 0 } else { t - r + 1 }
        }
    } else {
        if r >= n - t { n } else { t + r + 1 }
    }
}

/// The cells of one side of the face at axis `f`, in the order of a box.
pub open spec fn face_list(n: Seq<usize>, t: Seq<usize>, r: int, f: int, upper: bool) -> Seq<
    Seq<usize>,
> {
    box_list(
        Seq::new(
            n.len(),
            |d: int| face_start(n[d] as int, t[d] as int, r, d, f, upper) as usize,
        ),
        Seq::new(n.len(), |d: int| face_end(n[d] as int, t[d] as int, r, d, f, upper) as usize),
        n.len() as int,
    )
}

/// The cells of the faces at the first `f` axes, lower sides before upper sides.
pub open spec fn faces_list(n: Seq<usize>, t: Seq<usize>, r: int, f: int) -> Seq<Seq<usize>>
    decreases f,
{
    if f <= 0 {
        Seq::empty()
    } else {
        faces_list(n, t, r, f - 1) + face_list(n, t, r, f - 1, false) + face_list(
            n,
            t,
            r,
            f - 1,
            true,
        )
    }
}

/// The cells at a ring around `t`, in the order in which they are visited.
pub open spec fn shell_list(n: Seq<usize>, t: Seq<usize>, ring: int) -> Seq<Seq<usize>> {
    if ring == 0 {
        seq![t]
    } else {
        faces_list(n, t, ring, n.len() as int)
    }
}

/// Cells of the grid on the lower (`upper` false) or upper side of the face
/// at axis `f` of the shell of radius `r` around `t`.
fn face_cells(n: &Vec<usize>, t: &Vec<usize>, r: usize, f: usize, upper: bool) -> (cells: Vec<
    Vec<usize>,
>)
    requires
        in_grid(t@, n@),
        f < n.len(),
        r > 0,
    ensures
        cells_differ(cells@),
        forall|c: Seq<usize>| #[trigger]
            has_cell(cells@, c) <==> in_grid(c, n@) && on_face(c, t@, r as nat, f as int) && (c[
                f as int
            ] > t@[f as int]) == upper,
        cells_listed(cells@) == face_list(n@, t@, r as int, f as int, upper),
{
    let mut lo: Vec<usize> = Vec::new();
    let mut hi: Vec<usize> = Vec::new();
    for d in 0..n.len()
        invariant
            in_grid(t@, n@),
            f < n.len(),
            r > 0,
            lo.len() == d,
            hi.len() == d,
            forall|i: int|
                0 <= i < d ==> #[trigger] lo@[i] == face_start(
                    n@[i] as int,
                    t@[i] as int,
                    r as int,
                    i,
                    f as int,
                    upper,
                ),
            forall|i: int|
                0 <= i < d ==> #[trigger] hi@[i] == face_end(
                    n@[i] as int,
                    t@[i] as int,
                    r as int,
                    i,
                    f as int,
                    upper,
                ),
            forall|i: int, v: usize|
                #![trigger on_axis(v, t@[i], n@[i], r, i, f as int, upper)]
                0 <= i < d ==> (lo@[i] <= v < hi@[i] <==> on_axis(
                    v,
                    t@[i],
                    n@[i],
                    r,
                    i,
                    f as int,
                    upper,
                )),
    {
        let ghost lo0 = lo@;
        let ghost hi0 = hi@;
        let td: usize = t[d];
        let nd: usize = n[d];
        assert(t@[d as int] < n@[d as int]);
        if d < f {
            lo.push(if td < r { 0 } else { td - r + 1 });
            hi.push(if r >= nd - td { nd } else { td + r });
        } else if d == f {
            if upper {
                if r >= nd - td {
                    lo.push(0);
                    hi.push(0);
                } else {
                    lo.push(td + r);
                    hi.push(td + r + 1);
                }
            } else if td < r {
                lo.push(0);
                hi.push(0);
            } else {
                lo.push(td - r);
                hi.push(td - r + 1);
            }
        } else {
            lo.push(if td < r { 0 } else { td - r });
            hi.push(if r >= nd - td { nd } else { td + r + 1 });
        }
        proof {
            assert forall|i: int, v: usize|
                #![trigger on_axis(v, t@[i], n@[i], r, i, f as int, upper)]
                0 <= i < d + 1 implies (lo@[i] <= v < hi@[i] <==> on_axis(
                v,
                t@[i],
                n@[i],
                r,
                i,
                f as int,
                upper,
            )) by {
                if i < d {
                    assert(lo@[i] == lo0[i]);
                    assert(hi@[i] == hi0[i]);
                }
            }
        }
    }
    let cells: Vec<Vec<usize>> = box_cells(&lo, &hi);
    proof {
        let dims = n@.len() as int;
        assert(lo@ =~= Seq::new(
            n@.len(),
            |d: int|
                face_start(n@[d] as int, t@[d] as int, r as int, d, f as int, upper) as usize,
        ));
        assert(hi@ =~= Seq::new(
            n@.len(),
            |d: int| face_end(n@[d] as int, t@[d] as int, r as int, d, f as int, upper) as usize,
        ));
        assert forall|c: Seq<usize>| #[trigger] has_cell(cells@, c) <==> in_grid(c, n@) && on_face(
            c,
            t@,
            r as nat,
            f as int,
        ) && (c[f as int] > t@[f as int]) == upper by {
            if in_box(c, lo@, hi@, dims) {
                assert forall|d: int| 0 <= d < dims implies on_axis(
                    #[trigger] c[d],
                    t@[d],
                    n@[d],
                    r,
                    d,
                    f as int,
                    upper,
                ) by {
                    assert(lo@[d] <= c[d] < hi@[d]);
                }
            }
            if in_grid(c, n@) && on_face(c, t@, r as nat, f as int) && (c[f as int]
                > t@[f as int]) == upper {
                assert forall|d: int| 0 <= d < dims implies lo@[d] <= #[trigger] c[d] < hi@[d] by {
                    assert(on_axis(c[d], t@[d], n@[d], r, d, f as int, upper));
                }
            }
        }
    }
    cells
}

proof fn lemma_joined(a: Seq<Vec<usize>>, b: Seq<Vec<usize>>)
    requires
        cells_differ(a),
        cells_differ(b),
        forall|c: Seq<usize>| !(#[trigger] has_cell(a, c) && has_cell(b, c)),
    ensures
        cells_differ(a + b),
        forall|c: Seq<usize>| #[trigger] has_cell(a + b, c) <==> has_cell(a, c) || has_cell(b, c),
{
    let j = a + b;
    assert forall|x: int, y: int| 0 <= x < y < j.len() implies (#[trigger] j[x])@ != (
    #[trigger] j[y])@ by {
        if x < a.len() && y >= a.len() {
            assert(has_cell(a, a[x]@));
            assert(has_cell(b, b[y - a.len()]@));
            assert(!(has_cell(a, a[x]@) && has_cell(b, a[x]@)));
        }
    }
    assert forall|c: Seq<usize>| #[trigger] has_cell(j, c) <==> has_cell(a, c) || has_cell(b, c) by {
        if has_cell(j, c) {
            let x = choose|x: int| 0 <= x < j.len() && (#[trigger] j[x])@ == c;
            if x < a.len() {
                assert(a[x]@ == c);
            } else {
                assert(b[x - a.len()]@ == c);
            }
        }
        if has_cell(a, c) {
            let x = choose|x: int| 0 <= x < a.len() && (#[trigger] a[x])@ == c;
            assert(j[x]@ == c);
        }
        if has_cell(b, c) {
            let x = choose|x: int| 0 <= x < b.len() && (#[trigger] b[x])@ == c;
            assert(j[a.len() + x]@ == c);
        }
    }
}

/// The cells of the grid at Chebyshev distance `ring` from `t`, each once.
pub fn shell_cells(n: &Vec<usize>, t: &Vec<usize>, ring: usize) -> (cells: Vec<Vec<usize>>)
    requires
        n.len() > 0,
        in_grid(t@, n@),
    ensures
        cells_differ(cells@),
        forall|c: Seq<usize>| #[trigger]
            has_cell(cells@, c) <==> in_grid(c, n@) && chebyshev(c, t@, n@.len() as int) == ring,
        cells_listed(cells@) == shell_list(n@, t@, ring as int),
{
    let mut cells: Vec<Vec<usize>> = Vec::new();
    if ring == 0 {
        let mut only: Vec<usize> = Vec::new();
        for i in 0..t.len()
            invariant
                only@ =~= t@.take(i as int),
        {
            only.push(t[i]);
        }
        assert(only@ =~= t@);
        cells.push(only);
        proof {
            assert(cells_listed(cells@) =~= seq![t@]);
            assert forall|c: Seq<usize>| #[trigger] has_cell(cells@, c) <==> in_grid(c, n@)
                && chebyshev(c, t@, n@.len() as int) == ring by {
                lemma_chebyshev(c, t@, n@.len() as int);
                assert(cells@[0]@ == t@);
                if in_grid(c, n@) && chebyshev(c, t@, n@.len() as int) == 0 {
                    assert forall|i: int| 0 <= i < c.len() implies c[i] == t@[i] by {
                        assert(apart(c[i], t@[i]) <= 0);
                    }
                    assert(c =~= t@);
                }
                if c == t@ {
                    let w = choose|i: int|
                        0 <= i < n@.len() && apart(#[trigger] c[i], t@[i]) == chebyshev(
                            c,
                            t@,
                            n@.len() as int,
                        );
                    assert(apart(c[w], t@[w]) == 0);
                }
            }
        }
        return cells;
    }
    assert(cells_listed(cells@) =~= faces_list(n@, t@, ring as int, 0));
    for f in 0..n.len()
        invariant
            n.len() > 0,
            ring > 0,
            in_grid(t@, n@),
            cells_differ(cells@),
            cells_listed(cells@) == faces_list(n@, t@, ring as int, f as int),
            forall|c: Seq<usize>| #[trigger]
                has_cell(cells@, c) <==> in_grid(c, n@) && on_some_face(
                    c,
                    t@,
                    ring as nat,
                    f as int,
                ),
    {
        let ghost c0 = cells@;
        let mut low: Vec<Vec<usize>> = face_cells(n, t, ring, f, false);
        let mut high: Vec<Vec<usize>> = face_cells(n, t, ring, f, true);
        let ghost l0 = low@;
        let ghost h0 = high@;
        proof {
            assert forall|c: Seq<usize>| !(#[trigger] has_cell(c0, c) && has_cell(l0, c)) by {
                if has_cell(c0, c) && has_cell(l0, c) {
                    let g = choose|g: int| 0 <= g < f && on_face(c, t@, ring as nat, g);
                    assert(apart(c[g], t@[g]) < ring);
                }
            }
            lemma_joined(c0, l0);
            assert forall|c: Seq<usize>| !(#[trigger] has_cell(c0 + l0, c) && has_cell(h0, c)) by {
                if has_cell(c0 + l0, c) && has_cell(h0, c) {
                    if has_cell(c0, c) {
                        let g = choose|g: int| 0 <= g < f && on_face(c, t@, ring as nat, g);
                        assert(apart(c[g], t@[g]) < ring);
                    }
                }
            }
            lemma_joined(c0 + l0, h0);
        }
        cells.append(&mut low);
        cells.append(&mut high);
        proof {
            assert(cells@ == c0 + l0 + h0);
            assert(cells_listed(cells@) =~= cells_listed(c0) + cells_listed(l0) + cells_listed(
                h0,
            ));
            assert forall|c: Seq<usize>| #[trigger] has_cell(cells@, c) <==> in_grid(c, n@)
                && on_some_face(c, t@, ring as nat, f + 1) by {
                if on_some_face(c, t@, ring as nat, f + 1) {
                    let g = choose|g: int| 0 <= g < f + 1 && on_face(c, t@, ring as nat, g);
                    if g < f {
                        assert(on_some_face(c, t@, ring as nat, f as int));
                    }
                }
                if on_some_face(c, t@, ring as nat, f as int) {
                    let g = choose|g: int| 0 <= g < f && on_face(c, t@, ring as nat, g);
                    assert(on_face(c, t@, ring as nat, g));
                }
                assert(has_cell(c0 + l0, c) <==> has_cell(c0, c) || has_cell(l0, c));
            }
        }
    }
    proof {
        assert forall|c: Seq<usize>| #[trigger] has_cell(cells@, c) <==> in_grid(c, n@)
            && chebyshev(c, t@, n@.len() as int) == ring by {
            if c.len() == t@.len() {
                lemma_faces_are_the_shell(c, t@, ring as nat);
            }
        }
    }
    cells
}

/// Most buckets that a grid for `expected` points may have: a small multiple
/// of the points, so that a degenerate extent cannot ask for more memory than
/// there is.
pub open spec fn bucket_cap(expected: nat) -> nat {
    let points = if expected == 0 { 1 } else { expected };
    let four = if points * 4 > usize::MAX { usize::MAX as nat } else { points * 4 };
    if four < 64 { 64 } else { four }
}

/// The points in a cell, in insertion order, given the cell of each point.
pub open spec fn points_in(cells: Seq<Seq<usize>>, c: Seq<usize>) -> Seq<u32>
    decreases cells.len(),
{
    if cells.len() == 0 {
        Seq::empty()
    } else if cells.last() == c {
        points_in(cells.drop_last(), c).push((cells.len() - 1) as u32)
    } else {
        points_in(cells.drop_last(), c)
    }
}

/// What offering points in this order leaves of at most `k` candidates; points
/// beyond the radius are passed over.
pub open spec fn after_points(
    items: Seq<Entry>,
    k: nat,
    points: Seq<u32>,
    d: Distance,
    r2: Double,
) -> Seq<Entry>
    decreases points.len(),
{
    if points.len() == 0 {
        items
    } else {
        let before = after_points(items, k, points.drop_last(), d, r2);
        let i = points.last();
        if d(i as usize).at_most(r2) {
            after_offer(before, k, (d(i as usize).bits, i))
        } else {
            before
        }
    }
}

/// What offering the points of these cells in turn leaves.
pub open spec fn after_cells(
    items: Seq<Entry>,
    k: nat,
    visits: Seq<Seq<usize>>,
    cells: Seq<Seq<usize>>,
    d: Distance,
    r2: Double,
) -> Seq<Entry>
    decreases visits.len(),
{
    if visits.len() == 0 {
        items
    } else {
        after_points(
            after_cells(items, k, visits.drop_last(), cells, d, r2),
            k,
            points_in(cells, visits.last()),
            d,
            r2,
        )
    }
}

/// Most buckets along an axis, at least one.
pub open spec fn longest(n: Seq<usize>, d: int) -> nat
    decreases d,
{
    if d <= 0 {
        1
    } else if n[d - 1] > longest(n, d - 1) {
        n[d - 1] as nat
    } else {
        longest(n, d - 1)
    }
}

/// What visiting the rings from `ring` on leaves: rings are visited outward from
/// `t` until the candidates, or the radius, are nearer than the next can be.
pub open spec fn after_rings(
    items: Seq<Entry>,
    k: nat,
    n: Seq<usize>,
    t: Seq<usize>,
    cells: Seq<Seq<usize>>,
    d: Distance,
    r2: Double,
    reach: Distance,
    ring: nat,
) -> Seq<Entry>
    decreases longest(n, n.len() as int) + 1 - ring,
{
    if ring > longest(n, n.len() as int) {
        items
    } else if (Double { bits: worst_bits(items, k) }).min(r2).lt(reach(ring as usize)) {
        items
    } else {
        after_rings(
            after_cells(items, k, shell_list(n, t, ring as int), cells, d, r2),
            k,
            n,
            t,
            cells,
            d,
            r2,
            reach,
            ring + 1,
        )
    }
}

/// The points that a search by rings finds: a function of the buckets, of the cell
/// of each point and of the distances.
pub open spec fn ring_search(
    n: Seq<usize>,
    cells: Seq<Seq<usize>>,
    raw: Seq<isize>,
    k: nat,
    r2: Option<Double>,
    d: Distance,
    reach: Distance,
) -> Seq<usize> {
    if k == 0 || cells.len() == 0 {
        Seq::empty()
    } else {
        arranged(
            after_rings(
                Seq::empty(),
                k,
                n,
                nearest_cell(raw, n),
                cells,
                d,
                limit(r2),
                reach,
                0,
            ),
        ).map(|_a: int, e: Entry| e.1 as usize)
    }
}

/// `f` computes `g`.
pub open spec fn follows<R: Fn(usize) -> Double>(f: R, g: Distance) -> bool {
    forall|i: usize, r: Double| #[trigger] call_ensures(f, (i,), r) ==> r == g(i)
}

/// Points sorted into the buckets of a regular grid; a point's index is its
/// insertion order.
pub struct Buckets {
    n: Vec<usize>,
    strides: Vec<usize>,
    buckets: Vec<Vec<u32>>,
    home: Vec<Vec<usize>>,
}

impl Buckets {
    /// Number of buckets along each axis.
    pub closed spec fn shape(&self) -> Seq<usize> {
        self.n@
    }

    /// The cell of each inserted point, in insertion order.
    pub closed spec fn cells(&self) -> Seq<Seq<usize>> {
        self.home@.map(|_i: int, c: Vec<usize>| c@)
    }

    /// Every inserted point stands in the bucket of its cell, once.
    pub closed spec fn well_formed(&self) -> bool {
        &&& self.n.len() > 0
        &&& forall|d: int| 0 <= d < self.n.len() ==> (#[trigger] self.n@[d]) > 0
        &&& self.strides.len() == self.n.len()
        &&& forall|d: int|
            0 <= d < self.n.len() ==> #[trigger] self.strides@[d] == volume(self.n@, d)
        &&& self.buckets@.len() == volume(self.n@, self.n@.len() as int)
        &&& self.home.len() <= u32::MAX
        &&& forall|i: int| 0 <= i < self.home.len() ==> in_grid((#[trigger] self.home@[i])@, self.n@)
        &&& forall|b: int|
            0 <= b < self.buckets.len() ==> (#[trigger] self.buckets@[b])@.no_duplicates()
        &&& forall|b: int, i: u32|
            #![trigger self.buckets@[b]@.contains(i)]
            0 <= b < self.buckets.len() ==> (self.buckets@[b]@.contains(i) <==> i < self.home.len()
                && flat(self.home@[i as int]@, self.n@, self.n@.len() as int) == b)
        &&& forall|c: Seq<usize>|
            #![trigger points_in(self.cells(), c)]
            in_grid(c, self.n@) ==> self.buckets@[flat(
                c,
                self.n@,
                self.n@.len() as int,
            ) as int]@ == points_in(self.cells(), c)
    }

    /// An empty grid with `n[d]` buckets along axis `d`, for about `expected`
    /// points. `None` if that would be more buckets than the cap allows: the
    /// caller then doubles its cell size and asks again.
    pub fn new(n: Vec<usize>, expected: usize) -> (grid: Option<Buckets>)
        requires
            n.len() > 0,
            forall|d: int| 0 <= d < n.len() ==> (#[trigger] n@[d]) > 0,
        ensures
            grid is Some <==> volume(n@, n@.len() as int) <= bucket_cap(expected as nat),
            grid matches Some(g) ==> g.well_formed() && g.shape() == n@ && g.cells().len() == 0,
    {
        let points: usize = if expected == 0 { 1 } else { expected };
        let four: usize = if points > usize::MAX / 4 { usize::MAX } else { points * 4 };
        let cap: usize = if four < 64 { 64 } else { four };
        let mut strides: Vec<usize> = Vec::new();
        let mut total: usize = 1;
        for d in 0..n.len()
            invariant
                cap == bucket_cap(expected as nat),
                forall|e: int| 0 <= e < n.len() ==> (#[trigger] n@[e]) > 0,
                total == volume(n@, d as int),
                strides.len() == d,
                forall|e: int| 0 <= e < d ==> #[trigger] strides@[e] == volume(n@, e),
        {
            strides.push(total);
            match total.checked_mul(n[d]) {
                Some(t) => {
                    total = t;
                },
                None => {
                    proof {
                        lemma_volume_grows(n@, d + 1, n@.len() as int);
                    }
                    return None;
                },
            }
        }
        if total > cap {
            return None;
        }
        let mut buckets: Vec<Vec<u32>> = Vec::new();
        for b in 0..total
            invariant
                buckets.len() == b,
                forall|a: int| 0 <= a < b ==> (#[trigger] buckets@[a])@ == Seq::<u32>::empty(),
        {
            buckets.push(Vec::new());
        }
        let grid = Buckets { n, strides, buckets, home: Vec::new() };
        assert(grid.cells() =~= Seq::<Seq<usize>>::empty());
        proof {
            assert forall|c: Seq<usize>|
                #![trigger points_in(grid.cells(), c)]
                in_grid(c, grid.n@) implies grid.buckets@[flat(
                c,
                grid.n@,
                grid.n@.len() as int,
            ) as int]@ == points_in(grid.cells(), c) by {
                lemma_flat_bound(c, grid.n@, grid.n@.len() as int);
            }
        }
        Some(grid)
    }

    /// Number of points inserted.
    pub fn len(&self) -> (k: usize)
        requires
            self.well_formed(),
        ensures
            k == self.cells().len(),
    {
        self.home.len()
    }

    /// Number of buckets along each axis.
    pub fn counts(&self) -> (n: &Vec<usize>)
        ensures
            n@ == self.shape(),
    {
        &self.n
    }

    /// The cell nearest to raw cell coordinates, which may lie outside.
    pub fn cell_of(&self, raw: &Vec<isize>) -> (c: Vec<usize>)
        requires
            self.well_formed(),
            raw.len() == self.shape().len(),
        ensures
            in_grid(c@, self.shape()),
            c@ == nearest_cell(raw@, self.shape()),
    {
        let mut c: Vec<usize> = Vec::new();
        for d in 0..raw.len()
            invariant
                self.well_formed(),
                raw.len() == self.n.len(),
                c.len() == d,
                forall|e: int|
                    0 <= e < d ==> #[trigger] c@[e] == clamped(raw@[e] as int, self.n@[e] as int),
        {
            let r: isize = raw[d];
            assert(self.n@[d as int] > 0);
            let v: usize = if r < 0 {
                0
            } else if (r as usize) >= self.n[d] {
                self.n[d] - 1
            } else {
                r as usize
            };
            c.push(v);
        }
        assert(c@ =~= nearest_cell(raw@, self.n@));
        assert forall|d: int| 0 <= d < c.len() implies (#[trigger] c@[d]) < self.n@[d] by {
            assert(self.n@[d] > 0);
        }
        c
    }

    /// Storage index of a cell.
    pub fn bucket_index(&self, c: &Vec<usize>) -> (b: usize)
        requires
            self.well_formed(),
            in_grid(c@, self.shape()),
        ensures
            b == flat(c@, self.shape(), self.shape().len() as int),
            b < volume(self.shape(), self.shape().len() as int),
    {
        let mut b: usize = 0;
        for d in 0..c.len()
            invariant
                self.well_formed(),
                in_grid(c@, self.n@),
                b == flat(c@, self.n@, d as int),
        {
            proof {
                lemma_flat_bound(c@, self.n@, d + 1);
                lemma_volume_grows(self.n@, d + 1, self.n@.len() as int);
                let x = c@[d as int] as nat;
                let v = volume(self.n@, d as int);
                assert(self.strides@[d as int] == v);
                assert(flat(c@, self.n@, d + 1) == b + x * v);
                assert(self.buckets.len() == self.buckets@.len());
                assert(b + x * v < usize::MAX);
                assert(x * v >= 0) by (nonlinear_arith);
            }
            b = b + c[d] * self.strides[d];
        }
        proof {
            lemma_flat_bound(c@, self.n@, self.n@.len() as int);
        }
        b
    }

    /// Inserts a point given by raw cell coordinates; its index is the
    /// insertion order.
    pub fn insert(&mut self, raw: &Vec<isize>)
        requires
            old(self).well_formed(),
            raw.len() == old(self).shape().len(),
            old(self).cells().len() < u32::MAX,
        ensures
            final(self).well_formed(),
            final(self).shape() == old(self).shape(),
            final(self).cells() == old(self).cells().push(nearest_cell(raw@, old(self).shape())),
    {
        let c: Vec<usize> = self.cell_of(raw);
        let b: usize = self.bucket_index(&c);
        let i: u32 = self.home.len() as u32;
        let ghost before = *self;
        let mut bucket: Vec<u32> = Vec::new();
        std::mem::swap(&mut bucket, &mut self.buckets[b]);
        let ghost b0 = before.buckets@[b as int]@;
        assert(bucket@ == b0);
        assert(!b0.contains(i)) by {
            assert(before.buckets@[b as int]@.contains(i) <==> i < before.home.len() && flat(
                before.home@[i as int]@,
                before.n@,
                before.n@.len() as int,
            ) == b);
        }
        bucket.push(i);
        std::mem::swap(&mut bucket, &mut self.buckets[b]);
        let ghost cell = c@;
        self.home.push(c);
        proof {
            assert(self.buckets@[b as int]@ == b0.push(i));
            assert(self.n@ == before.n@);
            assert forall|x: int| 0 <= x < self.home.len() implies in_grid(
                (#[trigger] self.home@[x])@,
                self.n@,
            ) by {
                if x < before.home.len() {
                    assert(self.home@[x] == before.home@[x]);
                }
            }
            assert forall|a: int|
                0 <= a < self.buckets.len() implies (
            #[trigger] self.buckets@[a])@.no_duplicates() by {
                if a != b {
                    assert(self.buckets@[a] == before.buckets@[a]);
                } else {
                    assert(before.buckets@[a]@.no_duplicates());
                    let s = b0.push(i);
                    assert forall|x: int, y: int| 0 <= x < y < s.len() implies s[x] != s[y] by {
                        if y == b0.len() {
                            assert(b0.contains(s[x]));
                        }
                    }
                }
            }
            assert forall|a: int, j: u32|
                #![trigger self.buckets@[a]@.contains(j)]
                0 <= a < self.buckets.len() implies (self.buckets@[a]@.contains(j) <==> j
                < self.home.len() && flat(
                self.home@[j as int]@,
                self.n@,
                self.n@.len() as int,
            ) == a) by {
                assert(before.buckets@[a]@.contains(j) <==> j < before.home.len() && flat(
                    before.home@[j as int]@,
                    before.n@,
                    before.n@.len() as int,
                ) == a);
                if j < before.home.len() {
                    assert(self.home@[j as int] == before.home@[j as int]);
                }
                if a == b {
                    let s = b0.push(i);
                    if s.contains(j) {
                        let x = choose|x: int| 0 <= x < s.len() && s[x] == j;
                        if x < b0.len() {
                            assert(b0[x] == j);
                        }
                    }
                    if b0.contains(j) {
                        let x = choose|x: int| 0 <= x < b0.len() && b0[x] == j;
                        assert(s[x] == j);
                    }
                    assert(s[b0.len() as int] == i);
                }
            }
            assert(self.cells() =~= before.cells().push(cell));
            let dims = self.n@.len() as int;
            assert forall|c: Seq<usize>|
                #![trigger points_in(self.cells(), c)]
                in_grid(c, self.n@) implies self.buckets@[flat(c, self.n@, dims) as int]@
                == points_in(self.cells(), c) by {
                assert(self.cells().drop_last() =~= before.cells());
                assert(self.cells().last() == cell);
                assert(points_in(before.cells(), c) == before.buckets@[flat(
                    c,
                    self.n@,
                    dims,
                ) as int]@);
                lemma_flat_bound(c, self.n@, dims);
                if flat(c, self.n@, dims) == b {
                    flat_is_injective(c, cell, self.n@, dims);
                    assert(c =~= cell);
                }
            }
        }
    }

    /// Whether point `i` has been offered: eligible, and its cell within the
    /// finished rings or among the first `a` cells of the current one.
    spec fn offered(
        &self,
        d: Distance,
        r2: Double,
        t: Seq<usize>,
        ring: int,
        cells: Seq<Vec<usize>>,
        a: int,
        i: u32,
    ) -> bool {
        eligible(d, self.home@.len(), r2, i as usize) && (chebyshev(
            self.home@[i as int]@,
            t,
            self.n@.len() as int,
        ) < ring || has_cell(cells.take(a), self.home@[i as int]@))
    }

    /// Offers every point of one cell of the current ring.
    fn offer_cell<F: Fn(usize) -> Double>(
        &self,
        dist: &F,
        r2: Double,
        t: &Vec<usize>,
        ring: usize,
        cells: &Vec<Vec<usize>>,
        a: usize,
        k: usize,
        heap: &mut Vec<Entry>,
        Ghost(d): Ghost<Distance>,
        Ghost(seen): Ghost<Set<u32>>,
    ) -> (now: Ghost<Set<u32>>)
        requires
            self.well_formed(),
            k > 0,
            computes(*dist, self.home@.len(), d),
            cells_differ(cells@),
            a < cells.len(),
            in_grid(cells@[a as int]@, self.n@),
            chebyshev(cells@[a as int]@, t@, self.n@.len() as int) == ring,
            nearest_of(old(heap)@, k as nat, seen, encodings(d)),
            forall|i: u32| #[trigger]
                seen.contains(i) <==> self.offered(
                    d,
                    r2,
                    t@,
                    ring as int,
                    cells@,
                    a as int,
                    i,
                ),
        ensures
            nearest_of(final(heap)@, k as nat, now@, encodings(d)),
            forall|i: u32| #[trigger]
                now@.contains(i) <==> self.offered(d, r2, t@, ring as int, cells@, a + 1, i),
            final(heap)@ == after_points(
                old(heap)@,
                k as nat,
                points_in(self.cells(), cells@[a as int]@),
                d,
                r2,
            ),
    {
        let b: usize = self.bucket_index(&cells[a]);
        let ghost cell = cells@[a as int]@;
        let ghost bucket = self.buckets@[b as int]@;
        let ghost start = heap@;
        assert(bucket == points_in(self.cells(), cell));
        let ghost mut now = seen;
        let ghost n = self.home@.len();
        let ghost dims = self.n@.len() as int;
        let size: usize = self.buckets[b].len();
        for e in 0..size
            invariant
                size == bucket.len(),
                self.well_formed(),
                k > 0,
                b < self.buckets.len(),
                bucket == self.buckets@[b as int]@,
                cell == cells@[a as int]@,
                a < cells.len(),
                cells_differ(cells@),
                in_grid(cell, self.n@),
                b == flat(cell, self.n@, dims),
                dims == self.n@.len(),
                n == self.home@.len(),
                chebyshev(cell, t@, dims) == ring,
                computes(*dist, n, d),
                nearest_of(heap@, k as nat, now, encodings(d)),
                heap@ == after_points(start, k as nat, bucket.take(e as int), d, r2),
                forall|i: u32| #[trigger]
                    seen.contains(i) <==> self.offered(
                        d,
                        r2,
                        t@,
                        ring as int,
                        cells@,
                        a as int,
                        i,
                    ),
                forall|i: u32| #[trigger]
                    now.contains(i) <==> seen.contains(i) || (eligible(d, n, r2, i as usize)
                        && bucket.take(e as int).contains(i)),
        {
            let i: u32 = self.buckets[b][e];
            let ghost was = now;
            proof {
                assert(bucket.take(e + 1).drop_last() =~= bucket.take(e as int));
                assert(bucket.take(e + 1).last() == i);
                assert(bucket[e as int] == i);
                assert(bucket.contains(i));
                assert(self.buckets@[b as int]@.contains(i));
                flat_is_injective(self.home@[i as int]@, cell, self.n@, dims);
                assert(self.home@[i as int]@ =~= cell);
                assert(bucket.no_duplicates());
                assert(!bucket.take(e as int).contains(i));
                if has_cell(cells@.take(a as int), cell) {
                    let x = choose|x: int|
                        0 <= x < a && (#[trigger] cells@.take(a as int)[x])@ == cell;
                    assert(cells@[x]@ != cells@[a as int]@);
                }
                assert(!now.contains(i));
                assert forall|j: u32| #[trigger]
                    bucket.take(e + 1).contains(j) <==> bucket.take(e as int).contains(j) || j
                        == i by {
                    let s = bucket.take(e as int);
                    let l = bucket.take(e + 1);
                    if l.contains(j) {
                        let x = choose|x: int| 0 <= x < l.len() && l[x] == j;
                        if x < e {
                            assert(s[x] == j);
                        }
                    }
                    if s.contains(j) {
                        let x = choose|x: int| 0 <= x < s.len() && s[x] == j;
                        assert(l[x] == j);
                    }
                    assert(l[e as int] == i);
                }
            }
            let d2: Double = dist(i as usize);
            if d2.le(r2) {
                let ghost items = heap@;
                push_candidate(heap, k, d2, i);
                proof {
                    offer_keeps_nearest(items, k as nat, was, encodings(d), i);
                    now = was.insert(i);
                }
            }
        }
        proof {
            assert(bucket.take(bucket.len() as int) =~= bucket);
            assert forall|i: u32| #[trigger] now.contains(i) <==> self.offered(
                d,
                r2,
                t@,
                ring as int,
                cells@,
                a + 1,
                i,
            ) by {
                if eligible(d, n, r2, i as usize) {
                    let h = self.home@[i as int]@;
                    let short = cells@.take(a as int);
                    let long = cells@.take(a + 1);
                    assert(has_cell(long, h) <==> has_cell(short, h) || h == cell) by {
                        if has_cell(long, h) {
                            let x = choose|x: int| 0 <= x < long.len() && (#[trigger] long[x])@ == h;
                            if x < a {
                                assert(short[x]@ == h);
                            }
                        }
                        if has_cell(short, h) {
                            let x = choose|x: int|
                                0 <= x < short.len() && (#[trigger] short[x])@ == h;
                            assert(long[x]@ == h);
                        }
                        assert(long[a as int]@ == cell);
                    }
                    assert(self.buckets@[b as int]@.contains(i) <==> i < self.home.len() && flat(
                        h,
                        self.n@,
                        dims,
                    ) == b);
                    if bucket.contains(i) {
                        flat_is_injective(h, cell, self.n@, dims);
                        assert(h =~= cell);
                    }
                }
            }
        }
        Ghost(now)
    }

    /// Up-to-`k` nearest inserted points, optionally within a radius.
    ///
    /// `raw` are the cell coordinates of the target, `dist(i)` the squared
    /// distance of point `i` from it, `reach(ring)` a bound on the squared
    /// distance to anything in the shell at that ring, and `r2` the square of
    /// the radius.
    pub fn k_nearest<F: Fn(usize) -> Double, R: Fn(usize) -> Double>(
        &self,
        raw: &Vec<isize>,
        k: usize,
        r2: Option<Double>,
        dist: F,
        reach: R,
    ) -> (found: Vec<usize>)
        requires
            self.well_formed(),
            raw.len() == self.shape().len(),
            computes(dist, self.cells().len(), function_of(dist)),
            forall|ring: usize| #[trigger] call_requires(reach, (ring,)),
        ensures
            within_reach(found@, k as nat, function_of(dist), self.cells().len(), limit(r2)),
            self.reach_is_sound(raw@, function_of(dist), reach) ==> k_nearest_of(
                found@,
                k as nat,
                function_of(dist),
                self.cells().len(),
                limit(r2),
            ),
            follows(reach, function_of(reach)) ==> found@ == ring_search(
                self.shape(),
                self.cells(),
                raw@,
                k as nat,
                r2,
                function_of(dist),
                function_of(reach),
            ),
    {
        self.k_nearest_by(
            raw,
            k,
            r2,
            &dist,
            &reach,
            Ghost(function_of(dist)),
            Ghost(function_of(reach)),
        )
    }

    /// [`Buckets::k_nearest`] in terms of the function that `dist` computes.
    pub(crate) fn k_nearest_by<F: Fn(usize) -> Double, R: Fn(usize) -> Double>(
        &self,
        raw: &Vec<isize>,
        k: usize,
        r2: Option<Double>,
        dist: &F,
        reach: &R,
        Ghost(d): Ghost<Distance>,
        Ghost(bounds): Ghost<Distance>,
    ) -> (found: Vec<usize>)
        requires
            self.well_formed(),
            raw.len() == self.shape().len(),
            computes(*dist, self.cells().len(), d),
            forall|ring: usize| #[trigger] call_requires(*reach, (ring,)),
        ensures
            within_reach(found@, k as nat, d, self.cells().len(), limit(r2)),
            self.reach_is_sound(raw@, d, *reach) ==> k_nearest_of(
                found@,
                k as nat,
                d,
                self.cells().len(),
                limit(r2),
            ),
            follows(*reach, bounds) ==> found@ == ring_search(
                self.shape(),
                self.cells(),
                raw@,
                k as nat,
                r2,
                d,
                bounds,
            ),
    {
        if k == 0 || self.home.len() == 0 {
            assert(self.cells().len() == self.home.len());
            return Vec::new();
        }
        let bound: Double = match r2 {
            Some(r) => r,
            None => Double::infinity(),
        };
        let t: Vec<usize> = self.cell_of(raw);
        let mut max_ring: usize = 1;
        for d in 0..self.n.len()
            invariant
                max_ring >= 1,
                forall|e: int| 0 <= e < d ==> (#[trigger] self.n@[e]) <= max_ring,
                max_ring == longest(self.n@, d as int),
        {
            if self.n[d] > max_ring {
                max_ring = self.n[d];
            }
        }
        let mut heap: Vec<Entry> = Vec::new();
        let ghost mut seen = Set::<u32>::empty();
        let ghost n = self.home@.len();
        let ghost dims = self.n@.len() as int;
        let ghost sound = self.reach_is_sound(raw@, d, *reach);
        let mut ring: usize = 0;
        let mut go: bool = true;
        let ghost certain = follows(*reach, bounds);
        let ghost whole = after_rings(
            Seq::empty(),
            k as nat,
            self.n@,
            t@,
            self.cells(),
            d,
            bound,
            bounds,
            0,
        );
        assert(bound == limit(r2));
        while go && ring <= max_ring
            invariant
                certain == follows(*reach, bounds),
                max_ring == longest(self.n@, self.n@.len() as int),
                certain ==> whole == if go {
                    after_rings(
                        heap@,
                        k as nat,
                        self.n@,
                        t@,
                        self.cells(),
                        d,
                        bound,
                        bounds,
                        ring as nat,
                    )
                } else {
                    heap@
                },
                self.well_formed(),
                k > 0,
                max_ring >= 1,
                n == self.home@.len(),
                dims == self.n@.len(),
                raw.len() == self.n.len(),
                in_grid(t@, self.n@),
                t@ == nearest_cell(raw@, self.n@),
                forall|e: int| 0 <= e < self.n.len() ==> (#[trigger] self.n@[e]) <= max_ring,
                sound == self.reach_is_sound(raw@, d, *reach),
                computes(*dist, n, d),
                forall|r: usize| #[trigger] call_requires(*reach, (r,)),
                nearest_of(heap@, k as nat, seen, encodings(d)),
                forall|i: u32| #[trigger] seen.contains(i) ==> eligible(d, n, bound, i as usize),
                go ==> forall|i: u32| #[trigger]
                    seen.contains(i) <==> eligible(d, n, bound, i as usize) && chebyshev(
                        self.home@[i as int]@,
                        t@,
                        dims,
                    ) < ring,
                !go ==> (sound ==> forall|i: u32|
                    eligible(d, n, bound, i as usize) ==> #[trigger] seen.contains(i)),
                ring <= max_ring,
            decreases (if go { 1int } else { 0int }), max_ring + 1 - ring,
        {
            let g: Double = reach(ring);
            assert(certain ==> g == bounds(ring));
            let worst: Double = heap_worst(&heap, k);
            assert(worst == (Double { bits: worst_bits(heap@, k as nat) }));
            if worst.min(bound).lt(g) {
                proof {
                    let enc = encodings(d);
                    let far = Set::new(
                        |i: u32| sound && eligible(d, n, bound, i as usize) && !seen.contains(i),
                    );
                    assert forall|i: u32| #[trigger] far.contains(i) implies heap.len() == k
                        && heap@.last().0 <= enc(i) by {
                        assert(self.cells()[i as int] == self.home@[i as int]@);
                        assert(!d(i as usize).nan());
                        assert(g.at_most(d(i as usize)));
                        if heap.len() == k {
                            assert(seen.contains(heap@[heap.len() - 1].1));
                        }
                    }
                    assert(far == Set::<u32>::empty() || heap.len() == k) by {
                        if heap.len() != k {
                            assert(far =~= Set::<u32>::empty());
                        }
                    }
                    lemma_skip(heap@, k as nat, seen, far, enc);
                    let before = seen;
                    seen = seen.union(far);
                    assert forall|i: u32| eligible(
                        d,
                        n,
                        bound,
                        i as usize,
                    ) && sound implies #[trigger] seen.contains(i) by {
                        if !before.contains(i) {
                            assert(far.contains(i));
                        }
                    }
                }
                go = false;
            } else {
                let cells: Vec<Vec<usize>> = shell_cells(&self.n, &t, ring);
                let ghost start = heap@;
                let ghost visits = cells_listed(cells@);
                assert(start == after_cells(
                    start,
                    k as nat,
                    visits.take(0),
                    self.cells(),
                    d,
                    bound,
                ));
                proof {
                    assert(cells@.take(0) =~= Seq::<Vec<usize>>::empty());
                    assert forall|i: u32| #[trigger] seen.contains(i) <==> self.offered(
                        d,
                        bound,
                        t@,
                        ring as int,
                        cells@,
                        0,
                        i,
                    ) by {}
                }
                for a in 0..cells.len()
                    invariant
                        self.well_formed(),
                        k > 0,
                        n == self.home@.len(),
                        dims == self.n@.len(),
                        computes(*dist, n, d),
                        cells_differ(cells@),
                        forall|c: Seq<usize>| #[trigger]
                            has_cell(cells@, c) <==> in_grid(c, self.n@) && chebyshev(c, t@, dims)
                                == ring,
                        nearest_of(heap@, k as nat, seen, encodings(d)),
                        visits == cells_listed(cells@),
                        heap@ == after_cells(
                            start,
                            k as nat,
                            visits.take(a as int),
                            self.cells(),
                            d,
                            bound,
                        ),
                        forall|i: u32| #[trigger]
                            seen.contains(i) <==> self.offered(
                                d,
                                bound,
                                t@,
                                ring as int,
                                cells@,
                                a as int,
                                i,
                            ),
                {
                    assert(has_cell(cells@, cells@[a as int]@));
                    assert(visits.take(a + 1).drop_last() =~= visits.take(a as int));
                    assert(visits.take(a + 1).last() == cells@[a as int]@);
                    let Ghost(more) = self.offer_cell(
                        dist,
                        bound,
                        &t,
                        ring,
                        &cells,
                        a,
                        k,
                        &mut heap,
                        Ghost(d),
                        Ghost(seen),
                    );
                    proof {
                        seen = more;
                    }
                }
                proof {
                    assert(cells@.take(cells.len() as int) =~= cells@);
                    assert(visits.take(visits.len() as int) =~= visits);
                    assert(visits == shell_list(self.n@, t@, ring as int));
                    let next = after_rings(
                        heap@,
                        k as nat,
                        self.n@,
                        t@,
                        self.cells(),
                        d,
                        bound,
                        bounds,
                        ring as nat + 1,
                    );
                    assert(certain ==> whole == next);
                    assert(ring == max_ring ==> next == heap@);
                    assert forall|i: u32| #[trigger] seen.contains(i) <==> eligible(
                        d,
                        n,
                        bound,
                        i as usize,
                    ) && chebyshev(self.home@[i as int]@, t@, dims) < ring + 1 by {
                        if i < n {
                            assert(in_grid(self.home@[i as int]@, self.n@));
                            assert(has_cell(cells@, self.home@[i as int]@) <==> chebyshev(
                                self.home@[i as int]@,
                                t@,
                                dims,
                            ) == ring);
                        }
                    }
                }
                if ring == max_ring {
                    proof {
                        assert forall|i: u32| eligible(
                            d,
                            n,
                            bound,
                            i as usize,
                        ) implies #[trigger] seen.contains(i) by {
                            let h = self.home@[i as int]@;
                            assert(in_grid(h, self.n@));
                            lemma_chebyshev(h, t@, dims);
                            let w = choose|w: int|
                                0 <= w < dims && apart(#[trigger] h[w], t@[w]) == chebyshev(
                                    h,
                                    t@,
                                    dims,
                                );
                            assert(h[w] < self.n@[w]);
                            assert(t@[w] < self.n@[w]);
                            assert(self.n@[w] <= max_ring);
                        }
                    }
                    go = false;
                } else {
                    ring = ring + 1;
                }
            }
        }
        let ghost items = heap@;
        let found: Vec<usize> = into_sorted(heap);
        proof {
            assert(self.cells().len() == n);
            lemma_candidates_to_found(items, found@, k as nat, seen, d, n, bound);
        }
        found
    }

    /// `reach` bounds distances from below: no point in the shell at a ring
    /// around the target's cell, or beyond it, is nearer than the bound.
    pub open spec fn reach_is_sound<R: Fn(usize) -> Double>(
        &self,
        raw: Seq<isize>,
        d: Distance,
        reach: R,
    ) -> bool {
        forall|i: usize, ring: usize, g: Double|
            #![trigger d(i), call_ensures(reach, (ring,), g)]
            i < self.cells().len() && call_ensures(reach, (ring,), g) && ring <= chebyshev(
                self.cells()[i as int],
                nearest_cell(raw, self.shape()),
                self.shape().len() as int,
            ) ==> d(i).nan() || g.at_most(d(i))
    }
}

} // verus!
