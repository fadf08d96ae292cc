//! Static kd-tree over a fixed set of points.

use vstd::prelude::*;

use crate::arith::{Arithmetic, Op};
use crate::data::{finite_point, finite_points};
use crate::double::Double;
use crate::order::sort_positions;
use crate::search::{heap_worst, into_sorted, push_candidate, Entry};
use crate::search::{
    computes, eligible, encodings, function_of, k_nearest_of, lemma_candidates_to_found,
    lemma_skip, nearest_of, offer_keeps_nearest, within_reach, Distance,
};

verus! {

/// Static D-dimensional kd-tree over a fixed set of points: `idx` lists the
/// points so that the middle of every range splits it along that range's axis.
pub struct KdTree<const D: usize> {
    idx: Vec<u32>,
    coords: Vec<[Double; D]>,
}

/// Place of point `i` along `axis` under the total order of doubles.
pub open spec fn along<const D: usize>(coords: Seq<[Double; D]>, i: int, axis: int) -> int {
    coords[i]@[axis].total()
}

/// The middle of `lo..hi` separates the points before it from those after it
/// along `axis`, and so on in both halves along the next axis.
pub open spec fn splits<const D: usize>(
    idx: Seq<u32>,
    coords: Seq<[Double; D]>,
    lo: int,
    hi: int,
    axis: int,
) -> bool
    decreases hi - lo,
{
    hi - lo <= 1 || {
        let mid = lo + (hi - lo) / 2;
        &&& forall|a: int|
            lo <= a < mid ==> along(coords, (#[trigger] idx[a]) as int, axis) <= along(
                coords,
                idx[mid] as int,
                axis,
            )
        &&& forall|a: int|
            mid < a < hi ==> along(coords, (#[trigger] idx[a]) as int, axis) >= along(
                coords,
                idx[mid] as int,
                axis,
            )
        &&& splits(idx, coords, lo, mid, (axis + 1) % (D as int))
        &&& splits(idx, coords, mid + 1, hi, (axis + 1) % (D as int))
    }
}

/// Seen from `target`, point `i` lies on the far side of the split at point
/// `m` along `axis`.
pub open spec fn beyond<const D: usize>(
    coords: Seq<[Double; D]>,
    target: [Double; D],
    axis: int,
    m: int,
    i: int,
) -> bool {
    if target@[axis].at_most(coords[m]@[axis]) {
        along(coords, m, axis) <= along(coords, i, axis)
    } else {
        along(coords, i, axis) <= along(coords, m, axis)
    }
}

/// `gap` bounds distances from below: nothing beyond the split at a point is
/// nearer to `target` than the gap to that split.
pub open spec fn gap_is_sound<const D: usize, G: Fn(usize, usize) -> Double>(
    coords: Seq<[Double; D]>,
    target: [Double; D],
    d: Distance,
    gap: G,
) -> bool {
    forall|m: usize, i: usize, axis: usize, g: Double|
        #![trigger call_ensures(gap, (m, axis), g), d(i)]
        m < coords.len() && i < coords.len() && axis < D && call_ensures(gap, (m, axis), g)
            && beyond(coords, target, axis as int, m as int, i as int) ==> d(i).nan()
            || g.at_most(d(i))
}

/// No point is listed twice, and every one of the `n` points is listed.
pub open spec fn lists_all(idx: Seq<u32>, n: nat) -> bool {
    &&& idx.len() == n
    &&& idx.no_duplicates()
    &&& forall|a: int| 0 <= a < n ==> (#[trigger] idx[a]) < n
    &&& forall|i: u32| i < n ==> #[trigger] idx.contains(i)
}

proof fn lemma_splits_frame<const D: usize>(
    a: Seq<u32>,
    b: Seq<u32>,
    coords: Seq<[Double; D]>,
    lo: int,
    hi: int,
    axis: int,
)
    requires
        0 <= lo <= hi <= a.len(),
        a.len() == b.len(),
        forall|i: int| lo <= i < hi ==> a[i] == b[i],
        splits(a, coords, lo, hi, axis),
    ensures
        splits(b, coords, lo, hi, axis),
    decreases hi - lo,
{
    if hi - lo > 1 {
        let mid = lo + (hi - lo) / 2;
        lemma_splits_frame(a, b, coords, lo, mid, (axis + 1) % (D as int));
        lemma_splits_frame(a, b, coords, mid + 1, hi, (axis + 1) % (D as int));
    }
}

/// `x` stands somewhere in `lo..hi`.
spec fn held(a: Seq<u32>, lo: int, hi: int, x: u32) -> bool {
    exists|j: int| lo <= j < hi && #[trigger] a[j] == x
}

/// `b` rearranges `a` inside `lo..hi` and agrees with it elsewhere.
spec fn rearranged(a: Seq<u32>, b: Seq<u32>, lo: int, hi: int) -> bool {
    &&& a.len() == b.len()
    &&& forall|i: int| 0 <= i < a.len() && !(lo <= i < hi) ==> a[i] == #[trigger] b[i]
    &&& forall|x: u32| #[trigger] held(a, lo, hi, x) == held(b, lo, hi, x)
    &&& a.no_duplicates() ==> b.no_duplicates()
}

proof fn lemma_held_split(a: Seq<u32>, lo: int, hi: int, lo2: int, hi2: int, x: u32)
    requires
        lo <= lo2 <= hi2 <= hi,
    ensures
        held(a, lo, hi, x) <==> held(a, lo, lo2, x) || held(a, lo2, hi2, x) || held(
            a,
            hi2,
            hi,
            x,
        ),
{
    if held(a, lo, hi, x) {
        let j = choose|j: int| lo <= j < hi && #[trigger] a[j] == x;
        assert(a[j] == x);
    }
}

proof fn lemma_held_frame(a: Seq<u32>, b: Seq<u32>, lo: int, hi: int, x: u32)
    requires
        forall|i: int| lo <= i < hi ==> a[i] == #[trigger] b[i],
    ensures
        held(a, lo, hi, x) == held(b, lo, hi, x),
{
    if held(a, lo, hi, x) {
        let j = choose|j: int| lo <= j < hi && #[trigger] a[j] == x;
        assert(b[j] == x);
    }
    if held(b, lo, hi, x) {
        let j = choose|j: int| lo <= j < hi && #[trigger] b[j] == x;
        assert(a[j] == x);
    }
}

proof fn lemma_rearranged_chain(
    a: Seq<u32>,
    b: Seq<u32>,
    c: Seq<u32>,
    lo: int,
    hi: int,
    lo2: int,
    hi2: int,
)
    requires
        rearranged(a, b, lo, hi),
        rearranged(b, c, lo2, hi2),
        0 <= lo <= lo2 <= hi2 <= hi <= a.len(),
    ensures
        rearranged(a, c, lo, hi),
{
    assert forall|x: u32| #[trigger] held(a, lo, hi, x) == held(c, lo, hi, x) by {
        lemma_held_split(b, lo, hi, lo2, hi2, x);
        lemma_held_split(c, lo, hi, lo2, hi2, x);
        lemma_held_frame(b, c, lo, lo2, x);
        lemma_held_frame(b, c, hi2, hi, x);
        assert(held(b, lo2, hi2, x) == held(c, lo2, hi2, x));
        assert(held(a, lo, hi, x) == held(b, lo, hi, x));
    }
    assert forall|i: int| 0 <= i < a.len() && !(lo <= i < hi) implies a[i] == #[trigger] c[i] by {
        assert(b[i] == c[i]);
    }
}

/// Where the rearranged list holds only what it held there before.
proof fn lemma_rearranged_source(a: Seq<u32>, b: Seq<u32>, lo: int, hi: int, i: int) -> (j: int)
    requires
        rearranged(a, b, lo, hi),
        lo <= i < hi,
    ensures
        lo <= j < hi,
        a[j] == b[i],
{
    assert(b[i] == b[i]);
    assert(held(b, lo, hi, b[i]));
    assert(held(a, lo, hi, b[i]));
    choose|j: int| lo <= j < hi && #[trigger] a[j] == b[i]
}

fn build_rec<const D: usize>(
    idx: &mut Vec<u32>,
    coords: &Vec<[Double; D]>,
    lo: usize,
    hi: usize,
    axis: usize,
)
    requires
        0 < D,
        axis < D,
        lo <= hi <= old(idx).len(),
        forall|a: int| 0 <= a < old(idx).len() ==> (#[trigger] old(idx)@[a]) < coords.len(),
    ensures
        rearranged(old(idx)@, final(idx)@, lo as int, hi as int),
        splits(final(idx)@, coords@, lo as int, hi as int, axis as int),
    decreases hi - lo,
{
    if hi - lo <= 1 {
        return ;
    }
    let ghost start = idx@;
    let mid: usize = lo + (hi - lo) / 2;
    let next: usize = (axis + 1) % D;
    // Arrange the range along this axis.
    let mut keys: Vec<i64> = Vec::new();
    let mut old_part: Vec<u32> = Vec::new();
    for a in lo..hi
        invariant
            axis < D,
            lo <= hi <= idx.len(),
            idx@ == start,
            forall|b: int| 0 <= b < start.len() ==> (#[trigger] start[b]) < coords.len(),
            keys.len() == a - lo,
            old_part@ =~= start.subrange(lo as int, a as int),
            forall|b: int|
                0 <= b < keys.len() ==> #[trigger] keys@[b] == along(
                    coords@,
                    start[lo + b] as int,
                    axis as int,
                ),
    {
        let i: u32 = idx[a];
        keys.push(coords[i as usize][axis].total_key());
        old_part.push(i);
    }
    let order: Vec<usize> = sort_positions(&keys);
    for a in lo..hi
        invariant
            lo <= hi <= idx.len(),
            idx.len() == start.len(),
            order.len() == hi - lo,
            old_part@ == start.subrange(lo as int, hi as int),
            forall|b: int| 0 <= b < order.len() ==> (#[trigger] order@[b]) < hi - lo,
            forall|b: int| 0 <= b < lo ==> idx@[b] == start[b],
            forall|b: int| a <= b < idx.len() ==> idx@[b] == start[b],
            forall|b: int| lo <= b < a ==> idx@[b] == start[lo + order@[b - lo]],
    {
        let p: usize = order[a - lo];
        assert(start.subrange(lo as int, hi as int)[p as int] == start[lo + p]);
        idx.set(a, old_part[p]);
    }
    let ghost sorted = idx@;
    proof {
        assert forall|x: u32| #[trigger] held(start, lo as int, hi as int, x) == held(
            sorted,
            lo as int,
            hi as int,
            x,
        ) by {
            if held(sorted, lo as int, hi as int, x) {
                let i = choose|i: int| lo <= i < hi && #[trigger] sorted[i] == x;
                assert(start[lo + order@[i - lo]] == x);
            }
            if held(start, lo as int, hi as int, x) {
                let i = choose|i: int| lo <= i < hi && #[trigger] start[i] == x;
                assert(order@.contains((i - lo) as usize));
                let q = choose|q: int| 0 <= q < order.len() && order@[q] == (i - lo) as usize;
                assert(sorted[lo + q] == x);
            }
        }
        if start.no_duplicates() {
            assert forall|i: int, j: int|
                0 <= i < j < sorted.len() implies sorted[i] != sorted[j] by {
                let pi = if lo <= i < hi { lo + order@[i - lo] } else { i };
                let pj = if lo <= j < hi { lo + order@[j - lo] } else { j };
                assert(start[pi] == sorted[i]);
                assert(start[pj] == sorted[j]);
                if lo <= i < hi && lo <= j < hi {
                    assert(crate::order::precedes(keys@, order@[i - lo], order@[j - lo]));
                }
                assert(pi != pj);
            }
        }
        assert(rearranged(start, sorted, lo as int, hi as int));
        assert forall|a: int| lo <= a < hi implies along(
            coords@,
            (#[trigger] sorted[a]) as int,
            axis as int,
        ) == keys@[order@[a - lo] as int] by {
            assert(start[lo + order@[a - lo]] == sorted[a]);
        }
        assert forall|a: int| lo <= a < mid implies along(
            coords@,
            (#[trigger] sorted[a]) as int,
            axis as int,
        ) <= along(coords@, sorted[mid as int] as int, axis as int) by {
            assert(crate::order::precedes(keys@, order@[a - lo], order@[mid - lo]));
        }
        assert forall|a: int| mid < a < hi implies along(
            coords@,
            (#[trigger] sorted[a]) as int,
            axis as int,
        ) >= along(coords@, sorted[mid as int] as int, axis as int) by {
            assert(crate::order::precedes(keys@, order@[mid - lo], order@[a - lo]));
        }
    }
    assert forall|a: int| 0 <= a < idx.len() implies (#[trigger] idx@[a]) < coords.len() by {
        if lo <= a < hi {
            let j = lemma_rearranged_source(start, sorted, lo as int, hi as int, a);
            assert(start[j] < coords.len());
        } else {
            assert(start[a] == sorted[a]);
        }
    }
    build_rec(idx, coords, lo, mid, next);
    let ghost half = idx@;
    assert forall|a: int| 0 <= a < idx.len() implies (#[trigger] idx@[a]) < coords.len() by {
        if lo <= a < mid {
            let j = lemma_rearranged_source(sorted, half, lo as int, mid as int, a);
            assert(sorted[j] < coords.len());
        } else {
            assert(sorted[a] == half[a]);
        }
    }
    build_rec(idx, coords, mid + 1, hi, next);
    proof {
        lemma_rearranged_chain(start, sorted, half, lo as int, hi as int, lo as int, mid as int);
        lemma_rearranged_chain(start, half, idx@, lo as int, hi as int, mid + 1, hi as int);
        assert(idx@[mid as int] == sorted[mid as int]);
        assert forall|a: int| lo <= a < mid implies along(
            coords@,
            (#[trigger] idx@[a]) as int,
            axis as int,
        ) <= along(coords@, idx@[mid as int] as int, axis as int) by {
            assert(half[a] == idx@[a]);
            let j = lemma_rearranged_source(sorted, half, lo as int, mid as int, a);
        }
        assert forall|a: int| mid < a < hi implies along(
            coords@,
            (#[trigger] idx@[a]) as int,
            axis as int,
        ) >= along(coords@, idx@[mid as int] as int, axis as int) by {
            let j = lemma_rearranged_source(half, idx@, mid + 1, hi as int, a);
            assert(sorted[j] == half[j]);
        }
        lemma_splits_frame(half, idx@, coords@, lo as int, mid as int, next as int);
    }
}

impl<const D: usize> KdTree<D> {
    /// The points, in the order in which they were given.
    pub closed spec fn points(&self) -> Seq<[Double; D]> {
        self.coords@
    }

    /// Every point is listed once and every range is split along its axis.
    pub closed spec fn well_formed(&self) -> bool {
        &&& self.coords.len() <= u32::MAX
        &&& lists_all(self.idx@, self.coords@.len())
        &&& splits(self.idx@, self.coords@, 0, self.idx@.len() as int, 0)
    }

    /// Builds the tree by median splits, axis after axis.
    pub fn build(coords: Vec<[Double; D]>) -> (tree: Self)
        requires
            0 < D,
            coords.len() <= u32::MAX,
        ensures
            tree.well_formed(),
            tree.points() == coords@,
    {
        let mut idx: Vec<u32> = Vec::new();
        for i in 0..coords.len()
            invariant
                coords.len() <= u32::MAX,
                idx.len() == i,
                forall|a: int| 0 <= a < i ==> #[trigger] idx@[a] == a,
        {
            idx.push(i as u32);
        }
        let ghost start = idx@;
        let n: usize = idx.len();
        build_rec(&mut idx, &coords, 0, n, 0);
        proof {
            assert forall|i: u32| i < n implies #[trigger] idx@.contains(i) by {
                assert(start[i as int] == i);
                assert(held(start, 0, n as int, i));
                assert(held(idx@, 0, n as int, i));
            }
            assert forall|a: int| 0 <= a < n implies (#[trigger] idx@[a]) < n by {
                let j = lemma_rearranged_source(start, idx@, 0, n as int, a);
            }
        }
        KdTree { idx, coords }
    }

    /// Visits the range `lo..hi`; returns the points that count as seen.
    fn search<F: Fn(usize) -> Double, G: Fn(usize, usize) -> Double>(
        &self,
        lo: usize,
        hi: usize,
        axis: usize,
        target: &[Double; D],
        k: usize,
        r2: Double,
        dist: &F,
        gap: &G,
        heap: &mut Vec<Entry>,
        Ghost(d): Ghost<Distance>,
        Ghost(seen): Ghost<Set<u32>>,
    ) -> (now: Ghost<Set<u32>>)
        requires
            0 < D,
            axis < D,
            k > 0,
            self.well_formed(),
            lo <= hi <= self.idx.len(),
            splits(self.idx@, self.coords@, lo as int, hi as int, axis as int),
            computes(*dist, self.coords@.len(), d),
            forall|m: usize, a: usize|
                m < self.coords.len() && a < D ==> #[trigger] call_requires(*gap, (m, a)),
            nearest_of(old(heap)@, k as nat, seen, encodings(d)),
            forall|i: u32| #[trigger]
                seen.contains(i) ==> eligible(d, self.coords@.len(), r2, i as usize),
            forall|a: int| lo <= a < hi ==> !seen.contains(#[trigger] self.idx@[a]),
        ensures
            nearest_of(final(heap)@, k as nat, now@, encodings(d)),
            forall|i: u32| #[trigger] seen.contains(i) ==> now@.contains(i),
            forall|i: u32| #[trigger]
                now@.contains(i) ==> eligible(d, self.coords@.len(), r2, i as usize) && (
                seen.contains(i) || held(self.idx@, lo as int, hi as int, i)),
            gap_is_sound(self.coords@, *target, d, *gap) ==> forall|a: int|
                lo <= a < hi && eligible(
                    d,
                    self.coords@.len(),
                    r2,
                    (#[trigger] self.idx@[a]) as usize,
                ) ==> now@.contains(self.idx@[a]),
        decreases hi - lo,
    {
        if hi == lo {
            return Ghost(seen);
        }
        let ghost n = self.coords@.len();
        let ghost enc = encodings(d);
        let mid: usize = lo + (hi - lo) / 2;
        let m: u32 = self.idx[mid];
        assert(self.idx@[mid as int] < n);
        let d2: Double = dist(m as usize);
        let ghost mut mine = seen;
        if d2.le(r2) {
            push_candidate(heap, k, d2, m);
            proof {
                offer_keeps_nearest(old(heap)@, k as nat, seen, enc, m);
                mine = seen.insert(m);
            }
        }
        let near_is_left: bool = target[axis].le(self.coords[m as usize][axis]);
        let next: usize = (axis + 1) % D;
        let (nlo, nhi, flo, fhi): (usize, usize, usize, usize) = if near_is_left {
            (lo, mid, mid + 1, hi)
        } else {
            (mid + 1, hi, lo, mid)
        };
        proof {
            assert forall|a: int| nlo <= a < nhi implies !mine.contains(
                #[trigger] self.idx@[a],
            ) by {
                assert(self.idx@[a] != self.idx@[mid as int]);
            }
        }
        let Ghost(near_seen) = self.search(
            nlo,
            nhi,
            next,
            target,
            k,
            r2,
            dist,
            gap,
            heap,
            Ghost(d),
            Ghost(mine),
        );
        let g: Double = gap(m as usize, axis);
        proof {
            assert forall|a: int| flo <= a < fhi implies !near_seen.contains(
                #[trigger] self.idx@[a],
            ) by {
                assert(self.idx@[a] != self.idx@[mid as int]);
                if held(self.idx@, nlo as int, nhi as int, self.idx@[a]) {
                    let b = choose|b: int|
                        nlo <= b < nhi && #[trigger] self.idx@[b] == self.idx@[a];
                }
            }
        }
        if g.le(heap_worst(heap, k).min(r2)) {
            let Ghost(all_seen) = self.search(
                flo,
                fhi,
                next,
                target,
                k,
                r2,
                dist,
                gap,
                heap,
                Ghost(d),
                Ghost(near_seen),
            );
            proof {
                self.lemma_visited(lo, hi, mid as int, nlo, nhi, flo, fhi, seen, mine, near_seen, all_seen);
                if gap_is_sound(self.coords@, *target, d, *gap) {
                    assert forall|a: int|
                        lo <= a < hi && eligible(
                            d,
                            n,
                            r2,
                            (#[trigger] self.idx@[a]) as usize,
                        ) implies all_seen.contains(self.idx@[a]) by {
                        if a == mid {
                            assert(mine.contains(m));
                        } else if nlo <= a < nhi {
                            assert(near_seen.contains(self.idx@[a]));
                        }
                    }
                }
            }
            return Ghost(all_seen);
        }
        let ghost far = Set::new(
            |i: u32|
                held(self.idx@, flo as int, fhi as int, i) && eligible(d, n, r2, i as usize)
                    && gap_is_sound(self.coords@, *target, d, *gap),
        );
        proof {
            if gap_is_sound(self.coords@, *target, d, *gap) {
                assert forall|i: u32| #[trigger] far.contains(i) implies heap.len() == k
                    && heap@.last().0 <= enc(i) by {
                    let b = choose|b: int| flo <= b < fhi && #[trigger] self.idx@[b] == i;
                    assert(beyond(self.coords@, *target, axis as int, m as int, i as int));
                    assert(!d(i as usize).nan());
                    assert(g.at_most(d(i as usize)));
                    if heap.len() == k {
                        assert(near_seen.contains(heap@[heap.len() - 1].1));
                    }
                }
            }
            assert(far == Set::<u32>::empty() || heap.len() == k) by {
                if heap.len() != k {
                    assert(far =~= Set::<u32>::empty());
                }
            }
            lemma_skip(heap@, k as nat, near_seen, far, enc);
            let all_seen = near_seen.union(far);
            self.lemma_visited(lo, hi, mid as int, nlo, nhi, flo, fhi, seen, mine, near_seen, all_seen);
            if gap_is_sound(self.coords@, *target, d, *gap) {
                assert forall|a: int|
                    lo <= a < hi && eligible(
                        d,
                        n,
                        r2,
                        (#[trigger] self.idx@[a]) as usize,
                    ) implies all_seen.contains(self.idx@[a]) by {
                    if a == mid {
                        assert(mine.contains(m));
                    } else if nlo <= a < nhi {
                        assert(near_seen.contains(self.idx@[a]));
                    } else {
                        assert(held(self.idx@, flo as int, fhi as int, self.idx@[a]));
                        assert(far.contains(self.idx@[a]));
                    }
                }
            }
        }
        Ghost(near_seen.union(far))
    }

    /// What has been seen after both halves, in terms of the whole range.
    proof fn lemma_visited(
        &self,
        lo: usize,
        hi: usize,
        mid: int,
        nlo: usize,
        nhi: usize,
        flo: usize,
        fhi: usize,
        seen: Set<u32>,
        mine: Set<u32>,
        near_seen: Set<u32>,
        all_seen: Set<u32>,
    )
        requires
            lo <= mid < hi <= self.idx.len(),
            (nlo == lo && nhi == mid && flo == mid + 1 && fhi == hi) || (nlo == mid + 1 && nhi == hi
                && flo == lo && fhi == mid),
            mine == seen || mine == seen.insert(self.idx@[mid]),
            forall|i: u32| #[trigger] mine.contains(i) ==> near_seen.contains(i),
            forall|i: u32| #[trigger] near_seen.contains(i) ==> all_seen.contains(i),
            forall|i: u32| #[trigger]
                near_seen.contains(i) ==> mine.contains(i) || held(
                    self.idx@,
                    nlo as int,
                    nhi as int,
                    i,
                ),
            forall|i: u32| #[trigger]
                all_seen.contains(i) ==> near_seen.contains(i) || held(
                    self.idx@,
                    flo as int,
                    fhi as int,
                    i,
                ),
        ensures
            forall|i: u32| #[trigger] seen.contains(i) ==> all_seen.contains(i),
            forall|i: u32| #[trigger]
                all_seen.contains(i) ==> seen.contains(i) || held(
                    self.idx@,
                    lo as int,
                    hi as int,
                    i,
                ),
    {
        assert forall|i: u32| #[trigger] seen.contains(i) implies all_seen.contains(i) by {
            assert(mine.contains(i));
            assert(near_seen.contains(i));
        }
        assert forall|i: u32| #[trigger] all_seen.contains(i) implies seen.contains(i) || held(
            self.idx@,
            lo as int,
            hi as int,
            i,
        ) by {
            lemma_held_split(self.idx@, lo as int, hi as int, mid, mid + 1, i);
            if mine.contains(i) && !seen.contains(i) {
                assert(self.idx@[mid] == i);
                assert(held(self.idx@, mid, mid + 1, i));
            }
        }
    }

    /// Up-to-`k` nearest points to `target`, optionally within a radius.
    ///
    /// `dist(i)` is the squared distance of point `i` from the target,
    /// `gap(m, axis)` the squared distance from the target to the split at
    /// point `m` along `axis`, and `r2` the square of the radius.
    pub fn k_nearest<F: Fn(usize) -> Double, G: Fn(usize, usize) -> Double>(
        &self,
        target: [Double; D],
        k: usize,
        r2: Option<Double>,
        dist: F,
        gap: G,
    ) -> (found: Vec<usize>)
        requires
            0 < D,
            self.well_formed(),
            computes(dist, self.points().len(), function_of(dist)),
            forall|m: usize, a: usize|
                m < self.points().len() && a < D ==> #[trigger] call_requires(gap, (m, a)),
        ensures
            within_reach(found@, k as nat, function_of(dist), self.points().len(), limit(r2)),
            gap_is_sound(self.points(), target, function_of(dist), gap) ==> k_nearest_of(
                found@,
                k as nat,
                function_of(dist),
                self.points().len(),
                limit(r2),
            ),
    {
        self.k_nearest_by(target, k, r2, &dist, &gap, Ghost(function_of(dist)))
    }

    /// [`KdTree::k_nearest`] in terms of the function that `dist` computes.
    pub(crate) fn k_nearest_by<F: Fn(usize) -> Double, G: Fn(usize, usize) -> Double>(
        &self,
        target: [Double; D],
        k: usize,
        r2: Option<Double>,
        dist: &F,
        gap: &G,
        Ghost(d): Ghost<Distance>,
    ) -> (found: Vec<usize>)
        requires
            0 < D,
            self.well_formed(),
            computes(*dist, self.points().len(), d),
            forall|m: usize, a: usize|
                m < self.points().len() && a < D ==> #[trigger] call_requires(*gap, (m, a)),
        ensures
            within_reach(found@, k as nat, d, self.points().len(), limit(r2)),
            gap_is_sound(self.points(), target, d, *gap) ==> k_nearest_of(
                found@,
                k as nat,
                d,
                self.points().len(),
                limit(r2),
            ),
    {
        if k == 0 || self.idx.len() == 0 {
            return Vec::new();
        }
        let bound: Double = match r2 {
            Some(r) => r,
            None => Double::infinity(),
        };
        let mut heap: Vec<Entry> = Vec::new();
        let n: usize = self.idx.len();
        let ghost none = Set::<u32>::empty();
        let Ghost(seen) = self.search(
            0,
            n,
            0,
            &target,
            k,
            bound,
            dist,
            gap,
            &mut heap,
            Ghost(d),
            Ghost(none),
        );
        let ghost items = heap@;
        let found: Vec<usize> = into_sorted(heap);
        proof {
            lemma_candidates_to_found(items, found@, k as nat, seen, d, n as nat, bound);
            if gap_is_sound(self.points(), target, d, *gap) {
                assert forall|i: u32| eligible(
                    d,
                    n as nat,
                    bound,
                    i as usize,
                ) implies #[trigger] seen.contains(i) by {
                    assert(self.idx@.contains(i));
                    let a = choose|a: int| 0 <= a < n && self.idx@[a] == i;
                    assert(seen.contains(self.idx@[a]));
                }
            }
        }
        found
    }
}

/// Squared distances of points from a target.
pub open spec fn spread<const D: usize, F: Fn(Op, Double, Double) -> Double>(
    ar: Arithmetic<F>,
    coords: Seq<[Double; D]>,
    target: [Double; D],
) -> Distance {
    |i: usize| ar.distance2(coords[i as int], target)
}

impl<const D: usize> KdTree<D> {
    /// Up-to-`k` nearest points to `target`, optionally within a radius,
    /// nearest first.
    pub fn nearest<F: Fn(Op, Double, Double) -> Double>(
        &self,
        target: [Double; D],
        k: usize,
        radius: Option<Double>,
        ar: &Arithmetic<F>,
    ) -> (found: Vec<usize>)
        requires
            0 < D,
            self.well_formed(),
            finite_points(self.points()),
            ar.ieee(),
        ensures
            k_nearest_of(
                found@,
                k as nat,
                spread(*ar, self.points(), target),
                self.points().len(),
                limit(ar.square_radius(radius)),
            ),
            forall|i: int| 0 <= i < found.len() ==> (#[trigger] found@[i]) < self.points().len(),
    {
        let coords: &Vec<[Double; D]> = &self.coords;
        let dist = |i: usize| -> (r: Double)
            requires
                i < coords.len(),
                ar.total(),
            ensures
                r == ar.distance2(coords@[i as int], target),
            { ar.dist2(&coords[i], &target) };
        let gap = |m: usize, axis: usize| -> (r: Double)
            requires
                m < coords.len(),
                axis < D,
                ar.total(),
            ensures
                r == ar.square(ar.minus(target@[axis as int], coords@[m as int]@[axis as int])),
            { ar.square(ar.minus(target[axis], coords[m][axis])) };
        let ghost d = spread(*ar, self.points(), target);
        proof {
            assert forall|i: usize| i < self.points().len() implies (#[trigger] d(i)).nan()
                || !d(i).negative() by {
                ar.lemma_gap2_sign(self.points()[i as int]@, target@, D as int);
            }
            assert(computes(dist, self.points().len(), d));
            assert(gap_is_sound(self.points(), target, d, gap)) by {
                assert forall|m: usize, i: usize, axis: usize, g: Double|
                    #![trigger call_ensures(gap, (m, axis), g), d(i)]
                    m < self.points().len() && i < self.points().len() && axis < D && call_ensures(
                        gap,
                        (m, axis),
                        g,
                    ) && beyond(self.points(), target, axis as int, m as int, i as int) implies d(
                    i,
                ).nan() || g.at_most(d(i)) by {
                    let p = self.points()[i as int]@;
                    let x = p[axis as int];
                    let c = self.points()[m as int]@[axis as int];
                    let t = target@[axis as int];
                    assert(finite_point(self.points()[i as int]));
                    assert(finite_point(self.points()[m as int]));
                    if t.nan() {
                        ar.lemma_gap2_nan(p, target@, D as int, axis as int);
                    } else {
                        ar.lemma_gap2(p, target@, D as int, axis as int);
                        crate::double::lemma_total_refines_below(c, x);
                        crate::double::lemma_total_refines_below(x, c);
                        let far = ar.squared(ar.difference(x, t));
                        let near = ar.squared(ar.difference(t, c));
                        assert((t.at_most(c) && c.at_most(x)) || (x.at_most(c) && c.at_most(t)));
                        assert(far.nan() || near.at_most(far));
                    }
                }
            }
        }
        self.k_nearest_by(target, k, ar.square_radius(radius), &dist, &gap, Ghost(d))
    }
}

/// The square of the search radius, infinite where there is no radius.
pub open spec fn limit(r2: Option<Double>) -> Double {
    match r2 {
        Some(r) => r,
        None => Double { bits: crate::double::INFINITE },
    }
}

} // verus!
