//! Spatial neighbor search: static kd-tree (kriging) and incremental
//! bucket grid (sequential simulation, where the conditioning set grows).
//!
//! Both return up-to-`k` nearest indices sorted by increasing distance,
//! optionally restricted to a search radius. Squared distances, and the lower
//! bounds by which whole regions are skipped, are handed in by the caller.

use vstd::prelude::*;

use crate::double::{Double, INFINITE};

verus! {

/// Candidate: encoding of a squared distance, and a point's index. Encodings
/// of non-negative doubles order as the doubles do.
pub type Entry = (u64, u32);

/// Lexicographic order of candidates.
pub open spec fn entry_before(a: Entry, b: Entry) -> bool {
    a.0 < b.0 || (a.0 == b.0 && a.1 < b.1)
}

/// Candidates in strictly ascending order.
pub open spec fn entries_ascend(items: Seq<Entry>) -> bool {
    forall|a: int, b: int|
        0 <= a < b < items.len() ==> entry_before(#[trigger] items[a], #[trigger] items[b])
}

/// Some candidate is the point `i`.
pub open spec fn listed(items: Seq<Entry>, i: u32) -> bool {
    exists|a: int| 0 <= a < items.len() && (#[trigger] items[a]).1 == i
}

/// `items` with `e` put at its place.
pub open spec fn with_entry(items: Seq<Entry>, e: Entry) -> Seq<Entry>
    decreases items.len(),
{
    if items.len() == 0 || entry_before(items.last(), e) {
        items.push(e)
    } else {
        with_entry(items.drop_last(), e).push(items.last())
    }
}

/// What offering `e` to a collection of at most `k` candidates leaves: a
/// collection that is not full takes it; a full one takes it only if it is
/// strictly nearer than the farthest, which then leaves.
pub open spec fn after_offer(items: Seq<Entry>, k: nat, e: Entry) -> Seq<Entry> {
    if items.len() < k {
        with_entry(items, e)
    } else if e.0 < items.last().0 {
        with_entry(items, e).drop_last()
    } else {
        items
    }
}

/// `items` are up-to-`k` nearest of the points in `seen`: all of them if fewer
/// than `k`, and otherwise none that was left out is nearer than one kept.
pub open spec fn nearest_of(
    items: Seq<Entry>,
    k: nat,
    seen: Set<u32>,
    d: spec_fn(u32) -> u64,
) -> bool {
    &&& items.len() <= k
    &&& entries_ascend(items)
    &&& forall|a: int|
        0 <= a < items.len() ==> seen.contains((#[trigger] items[a]).1) && items[a].0 == d(
            items[a].1,
        )
    &&& items.len() < k ==> forall|i: u32| #[trigger] seen.contains(i) ==> listed(items, i)
    &&& forall|i: u32, a: int|
        #[trigger] seen.contains(i) && !listed(items, i) && 0 <= a < items.len()
            ==> (#[trigger] items[a]).0 <= d(i)
}

proof fn lemma_with_entry(items: Seq<Entry>, e: Entry)
    requires
        entries_ascend(items),
        forall|a: int| 0 <= a < items.len() ==> #[trigger] items[a] != e,
    ensures
        with_entry(items, e).len() == items.len() + 1,
        entries_ascend(with_entry(items, e)),
        forall|x: Entry| #[trigger]
            with_entry(items, e).contains(x) <==> items.contains(x) || x == e,
    decreases items.len(),
{
    let w = with_entry(items, e);
    if items.len() == 0 || entry_before(items.last(), e) {
        assert forall|a: int, b: int| 0 <= a < b < w.len() implies entry_before(
            #[trigger] w[a],
            #[trigger] w[b],
        ) by {
            if b == items.len() && a < items.len() - 1 {
                assert(entry_before(items[a], items.last()));
            }
        }
        assert forall|x: Entry| #[trigger] w.contains(x) <==> items.contains(x) || x == e by {
            if items.contains(x) {
                let i = choose|i: int| 0 <= i < items.len() && items[i] == x;
                assert(w[i] == x);
            }
            assert(w[items.len() as int] == e);
        }
    } else {
        let short = items.drop_last();
        let last = items.last();
        lemma_with_entry(short, e);
        let ws = with_entry(short, e);
        assert(w == ws.push(last));
        assert(items[items.len() - 1] != e);
        assert forall|a: int, b: int| 0 <= a < b < w.len() implies entry_before(
            #[trigger] w[a],
            #[trigger] w[b],
        ) by {
            if b == ws.len() {
                assert(ws.contains(ws[a]));
                if ws[a] != e {
                    let i = choose|i: int| 0 <= i < short.len() && short[i] == ws[a];
                    assert(entry_before(items[i], items[items.len() - 1]));
                }
            } else {
                assert(entry_before(ws[a], ws[b]));
            }
        }
        assert forall|x: Entry| #[trigger] w.contains(x) <==> items.contains(x) || x == e by {
            if w.contains(x) {
                let i = choose|i: int| 0 <= i < w.len() && w[i] == x;
                if i < ws.len() {
                    assert(ws[i] == x);
                    assert(ws.contains(x));
                    if short.contains(x) {
                        let j = choose|j: int| 0 <= j < short.len() && short[j] == x;
                        assert(items[j] == x);
                    }
                } else {
                    assert(items[items.len() - 1] == x);
                }
            }
            if items.contains(x) {
                let i = choose|i: int| 0 <= i < items.len() && items[i] == x;
                if i < short.len() {
                    assert(short[i] == x);
                    assert(short.contains(x));
                    assert(ws.contains(x));
                    let j = choose|j: int| 0 <= j < ws.len() && ws[j] == x;
                    assert(w[j] == x);
                } else {
                    assert(w[ws.len() as int] == x);
                }
            }
            if x == e {
                assert(ws.contains(e));
                let j = choose|j: int| 0 <= j < ws.len() && ws[j] == e;
                assert(w[j] == e);
            }
        }
    }
}

/// Offering a point that was not seen before keeps [`nearest_of`], now with
/// that point among the seen.
pub proof fn offer_keeps_nearest(
    items: Seq<Entry>,
    k: nat,
    seen: Set<u32>,
    d: spec_fn(u32) -> u64,
    i: u32,
)
    requires
        k > 0,
        nearest_of(items, k, seen, d),
        !seen.contains(i),
    ensures
        nearest_of(after_offer(items, k, (d(i), i)), k, seen.insert(i), d),
{
    let e = (d(i), i);
    let seen2 = seen.insert(i);
    assert forall|a: int| 0 <= a < items.len() implies #[trigger] items[a] != e by {
        assert(seen.contains(items[a].1));
    }
    lemma_with_entry(items, e);
    let w = with_entry(items, e);
    let out = after_offer(items, k, e);
    assert forall|x: u32| listed(w, x) <==> listed(items, x) || x == i by {
        if listed(items, x) {
            let a = choose|a: int| 0 <= a < items.len() && (#[trigger] items[a]).1 == x;
            assert(items.contains(items[a]));
            assert(w.contains(items[a]));
            let b = choose|b: int| 0 <= b < w.len() && w[b] == items[a];
            assert(w[b].1 == x);
        }
        if x == i {
            assert(w.contains(e));
            let b = choose|b: int| 0 <= b < w.len() && w[b] == e;
            assert(w[b].1 == x);
        }
        if listed(w, x) {
            let b = choose|b: int| 0 <= b < w.len() && (#[trigger] w[b]).1 == x;
            assert(w.contains(w[b]));
            if w[b] != e {
                assert(items.contains(w[b]));
                let a = choose|a: int| 0 <= a < items.len() && items[a] == w[b];
                assert(items[a].1 == x);
            }
        }
    }
    assert forall|a: int| 0 <= a < w.len() implies seen2.contains((#[trigger] w[a]).1) && w[a].0
        == d(w[a].1) by {
        assert(w.contains(w[a]));
        if w[a] != e {
            assert(items.contains(w[a]));
            let b = choose|b: int| 0 <= b < items.len() && items[b] == w[a];
            assert(seen.contains(items[b].1));
        }
    }
    if items.len() < k {
        assert forall|x: u32, a: int|
            #[trigger] seen2.contains(x) && !listed(w, x) && 0 <= a < w.len() implies (
        #[trigger] w[a]).0 <= d(x) by {
            assert(seen.contains(x));
            assert(listed(items, x));
        }
        assert forall|x: u32| #[trigger] seen2.contains(x) implies listed(w, x) by {
            if x != i {
                assert(seen.contains(x));
            }
        }
    } else if e.0 < items.last().0 {
        assert(out == w.drop_last());
        // The entry that leaves is the farthest of the old ones.
        assert(w.last() == items.last()) by {
            assert(with_entry(items, e) == with_entry(items.drop_last(), e).push(items.last()));
        }
        assert forall|a: int, b: int| 0 <= a < b < out.len() implies entry_before(
            #[trigger] out[a],
            #[trigger] out[b],
        ) by {
            assert(entry_before(w[a], w[b]));
        }
        assert forall|a: int| 0 <= a < out.len() implies seen2.contains((#[trigger] out[a]).1)
            && out[a].0 == d(out[a].1) by {
            assert(out[a] == w[a]);
        }
        assert forall|x: u32, a: int|
            #[trigger] seen2.contains(x) && !listed(out, x) && 0 <= a < out.len() implies (
        #[trigger] out[a]).0 <= d(x) by {
            assert(out[a] == w[a]);
            assert(entry_before(w[a], w[w.len() - 1]));
            if listed(w, x) {
                let b = choose|b: int| 0 <= b < w.len() && (#[trigger] w[b]).1 == x;
                if b < out.len() {
                    assert(out[b].1 == x);
                }
                assert(b == w.len() - 1);
                assert(w[b].0 == d(w[b].1));
            } else {
                assert(seen.contains(x) && !listed(items, x));
                assert(items[items.len() - 1].0 <= d(x));
            }
        }
    } else {
        assert forall|x: u32, a: int|
            #[trigger] seen2.contains(x) && !listed(items, x) && 0 <= a < items.len() implies (
        #[trigger] items[a]).0 <= d(x) by {
            if x == i {
                if a < items.len() - 1 {
                    assert(entry_before(items[a], items[items.len() - 1]));
                }
            } else {
                assert(seen.contains(x));
            }
        }
    }
}

/// Offers point `idx` at squared distance `d2` to the candidates.
pub fn push_candidate(heap: &mut Vec<Entry>, k: usize, d2: Double, idx: u32)
    requires
        old(heap).len() <= k,
        k > 0,
    ensures
        final(heap)@ == after_offer(old(heap)@, k as nat, (d2.bits, idx)),
{
    let e: Entry = (d2.bits, idx);
    if heap.len() < k {
        insert_entry(heap, e);
    } else if d2.bits < heap[heap.len() - 1].0 {
        insert_entry(heap, e);
        let _ = heap.pop();
        assert(heap@ =~= with_entry(old(heap)@, e).drop_last());
    }
}

fn insert_entry(heap: &mut Vec<Entry>, e: Entry)
    ensures
        final(heap)@ == with_entry(old(heap)@, e),
{
    let ghost items = heap@;
    let mut pos: usize = heap.len();
    assert(items.take(pos as int) =~= items);
    assert(with_entry(items, e) =~= with_entry(items, e) + items.skip(pos as int));
    while pos > 0 && !(heap[pos - 1].0 < e.0 || (heap[pos - 1].0 == e.0 && heap[pos - 1].1 < e.1))
        invariant
            pos <= heap.len(),
            heap@ == items,
            with_entry(items, e) == with_entry(items.take(pos as int), e) + items.skip(pos as int),
        decreases pos,
    {
        pos = pos - 1;
        proof {
            let longer = items.take(pos + 1);
            assert(longer.drop_last() =~= items.take(pos as int));
            assert(items.skip(pos as int) =~= seq![items[pos as int]] + items.skip(pos + 1));
            assert(with_entry(longer, e) =~= with_entry(items.take(pos as int), e).push(
                items[pos as int],
            ));
            assert(with_entry(items, e) =~= with_entry(items.take(pos as int), e) + items.skip(
                pos as int,
            ));
        }
    }
    heap.insert(pos, e);
    assert(heap@ =~= items.take(pos as int).push(e) + items.skip(pos as int));
}

/// Squared distance that a new candidate must beat: that of the farthest of
/// `k` candidates, infinite while there are fewer.
pub fn heap_worst(heap: &Vec<Entry>, k: usize) -> (w: Double)
    requires
        heap.len() <= k,
    ensures
        w.bits == worst_bits(heap@, k as nat),
{
    if heap.len() == k && k > 0 {
        Double { bits: heap[heap.len() - 1].0 }
    } else {
        Double::infinity()
    }
}

/// What [`heap_worst`] returns.
pub open spec fn worst_bits(items: Seq<Entry>, k: nat) -> u64 {
    if items.len() == k && k > 0 {
        items.last().0
    } else {
        INFINITE
    }
}

/// `items` in ascending order.
pub open spec fn arranged(items: Seq<Entry>) -> Seq<Entry>
    decreases items.len(),
{
    if items.len() == 0 {
        items
    } else {
        with_entry(arranged(items.drop_last()), items.last())
    }
}

proof fn lemma_arranged(items: Seq<Entry>)
    requires
        entries_ascend(items),
    ensures
        arranged(items) == items,
    decreases items.len(),
{
    if items.len() > 0 {
        let short = items.drop_last();
        assert forall|a: int, b: int| 0 <= a < b < short.len() implies entry_before(
            #[trigger] short[a],
            #[trigger] short[b],
        ) by {
            assert(entry_before(items[a], items[b]));
        }
        lemma_arranged(short);
        if short.len() > 0 {
            assert(entry_before(items[items.len() - 2], items[items.len() - 1]));
        }
        assert(short.push(items.last()) =~= items);
    }
}

/// Indices of the candidates, nearest first.
pub fn into_sorted(heap: Vec<Entry>) -> (out: Vec<usize>)
    ensures
        out@ == arranged(heap@).map(|_a: int, e: Entry| e.1 as usize),
{
    let mut sorted: Vec<Entry> = Vec::new();
    for a in 0..heap.len()
        invariant
            sorted@ == arranged(heap@.take(a as int)),
    {
        insert_entry(&mut sorted, heap[a]);
        assert(heap@.take(a + 1).drop_last() =~= heap@.take(a as int));
    }
    assert(heap@.take(heap.len() as int) =~= heap@);
    let mut out: Vec<usize> = Vec::new();
    for a in 0..sorted.len()
        invariant
            out.len() == a,
            forall|b: int| 0 <= b < a ==> #[trigger] out@[b] == sorted@[b].1,
    {
        out.push(sorted[a].1 as usize);
    }
    out
}

/// Squared distances of points, by index.
pub type Distance = spec_fn(usize) -> Double;

/// The value of `f` at `i`; zero where it has none.
pub open spec fn image<F: Fn(usize) -> Double>(f: F, i: usize) -> Double {
    if exists|r: Double| call_ensures(f, (i,), r) {
        choose|r: Double| call_ensures(f, (i,), r)
    } else {
        Double { bits: 0 }
    }
}

/// The function that `f` computes.
pub open spec fn function_of<F: Fn(usize) -> Double>(f: F) -> Distance {
    |i: usize| image(f, i)
}

/// `f` computes `d` on the points `0..n`: squared distances, which are not
/// negative (they may be NaN).
pub open spec fn computes<F: Fn(usize) -> Double>(f: F, n: nat, d: Distance) -> bool {
    &&& forall|i: usize| i < n ==> #[trigger] call_requires(f, (i,))
    &&& forall|i: usize, r: Double|
        i < n && #[trigger] call_ensures(f, (i,), r) ==> r == d(i)
    &&& forall|i: usize| i < n ==> (#[trigger] d(i)).nan() || !d(i).negative()
}

/// Point `i` lies within the search radius.
pub open spec fn eligible(d: Distance, n: nat, r2: Double, i: usize) -> bool {
    i < n && d(i).at_most(r2)
}

/// Every point of `found` is within the radius, there are at most `k`, and
/// they come in strictly ascending order of `(squared distance, index)`.
pub open spec fn within_reach(found: Seq<usize>, k: nat, d: Distance, n: nat, r2: Double) -> bool {
    &&& found.len() <= k
    &&& forall|a: int| 0 <= a < found.len() ==> eligible(d, n, r2, #[trigger] found[a])
    &&& forall|a: int, b: int|
        0 <= a < b < found.len() ==> nearer(d, #[trigger] found[a], #[trigger] found[b])
}

/// Strict order of points by squared distance, then by index.
pub open spec fn nearer(d: Distance, i: usize, j: usize) -> bool {
    d(i).bits < d(j).bits || (d(i).bits == d(j).bits && i < j)
}

/// `found` are the `k` nearest points within the radius: all points within it
/// if those are fewer than `k`, and no point left out is nearer than a point
/// found.
pub open spec fn k_nearest_of(found: Seq<usize>, k: nat, d: Distance, n: nat, r2: Double) -> bool {
    &&& within_reach(found, k, d, n, r2)
    &&& found.len() < k ==> forall|i: usize| #[trigger]
        eligible(d, n, r2, i) ==> found.contains(i)
    &&& forall|i: usize, a: int|
        #[trigger] eligible(d, n, r2, i) && !found.contains(i) && 0 <= a < found.len() ==> d(
            #[trigger] found[a],
        ).at_most(d(i))
}

/// Points found are not more than there are points.
pub proof fn lemma_found_fit(found: Seq<usize>, k: nat, d: Distance, n: nat, r2: Double)
    requires
        within_reach(found, k, d, n, r2),
    ensures
        found.len() <= n,
        forall|i: int| 0 <= i < found.len() ==> (#[trigger] found[i]) < n,
{
    assert forall|i: int| 0 <= i < found.len() implies (#[trigger] found[i]) < n by {
        assert(eligible(d, n, r2, found[i]));
    }
    assert forall|i: int, j: int|
        0 <= i < found.len() && 0 <= j < found.len() && i != j implies found[i] != found[j] by {
        if i < j {
            assert(nearer(d, found[i], found[j]));
        } else {
            assert(nearer(d, found[j], found[i]));
        }
    }
    let places = found.map_values(|i: usize| i as int);
    assert(places.no_duplicates());
    places.unique_seq_to_set();
    let range = vstd::set_lib::set_int_range(0, n as int);
    vstd::set_lib::lemma_int_range(0, n as int);
    assert forall|x: int| places.to_set().contains(x) implies range.contains(x) by {
        let i = choose|i: int| 0 <= i < places.len() && places[i] == x;
        assert(found[i] < n);
    }
    vstd::set_lib::lemma_len_subset(places.to_set(), range);
}

/// A list of distinct points that are all on another list is no longer.
proof fn lemma_sublist(a: Seq<usize>, b: Seq<usize>)
    requires
        a.no_duplicates(),
        forall|i: int| 0 <= i < a.len() ==> b.contains(#[trigger] a[i]),
    ensures
        a.len() <= b.len(),
{
    a.unique_seq_to_set();
    b.lemma_cardinality_of_set();
    assert forall|x: usize| a.to_set().contains(x) implies b.to_set().contains(x) by {
        let i = choose|i: int| 0 <= i < a.len() && a[i] == x;
        assert(b.contains(a[i]));
    }
    vstd::set_lib::lemma_len_subset(a.to_set(), b.to_set());
}

proof fn lemma_found_once(found: Seq<usize>, k: nat, d: Distance, n: nat, r2: Double)
    requires
        within_reach(found, k, d, n, r2),
    ensures
        found.no_duplicates(),
{
    assert forall|i: int, j: int|
        0 <= i < found.len() && 0 <= j < found.len() && i != j implies found[i] != found[j] by {
        if i < j {
            assert(nearer(d, found[i], found[j]));
        } else {
            assert(nearer(d, found[j], found[i]));
        }
    }
}

/// No rank of `a` is nearer than that of `b`.
proof fn lemma_rank_no_nearer(
    a: Seq<usize>,
    b: Seq<usize>,
    k: nat,
    d: Distance,
    n: nat,
    r2: Double,
    p: int,
)
    requires
        within_reach(a, k, d, n, r2),
        k_nearest_of(b, k, d, n, r2),
        forall|i: usize| i < n ==> (#[trigger] d(i)).nan() || !d(i).negative(),
        0 <= p < a.len(),
        p < b.len(),
    ensures
        d(b[p]).bits <= d(a[p]).bits,
{
    if d(a[p]).bits < d(b[p]).bits {
        lemma_found_once(a, k, d, n, r2);
        let head = a.take(p + 1);
        let rest = b.take(p);
        assert forall|j: int| 0 <= j < head.len() implies rest.contains(#[trigger] head[j]) by {
            let i = a[j];
            assert(head[j] == i);
            assert(eligible(d, n, r2, i));
            assert(j < p ==> nearer(d, a[j], a[p]));
            assert(d(i).bits <= d(a[p]).bits);
            assert(eligible(d, n, r2, b[p]));
            if !b.contains(i) {
                assert(d(b[p]).at_most(d(i)));
            }
            let q = choose|q: int| 0 <= q < b.len() && b[q] == i;
            if q > p {
                assert(nearer(d, b[p], b[q]));
            }
            assert(rest[q] == i);
        }
        lemma_sublist(head, rest);
    }
}

/// Two searches for the nearest points agree: they find as many, at the same distances
/// rank by rank, and the same points where no two distances are equal.
pub proof fn nearest_points_agree(
    a: Seq<usize>,
    b: Seq<usize>,
    k: nat,
    d: Distance,
    n: nat,
    r2: Double,
)
    requires
        k_nearest_of(a, k, d, n, r2),
        k_nearest_of(b, k, d, n, r2),
        forall|i: usize| i < n ==> (#[trigger] d(i)).nan() || !d(i).negative(),
    ensures
        a.len() == b.len(),
        forall|p: int| 0 <= p < a.len() ==> d(#[trigger] a[p]) == d(b[p]),
        (forall|i: usize, j: usize|
            i < n && j < n && i != j ==> #[trigger] d(i) != #[trigger] d(j)) ==> a == b,
{
    lemma_found_once(a, k, d, n, r2);
    lemma_found_once(b, k, d, n, r2);
    if a.len() < k {
        assert forall|i: int| 0 <= i < b.len() implies a.contains(#[trigger] b[i]) by {
            assert(eligible(d, n, r2, b[i]));
        }
        lemma_sublist(b, a);
    }
    if b.len() < k {
        assert forall|i: int| 0 <= i < a.len() implies b.contains(#[trigger] a[i]) by {
            assert(eligible(d, n, r2, a[i]));
        }
        lemma_sublist(a, b);
    }
    assert forall|p: int| 0 <= p < a.len() implies d(#[trigger] a[p]) == d(b[p]) by {
        lemma_rank_no_nearer(a, b, k, d, n, r2, p);
        lemma_rank_no_nearer(b, a, k, d, n, r2, p);
    }
    if forall|i: usize, j: usize|
        i < n && j < n && i != j ==> #[trigger] d(i) != #[trigger] d(j) {
        assert forall|p: int| 0 <= p < a.len() implies a[p] == b[p] by {
            assert(eligible(d, n, r2, a[p]));
            assert(eligible(d, n, r2, b[p]));
            assert(d(a[p]) == d(b[p]));
        }
        assert(a =~= b);
    }
}

/// `found` is what a search gives back: the nearest, where the bounds that cut
/// the search short are sound, and in any case points in reach, nearest first.
pub open spec fn search_result(
    found: Seq<usize>,
    k: nat,
    d: Distance,
    n: nat,
    r2: Double,
    sound: bool,
) -> bool {
    within_reach(found, k, d, n, r2) && (sound ==> k_nearest_of(found, k, d, n, r2))
}

/// The squared-distance encodings, by 32-bit index.
pub open spec fn encodings(d: Distance) -> spec_fn(u32) -> u64 {
    |i: u32| d(i as usize).bits
}

/// What the candidates say about the points found, once read out.
pub(crate) proof fn lemma_candidates_to_found(
    items: Seq<Entry>,
    found: Seq<usize>,
    k: nat,
    seen: Set<u32>,
    d: Distance,
    n: nat,
    r2: Double,
)
    requires
        n <= u32::MAX,
        forall|i: usize| i < n ==> (#[trigger] d(i)).nan() || !d(i).negative(),
        nearest_of(items, k, seen, encodings(d)),
        forall|i: u32| #[trigger] seen.contains(i) ==> eligible(d, n, r2, i as usize),
        found == arranged(items).map(|_a: int, e: Entry| e.1 as usize),
    ensures
        within_reach(found, k, d, n, r2),
        (forall|i: u32| eligible(d, n, r2, i as usize) ==> #[trigger] seen.contains(i))
            ==> k_nearest_of(found, k, d, n, r2),
{
    lemma_arranged(items);
    let e = encodings(d);
    assert forall|a: int| 0 <= a < found.len() implies eligible(d, n, r2, #[trigger] found[a])
        && items[a].0 == d(found[a]).bits by {
        assert(seen.contains(items[a].1));
    }
    assert forall|a: int, b: int| 0 <= a < b < found.len() implies nearer(
        d,
        #[trigger] found[a],
        #[trigger] found[b],
    ) by {
        assert(entry_before(items[a], items[b]));
    }
    if forall|i: u32| eligible(d, n, r2, i as usize) ==> #[trigger] seen.contains(i) {
        assert forall|i: usize| #[trigger] eligible(d, n, r2, i) implies seen.contains(i as u32)
            && (listed(items, i as u32) ==> found.contains(i)) by {
            assert((i as u32) as usize == i);
            if listed(items, i as u32) {
                let a = choose|a: int|
                    0 <= a < items.len() && (#[trigger] items[a]).1 == i as u32;
                assert(found[a] == i);
            }
        }
        assert forall|i: usize, a: int|
            #[trigger] eligible(d, n, r2, i) && !found.contains(i) && 0 <= a
                < found.len() implies d(#[trigger] found[a]).at_most(d(i)) by {
            assert(seen.contains(i as u32));
            assert(!listed(items, i as u32));
            assert(items[a].0 <= e(i as u32));
            assert(seen.contains(items[a].1));
            assert(eligible(d, n, r2, found[a]));
        }
    }
}

/// Points that a full collection could not take anyway may count as seen.
pub(crate) proof fn lemma_skip(
    items: Seq<Entry>,
    k: nat,
    seen: Set<u32>,
    more: Set<u32>,
    d: spec_fn(u32) -> u64,
)
    requires
        nearest_of(items, k, seen, d),
        more == Set::<u32>::empty() || (k > 0 && items.len() == k),
        forall|i: u32| #[trigger] more.contains(i) ==> items.last().0 <= d(i),
    ensures
        nearest_of(items, k, seen.union(more), d),
{
    let all = seen.union(more);
    assert forall|i: u32, a: int|
        #[trigger] all.contains(i) && !listed(items, i) && 0 <= a < items.len() implies (
    #[trigger] items[a]).0 <= d(i) by {
        if seen.contains(i) {
        } else {
            assert(more.contains(i));
            if a < items.len() - 1 {
                assert(entry_before(items[a], items[items.len() - 1]));
            }
        }
    }
    assert forall|i: u32| #[trigger] all.contains(i) && items.len() < k implies listed(
        items,
        i,
    ) by {
        assert(seen.contains(i));
    }
}

} // verus!
