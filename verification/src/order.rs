//! Stable ordering of positions by integer keys.

use vstd::prelude::*;

verus! {

/// Position `a` comes before position `b`: by key, then by position.
pub open spec fn precedes(keys: Seq<i64>, a: usize, b: usize) -> bool {
    keys[a as int] < keys[b as int] || (keys[a as int] == keys[b as int] && a < b)
}

/// `order` lists its positions in strictly ascending `(key, position)` order.
pub open spec fn ascending(keys: Seq<i64>, order: Seq<usize>) -> bool {
    forall|a: int, b: int|
        0 <= a < b < order.len() ==> precedes(keys, #[trigger] order[a], #[trigger] order[b])
}

/// `order` lists exactly the positions from `lo` up to `hi`.
pub open spec fn covers(order: Seq<usize>, lo: int, hi: int) -> bool {
    &&& order.len() == hi - lo
    &&& forall|a: int| 0 <= a < order.len() ==> lo <= #[trigger] order[a] < hi
    &&& forall|p: usize| lo <= p < hi ==> #[trigger] order.contains(p)
}

/// `order` is the stable ascending arrangement of all positions of `keys`.
pub open spec fn stable_order(keys: Seq<i64>, order: Seq<usize>) -> bool {
    covers(order, 0, keys.len() as int) && ascending(keys, order)
}

/// The stable arrangement is unique: two orders of the same keys are equal.
pub proof fn stable_order_is_unique(keys: Seq<i64>, a: Seq<usize>, b: Seq<usize>)
    requires
        stable_order(keys, a),
        stable_order(keys, b),
    ensures
        a == b,
{
    assert forall|i: int| 0 <= i < a.len() implies a[i] == b[i] by {
        lemma_same_prefix(keys, a, b, i + 1);
    }
    assert(a =~= b);
}

proof fn lemma_same_prefix(keys: Seq<i64>, a: Seq<usize>, b: Seq<usize>, n: int)
    requires
        stable_order(keys, a),
        stable_order(keys, b),
        0 <= n <= a.len(),
    ensures
        forall|i: int| 0 <= i < n ==> a[i] == b[i],
    decreases n,
{
    if n > 0 {
        lemma_same_prefix(keys, a, b, n - 1);
        let i = n - 1;
        let x = a[i];
        let y = b[i];
        assert(b.contains(x));
        assert(a.contains(y));
        let jx = choose|j: int| 0 <= j < b.len() && b[j] == x;
        let jy = choose|j: int| 0 <= j < a.len() && a[j] == y;
        if jx < i {
            assert(a[jx] == b[jx]);
            assert(precedes(keys, a[jx], a[i]));
        }
        if jy < i {
            assert(a[jy] == b[jy]);
            assert(precedes(keys, b[jy], b[i]));
        }
        if x != y {
            assert(precedes(keys, b[i], b[jx]));
            assert(precedes(keys, a[i], a[jy]));
        }
    }
}

/// Number of positions whose key is at most `x`, in an ascending order.
proof fn lemma_cut(keys: Seq<i64>, order: Seq<usize>, x: i64) -> (p: int)
    requires
        ascending(keys, order),
    ensures
        0 <= p <= order.len(),
        forall|a: int| 0 <= a < p ==> keys[#[trigger] order[a] as int] <= x,
        forall|a: int| p <= a < order.len() ==> keys[#[trigger] order[a] as int] > x,
    decreases order.len(),
{
    if order.len() == 0 {
        0
    } else if keys[order.last() as int] <= x {
        let n = order.len() as int;
        assert forall|a: int| 0 <= a < n implies keys[#[trigger] order[a] as int] <= x by {
            if a < n - 1 {
                assert(precedes(keys, order[a], order[n - 1]));
            }
        }
        n
    } else {
        let rest = order.drop_last();
        assert(ascending(keys, rest)) by {
            assert forall|a: int, b: int| 0 <= a < b < rest.len() implies precedes(
                keys,
                #[trigger] rest[a],
                #[trigger] rest[b],
            ) by {
                assert(rest[a] == order[a]);
                assert(rest[b] == order[b]);
            }
        }
        let p = lemma_cut(keys, rest, x);
        assert forall|a: int| 0 <= a < p implies keys[#[trigger] order[a] as int] <= x by {
            assert(rest[a] == order[a]);
        }
        assert forall|a: int| p <= a < order.len() implies keys[#[trigger] order[a] as int] > x by {
            if a < rest.len() {
                assert(rest[a] == order[a]);
            }
        }
        p
    }
}

/// Keys have a stable arrangement.
pub proof fn stable_order_exists(keys: Seq<i64>)
    requires
        keys.len() <= usize::MAX,
    ensures
        exists|order: Seq<usize>| stable_order(keys, order),
    decreases keys.len(),
{
    if keys.len() == 0 {
        assert(stable_order(keys, Seq::<usize>::empty()));
    } else {
        let rest = keys.drop_last();
        let n = rest.len() as int;
        stable_order_exists(rest);
        let order = choose|order: Seq<usize>| stable_order(rest, order);
        assert(ascending(keys, order)) by {
            assert forall|a: int, b: int| 0 <= a < b < order.len() implies precedes(
                keys,
                #[trigger] order[a],
                #[trigger] order[b],
            ) by {
                assert(precedes(rest, order[a], order[b]));
            }
        }
        let p = lemma_cut(keys, order, keys.last());
        let all = order.insert(p, n as usize);
        assert forall|a: int| 0 <= a < all.len() implies 0 <= #[trigger] all[a] < keys.len() by {
            if a < p {
                assert(all[a] == order[a]);
            } else if a > p {
                assert(all[a] == order[a - 1]);
            }
        }
        assert forall|q: usize| 0 <= q < keys.len() implies #[trigger] all.contains(q) by {
            if q == n {
                assert(all[p] == q);
            } else {
                assert(order.contains(q));
                let i = choose|i: int| 0 <= i < order.len() && order[i] == q;
                if i < p {
                    assert(all[i] == q);
                } else {
                    assert(all[i + 1] == q);
                }
            }
        }
        assert forall|a: int, b: int| 0 <= a < b < all.len() implies precedes(
            keys,
            #[trigger] all[a],
            #[trigger] all[b],
        ) by {
            let x = if a < p {
                order[a]
            } else if a == p {
                n as usize
            } else {
                order[a - 1]
            };
            let y = if b < p {
                order[b]
            } else if b == p {
                n as usize
            } else {
                order[b - 1]
            };
            assert(all[a] == x && all[b] == y);
            if a != p && b != p {
                let i = if a < p { a } else { a - 1 };
                let j = if b < p { b } else { b - 1 };
                assert(precedes(keys, order[i], order[j]));
            } else if b == p {
                assert(keys[order[a] as int] <= keys.last());
                assert(order[a] < n);
            } else {
                assert(keys[order[b - 1] as int] > keys.last());
            }
        }
        assert(stable_order(keys, all));
    }
}

/// Merges two ascending lists of positions over adjacent ranges.
fn merge(keys: &[i64], left: &Vec<usize>, right: &Vec<usize>) -> (out: Vec<usize>)
    requires
        ascending(keys@, left@),
        ascending(keys@, right@),
        forall|a: int| 0 <= a < left.len() ==> (#[trigger] left@[a]) < keys.len(),
        forall|b: int| 0 <= b < right.len() ==> (#[trigger] right@[b]) < keys.len(),
        forall|a: int, b: int|
            0 <= a < left.len() && 0 <= b < right.len() ==> #[trigger] left@[a]
                < #[trigger] right@[b],
        left.len() + right.len() <= usize::MAX,
    ensures
        ascending(keys@, out@),
        out.len() == left.len() + right.len(),
        forall|x: usize| #[trigger] out@.contains(x) <==> left@.contains(x) || right@.contains(x),
{
    let mut out: Vec<usize> = Vec::new();
    let mut a: usize = 0;
    let mut b: usize = 0;
    while a < left.len() || b < right.len()
        invariant
            a <= left.len(),
            b <= right.len(),
            left.len() + right.len() <= usize::MAX,
            out.len() == a + b,
            ascending(keys@, left@),
            ascending(keys@, right@),
            ascending(keys@, out@),
            forall|i: int| 0 <= i < left.len() ==> (#[trigger] left@[i]) < keys.len(),
            forall|j: int| 0 <= j < right.len() ==> (#[trigger] right@[j]) < keys.len(),
            forall|i: int, j: int|
                0 <= i < left.len() && 0 <= j < right.len() ==> #[trigger] left@[i]
                    < #[trigger] right@[j],
            forall|c: int, i: int|
                0 <= c < out.len() && a <= i < left.len() ==> precedes(
                    keys@,
                    #[trigger] out@[c],
                    #[trigger] left@[i],
                ),
            forall|c: int, j: int|
                0 <= c < out.len() && b <= j < right.len() ==> precedes(
                    keys@,
                    #[trigger] out@[c],
                    #[trigger] right@[j],
                ),
            forall|x: usize| #[trigger]
                out@.contains(x) <==> left@.take(a as int).contains(x) || right@.take(
                    b as int,
                ).contains(x),
        decreases left.len() + right.len() - a - b,
    {
        let take_left: bool = if a == left.len() {
            false
        } else if b == right.len() {
            true
        } else {
            keys[left[a]] <= keys[right[b]]
        };
        let ghost before = out@;
        let ghost a0 = a as int;
        let ghost b0 = b as int;
        if take_left {
            out.push(left[a]);
            a = a + 1;
            proof {
                lemma_take_contains(left@, a0);
            }
        } else {
            out.push(right[b]);
            b = b + 1;
            proof {
                lemma_take_contains(right@, b0);
            }
        }
        proof {
            lemma_push_contains(before, out@.last());
            assert(out@ =~= before.push(out@.last()));
        }
    }
    proof {
        assert(left@.take(a as int) =~= left@);
        assert(right@.take(b as int) =~= right@);
    }
    out
}

proof fn lemma_take_contains(s: Seq<usize>, n: int)
    requires
        0 <= n < s.len(),
    ensures
        forall|x: usize| #[trigger]
            s.take(n + 1).contains(x) <==> s.take(n).contains(x) || x == s[n],
{
    assert(s.take(n + 1) =~= s.take(n).push(s[n]));
    lemma_push_contains(s.take(n), s[n]);
}

proof fn lemma_push_contains(s: Seq<usize>, y: usize)
    ensures
        forall|x: usize| #[trigger] s.push(y).contains(x) <==> s.contains(x) || x == y,
{
    assert forall|x: usize| #[trigger] s.push(y).contains(x) <==> s.contains(x) || x == y by {
        if s.contains(x) {
            let i = choose|i: int| 0 <= i < s.len() && s[i] == x;
            assert(s.push(y)[i] == x);
        }
        if x == y {
            assert(s.push(y)[s.len() as int] == x);
        }
    }
}

fn sort_range(keys: &[i64], lo: usize, hi: usize) -> (order: Vec<usize>)
    requires
        lo <= hi <= keys.len(),
    ensures
        covers(order@, lo as int, hi as int),
        ascending(keys@, order@),
    decreases hi - lo,
{
    let mut order: Vec<usize> = Vec::new();
    if hi - lo == 0 {
        return order;
    }
    if hi - lo == 1 {
        order.push(lo);
        assert(order@[0] == lo);
        return order;
    }
    let mid: usize = lo + (hi - lo) / 2;
    let left: Vec<usize> = sort_range(keys, lo, mid);
    let right: Vec<usize> = sort_range(keys, mid, hi);
    let out: Vec<usize> = merge(keys, &left, &right);
    proof {
        assert forall|i: int| 0 <= i < out.len() implies lo <= #[trigger] out@[i] < hi by {
            assert(out@.contains(out@[i]));
        }
    }
    out
}

/// Positions of `keys` in ascending key order; equal keys keep their order.
pub fn sort_positions(keys: &[i64]) -> (order: Vec<usize>)
    ensures
        stable_order(keys@, order@),
{
    sort_range(keys, 0, keys.len())
}

} // verus!
