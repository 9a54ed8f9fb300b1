//! Stable ordering by an integer key.
use vstd::prelude::*;

verus! {

/// Whether item `a` comes before item `b`: the smaller key first, and of two
/// equal keys the one that stood first.
pub open spec fn before(keys: Seq<i64>, a: int, b: int) -> bool {
    keys[a] < keys[b] || (keys[a] == keys[b] && a < b)
}

/// Whether `order` lists the indices `lo..hi` in key order.
pub open spec fn orders_range(keys: Seq<i64>, order: Seq<usize>, lo: int, hi: int) -> bool {
    &&& order.len() == hi - lo
    &&& forall|i: int| 0 <= i < order.len() ==> lo <= #[trigger] order[i] < hi
    &&& forall|i: int, j: int|
        0 <= i < j < order.len() ==> before(
            keys,
            #[trigger] order[i] as int,
            #[trigger] order[j] as int,
        )
    &&& forall|k: usize| lo <= k < hi ==> #[trigger] order.contains(k)
}

/// Whether `order` is the stable ordering of all the keys.
pub open spec fn is_order(keys: Seq<i64>, order: Seq<usize>) -> bool {
    orders_range(keys, order, 0, keys.len() as int)
}

/// The stable ordering of the keys, as a list of indices.
pub open spec fn order_of(keys: Seq<i64>) -> Seq<usize> {
    choose|order: Seq<usize>| is_order(keys, order)
}

/// There is only one stable ordering.
pub proof fn lemma_order_unique(keys: Seq<i64>, a: Seq<usize>, b: Seq<usize>)
    requires
        is_order(keys, a),
        is_order(keys, b),
    ensures
        a == b,
{
    lemma_order_prefix(keys, a, b, a.len() as int);
    assert(a.take(a.len() as int) == a);
    assert(b.take(b.len() as int) == b);
}

proof fn lemma_order_prefix(keys: Seq<i64>, a: Seq<usize>, b: Seq<usize>, n: int)
    requires
        is_order(keys, a),
        is_order(keys, b),
        0 <= n <= a.len(),
    ensures
        a.take(n) == b.take(n),
    decreases n,
{
    if n > 0 {
        lemma_order_prefix(keys, a, b, n - 1);
        let i = n - 1;
        assert(forall|k: int| 0 <= k < i ==> a.take(i)[k] == #[trigger] a[k]);
        assert(forall|k: int| 0 <= k < i ==> b.take(i)[k] == #[trigger] b[k]);
        assert(forall|k: int| 0 <= k < i ==> a[k] == #[trigger] b[k]);
        let x = a[i];
        let y = b[i];
        if x != y {
            assert(b.contains(x));
            let p = choose|p: int| 0 <= p < b.len() && b[p] == x;
            assert(a.contains(y));
            let q = choose|q: int| 0 <= q < a.len() && a[q] == y;
            if p < i {
                assert(a[p] == x);
                assert(before(keys, a[p] as int, a[i] as int));
            }
            if q < i {
                assert(b[q] == y);
                assert(before(keys, b[q] as int, b[i] as int));
            }
            assert(before(keys, b[i] as int, b[p] as int));
            assert(before(keys, a[i] as int, a[q] as int));
        }
        assert(a.take(n) =~= b.take(n));
    }
}

/// The ordering that was found is the one that `order_of` names.
pub proof fn lemma_order_of(keys: Seq<i64>, order: Seq<usize>)
    requires
        is_order(keys, order),
    ensures
        order == order_of(keys),
{
    lemma_order_unique(keys, order, order_of(keys));
}

/// The first place at or after `k` whose key is above `x`.
spec fn first_above(keys: Seq<i64>, order: Seq<usize>, x: i64, k: int) -> int
    decreases order.len() - k,
{
    if k >= order.len() || keys[order[k] as int] > x {
        k
    } else {
        first_above(keys, order, x, k + 1)
    }
}

proof fn lemma_first_above(keys: Seq<i64>, order: Seq<usize>, x: i64, k: int)
    requires
        0 <= k <= order.len(),
    ensures
        k <= first_above(keys, order, x, k) <= order.len(),
        forall|j: int|
            k <= j < first_above(keys, order, x, k) ==> keys[#[trigger] order[j] as int] <= x,
        first_above(keys, order, x, k) < order.len() ==> keys[order[first_above(
            keys,
            order,
            x,
            k,
        )] as int] > x,
    decreases order.len() - k,
{
    if k < order.len() && keys[order[k] as int] <= x {
        lemma_first_above(keys, order, x, k + 1);
    }
}

/// Any keys have a stable ordering.
pub proof fn lemma_an_order_exists(keys: Seq<i64>)
    requires
        keys.len() <= usize::MAX,
    ensures
        is_order(keys, order_of(keys)),
    decreases keys.len(),
{
    if keys.len() == 0 {
        assert(is_order(keys, Seq::empty()));
    } else {
        let front = keys.drop_last();
        let n = front.len() as int;
        let x = keys.last();
        lemma_an_order_exists(front);
        let o = order_of(front);
        assert forall|i: int| 0 <= i < o.len() implies keys[#[trigger] o[i] as int]
            == front[o[i] as int] by {}
        let p = first_above(keys, o, x, 0);
        lemma_first_above(keys, o, x, 0);
        let new = o.insert(p, n as usize);
        assert forall|i: int| p <= i < o.len() implies keys[#[trigger] o[i] as int] > x by {
            if i > p {
                assert(before(front, o[p] as int, o[i] as int));
            }
        }
        assert forall|i: int| 0 <= i < new.len() implies 0 <= #[trigger] new[i] < keys.len() by {
            if i < p {
                assert(new[i] == o[i]);
            } else if i > p {
                assert(new[i] == o[i - 1]);
            }
        }
        assert forall|i: int, j: int| 0 <= i < j < new.len() implies before(
            keys,
            #[trigger] new[i] as int,
            #[trigger] new[j] as int,
        ) by {
            let a = if i < p {
                i
            } else {
                i - 1
            };
            let b = if j < p {
                j
            } else {
                j - 1
            };
            if i != p {
                assert(new[i] == o[a]);
            }
            if j != p {
                assert(new[j] == o[b]);
            }
            if i != p && j != p {
                assert(before(front, o[a] as int, o[b] as int));
            }
        }
        assert forall|k: usize| 0 <= k < keys.len() implies #[trigger] new.contains(k) by {
            if k == n {
                assert(new[p] == k);
            } else {
                assert(o.contains(k));
                let i = choose|i: int| 0 <= i < o.len() && o[i] == k;
                if i < p {
                    assert(new[i] == k);
                } else {
                    assert(new[i + 1] == k);
                }
            }
        }
        assert(is_order(keys, new));
    }
}

/// Merges the orderings of two neighbouring ranges.
fn merge_orders(
    keys: &Vec<i64>,
    left: &Vec<usize>,
    right: &Vec<usize>,
    Ghost(lo): Ghost<int>,
    Ghost(mid): Ghost<int>,
    Ghost(hi): Ghost<int>,
) -> (out: Vec<usize>)
    requires
        0 <= lo <= mid <= hi <= keys@.len(),
        orders_range(keys@, left@, lo, mid),
        orders_range(keys@, right@, mid, hi),
    ensures
        orders_range(keys@, out@, lo, hi),
{
    let mut out: Vec<usize> = Vec::new();
    let mut i: usize = 0;
    let mut j: usize = 0;
    while i < left.len() || j < right.len()
        invariant
            0 <= lo <= mid <= hi <= keys@.len(),
            orders_range(keys@, left@, lo, mid),
            orders_range(keys@, right@, mid, hi),
            i <= left@.len(),
            j <= right@.len(),
            out@.len() == i + j,
            forall|k: int| 0 <= k < out@.len() ==> lo <= #[trigger] out@[k] < hi,
            forall|p: int, q: int|
                0 <= p < q < out@.len() ==> before(
                    keys@,
                    #[trigger] out@[p] as int,
                    #[trigger] out@[q] as int,
                ),
            forall|p: int, q: int|
                0 <= p < out@.len() && i <= q < left@.len() ==> before(
                    keys@,
                    #[trigger] out@[p] as int,
                    #[trigger] left@[q] as int,
                ),
            forall|p: int, q: int|
                0 <= p < out@.len() && j <= q < right@.len() ==> before(
                    keys@,
                    #[trigger] out@[p] as int,
                    #[trigger] right@[q] as int,
                ),
            forall|q: int| 0 <= q < i ==> out@.contains(#[trigger] left@[q]),
            forall|q: int| 0 <= q < j ==> out@.contains(#[trigger] right@[q]),
        decreases left@.len() - i + right@.len() - j,
    {
        let ghost prev = out@;
        let take_left: bool = if i >= left.len() {
            false
        } else if j >= right.len() {
            true
        } else {
            keys[left[i]] <= keys[right[j]]
        };
        if take_left {
            let x: usize = left[i];
            out.push(x);
            i += 1;
            assert(out@ == prev.push(x));
            assert(out@[prev.len() as int] == x);
        } else {
            let x: usize = right[j];
            out.push(x);
            j += 1;
            assert(out@ == prev.push(x));
            assert(out@[prev.len() as int] == x);
        }
        assert forall|v: usize| prev.contains(v) implies out@.contains(v) by {
            let k = choose|k: int| 0 <= k < prev.len() && prev[k] == v;
            assert(out@[k] == v);
        }
    }
    assert forall|k: usize| lo <= k < hi implies #[trigger] out@.contains(k) by {
        if k < mid {
            assert(left@.contains(k));
        } else {
            assert(right@.contains(k));
        }
    }
    out
}

fn order_range(keys: &Vec<i64>, lo: usize, hi: usize) -> (out: Vec<usize>)
    requires
        lo <= hi <= keys@.len(),
    ensures
        orders_range(keys@, out@, lo as int, hi as int),
    decreases hi - lo,
{
    if hi - lo == 0 {
        Vec::new()
    } else if hi - lo == 1 {
        let mut out: Vec<usize> = Vec::new();
        out.push(lo);
        assert(out@[0] == lo);
        out
    } else {
        let mid: usize = lo + (hi - lo) / 2;
        let left: Vec<usize> = order_range(keys, lo, mid);
        let right: Vec<usize> = order_range(keys, mid, hi);
        merge_orders(keys, &left, &right, Ghost(lo as int), Ghost(mid as int), Ghost(hi as int))
    }
}

/// The indices of `keys`, smallest key first; equal keys keep their places.
pub fn stable_order(keys: &Vec<i64>) -> (order: Vec<usize>)
    ensures
        is_order(keys@, order@),
        order@ == order_of(keys@),
{
    let order: Vec<usize> = order_range(keys, 0, keys.len());
    proof {
        lemma_order_of(keys@, order@);
    }
    order
}

// ---------------------------------------------------------------------------
// Laws
// ---------------------------------------------------------------------------
/// The ordering lists every item once, the smaller key before the larger, and
/// items of one key in the order in which they stood.
pub proof fn law_equal_keys_keep_their_order(keys: Seq<i64>, i: int, j: int)
    requires
        keys.len() <= usize::MAX,
        0 <= i < j < keys.len(),
    ensures
        order_of(keys).len() == keys.len(),
        forall|k: usize| k < keys.len() ==> #[trigger] order_of(keys).contains(k),
        0 <= order_of(keys)[i] < keys.len(),
        0 <= order_of(keys)[j] < keys.len(),
        keys[order_of(keys)[i] as int] <= keys[order_of(keys)[j] as int],
        keys[order_of(keys)[i] as int] == keys[order_of(keys)[j] as int] ==> order_of(keys)[i]
            < order_of(keys)[j],
{
    lemma_an_order_exists(keys);
    let order = order_of(keys);
    assert(is_order(keys, order));
    assert(before(keys, order[i] as int, order[j] as int));
}

} // verus!
