//! Order: stable sorting and first extremes, on integer keys.
//!
//! A finite, nonnegative IEEE number and its bit pattern, read as an unsigned
//! integer, are ordered alike, so bit patterns serve as keys for losses, scores
//! and energies.

use vstd::prelude::*;

verus! {

/// Item `a` stands before item `b`: it has the smaller key, or the same key and
/// it came first.
pub open spec fn before(keys: Seq<u64>, a: usize, b: usize) -> bool {
    keys[a as int] < keys[b as int] || (keys[a as int] == keys[b as int] && a < b)
}

/// The items in `r` stand in order.
pub open spec fn in_order(keys: Seq<u64>, r: Seq<usize>) -> bool {
    forall|i: int, j: int| 0 <= i < j < r.len() ==> before(keys, #[trigger] r[i], #[trigger] r[j])
}

fn is_before(keys: &[u64], a: usize, b: usize) -> (r: bool)
    requires
        a < keys@.len(),
        b < keys@.len(),
    ensures
        r == before(keys@, a, b),
{
    keys[a] < keys[b] || (keys[a] == keys[b] && a < b)
}

/// Merges two ordered runs of items.
fn merge(keys: &[u64], a: &Vec<usize>, b: &Vec<usize>) -> (r: Vec<usize>)
    requires
        in_order(keys@, a@),
        in_order(keys@, b@),
        a@.len() + b@.len() <= usize::MAX,
        forall|i: int| 0 <= i < a@.len() ==> #[trigger] a@[i] < keys@.len(),
        forall|i: int| 0 <= i < b@.len() ==> #[trigger] b@[i] < keys@.len(),
        forall|i: int, j: int|
            0 <= i < a@.len() && 0 <= j < b@.len() ==> #[trigger] a@[i] < #[trigger] b@[j],
    ensures
        r@.len() == a@.len() + b@.len(),
        in_order(keys@, r@),
        forall|x: usize| r@.contains(x) <==> a@.contains(x) || b@.contains(x),
{
    let mut r: Vec<usize> = Vec::new();
    let mut i: usize = 0;
    let mut j: usize = 0;
    while i < a.len() || j < b.len()
        invariant
            i <= a@.len(),
            j <= b@.len(),
            r@.len() == i + j,
            a@.len() + b@.len() <= usize::MAX,
            in_order(keys@, a@),
            in_order(keys@, b@),
            in_order(keys@, r@),
            forall|i: int| 0 <= i < a@.len() ==> #[trigger] a@[i] < keys@.len(),
            forall|i: int| 0 <= i < b@.len() ==> #[trigger] b@[i] < keys@.len(),
            forall|i: int, j: int|
                0 <= i < a@.len() && 0 <= j < b@.len() ==> #[trigger] a@[i] < #[trigger] b@[j],
            forall|k: int, l: int|
                0 <= k < r@.len() && i <= l < a@.len() ==> before(
                    keys@,
                    #[trigger] r@[k],
                    #[trigger] a@[l],
                ),
            forall|k: int, l: int|
                0 <= k < r@.len() && j <= l < b@.len() ==> before(
                    keys@,
                    #[trigger] r@[k],
                    #[trigger] b@[l],
                ),
            forall|x: usize| #[trigger]
                r@.contains(x) <==> a@.take(i as int).contains(x) || b@.take(j as int).contains(x),
        decreases a@.len() - i + b@.len() - j,
    {
        let ghost r0 = r@;
        if j == b.len() || (i < a.len() && is_before(keys, a[i], b[j])) {
            r.push(a[i]);
            proof {
                lemma_push_contains(r0, a@[i as int]);
                lemma_take_contains(a@, i as int);
            }
            i = i + 1;
        } else {
            r.push(b[j]);
            proof {
                lemma_push_contains(r0, b@[j as int]);
                lemma_take_contains(b@, j as int);
            }
            j = j + 1;
        }
    }
    assert(a@.take(a@.len() as int) =~= a@);
    assert(b@.take(b@.len() as int) =~= b@);
    r
}

proof fn lemma_push_contains(s: Seq<usize>, v: usize)
    ensures
        forall|x: usize| #[trigger] s.push(v).contains(x) <==> s.contains(x) || x == v,
{
    assert forall|x: usize| #[trigger] s.push(v).contains(x) <==> s.contains(x) || x == v by {
        let t = s.push(v);
        if s.contains(x) {
            let k = choose|k: int| 0 <= k < s.len() && s[k] == x;
            assert(t[k] == x);
        }
        if x == v {
            assert(t[s.len() as int] == x);
        }
        if t.contains(x) {
            let k = choose|k: int| 0 <= k < t.len() && t[k] == x;
            if k < s.len() {
                assert(s[k] == x);
            }
        }
    }
}

proof fn lemma_take_contains(s: Seq<usize>, i: int)
    requires
        0 <= i < s.len(),
    ensures
        forall|x: usize| #[trigger]
            s.take(i + 1).contains(x) <==> s.take(i).contains(x) || x == s[i],
{
    assert(s.take(i + 1) =~= s.take(i).push(s[i]));
    lemma_push_contains(s.take(i), s[i]);
}

/// The items from `lo` up to `hi`, in order.
fn sort_range(keys: &[u64], lo: usize, hi: usize) -> (r: Vec<usize>)
    requires
        lo <= hi <= keys@.len(),
    ensures
        r@.len() == hi - lo,
        in_order(keys@, r@),
        forall|x: usize| r@.contains(x) <==> lo <= x < hi,
    decreases hi - lo,
{
    if hi - lo <= 1 {
        let mut r: Vec<usize> = Vec::new();
        if lo < hi {
            r.push(lo);
            assert(r@[0] == lo);
        }
        return r;
    }
    let mid: usize = lo + (hi - lo) / 2;
    let a = sort_range(keys, lo, mid);
    let b = sort_range(keys, mid, hi);
    assert forall|i: int| 0 <= i < a@.len() implies lo <= #[trigger] a@[i] < mid by {
        assert(a@.contains(a@[i]));
    }
    assert forall|i: int| 0 <= i < b@.len() implies mid <= #[trigger] b@[i] < hi by {
        assert(b@.contains(b@[i]));
    }
    merge(keys, &a, &b)
}

/// `r` lists every item once, in order.
pub open spec fn is_order(keys: Seq<u64>, r: Seq<usize>) -> bool {
    &&& r.len() == keys.len()
    &&& in_order(keys, r)
    &&& forall|x: usize| r.contains(x) <==> x < keys.len()
}

/// The items in the order of their keys, items with the same key as they came.
pub fn stable_order(keys: &[u64]) -> (r: Vec<usize>)
    ensures
        is_order(keys@, r@),
{
    sort_range(keys, 0, keys.len())
}

proof fn lemma_order_agrees(keys: Seq<u64>, a: Seq<usize>, b: Seq<usize>, n: int)
    requires
        is_order(keys, a),
        is_order(keys, b),
        0 <= n <= keys.len(),
    ensures
        a.take(n) == b.take(n),
    decreases n,
{
    if n > 0 {
        lemma_order_agrees(keys, a, b, n - 1);
        let x = a[n - 1];
        let y = b[n - 1];
        assert(a.contains(x) && b.contains(y));
        assert(b.contains(x) && a.contains(y));
        let p = choose|p: int| 0 <= p < b.len() && b[p] == x;
        let q = choose|q: int| 0 <= q < a.len() && a[q] == y;
        if p < n - 1 {
            assert(a.take(n - 1)[p] == b.take(n - 1)[p]);
            assert(before(keys, a[p], a[n - 1]));
        }
        if q < n - 1 {
            assert(a.take(n - 1)[q] == b.take(n - 1)[q]);
            assert(before(keys, b[q], b[n - 1]));
        }
        assert(x == y) by {
            if p > n - 1 && q > n - 1 {
                assert(before(keys, b[n - 1], b[p]));
                assert(before(keys, a[n - 1], a[q]));
            }
        }
        assert(a.take(n) =~= a.take(n - 1).push(x));
        assert(b.take(n) =~= b.take(n - 1).push(y));
    }
}

/// There is only one order: which items come where is settled by the keys.
pub proof fn law_order_is_unique(keys: Seq<u64>, a: Seq<usize>, b: Seq<usize>)
    requires
        is_order(keys, a),
        is_order(keys, b),
    ensures
        a == b,
{
    lemma_order_agrees(keys, a, b, keys.len() as int);
    assert(a.take(a.len() as int) =~= a);
    assert(b.take(b.len() as int) =~= b);
}

/// The order of `keys`.
pub open spec fn order_of(keys: Seq<u64>) -> Seq<usize> {
    choose|r: Seq<usize>| is_order(keys, r)
}

/// Where an item with key `k` goes in an ordered run that it came after: behind
/// the last item whose key is not above `k`.
proof fn lemma_insert_place(keys: Seq<u64>, r: Seq<usize>, k: u64, from: int) -> (p: int)
    requires
        in_order(keys, r),
        0 <= from <= r.len(),
        forall|i: int| 0 <= i < from ==> keys[(#[trigger] r[i]) as int] <= k,
    ensures
        0 <= p <= r.len(),
        forall|i: int| 0 <= i < p ==> keys[(#[trigger] r[i]) as int] <= k,
        forall|i: int| p <= i < r.len() ==> keys[(#[trigger] r[i]) as int] > k,
    decreases r.len() - from,
{
    if from == r.len() {
        from
    } else if keys[r[from] as int] <= k {
        lemma_insert_place(keys, r, k, from + 1)
    } else {
        assert forall|i: int| from <= i < r.len() implies keys[(#[trigger] r[i]) as int] > k by {
            if from < i {
                assert(before(keys, r[from], r[i]));
            }
        }
        from
    }
}

proof fn lemma_some_order(keys: Seq<u64>) -> (r: Seq<usize>)
    requires
        keys.len() <= usize::MAX,
    ensures
        is_order(keys, r),
    decreases keys.len(),
{
    if keys.len() == 0 {
        Seq::empty()
    } else {
        let n = keys.len() - 1;
        let front = keys.drop_last();
        let r0 = lemma_some_order(front);
        assert forall|i: int| 0 <= i < r0.len() implies (#[trigger] r0[i]) < n by {
            assert(r0.contains(r0[i]));
        }
        assert(in_order(keys, r0)) by {
            assert forall|i: int, j: int| 0 <= i < j < r0.len() implies before(
                keys,
                #[trigger] r0[i],
                #[trigger] r0[j],
            ) by {
                assert(before(front, r0[i], r0[j]));
            }
        }
        let p = lemma_insert_place(keys, r0, keys[n], 0);
        let r = r0.insert(p, n as usize);
        assert forall|x: usize| r.contains(x) <==> x < keys.len() by {
            if x == n {
                assert(r[p] == x);
            } else if x < n {
                assert(r0.contains(x));
                let i = choose|i: int| 0 <= i < r0.len() && r0[i] == x;
                if i < p {
                    assert(r[i] == x);
                } else {
                    assert(r[i + 1] == x);
                }
            }
            if r.contains(x) {
                let i = choose|i: int| 0 <= i < r.len() && r[i] == x;
                if i < p {
                    assert(r0[i] == x);
                } else if i > p {
                    assert(r0[i - 1] == x);
                }
            }
        }
        assert forall|i: int, j: int| 0 <= i < j < r.len() implies before(
            keys,
            #[trigger] r[i],
            #[trigger] r[j],
        ) by {
            let a = if i < p { i } else { i - 1 };
            let b = if j < p { j } else { j - 1 };
            if i != p {
                assert(r[i] == r0[a]);
            }
            if j != p {
                assert(r[j] == r0[b]);
            }
            if i != p && j != p {
                assert(before(keys, r0[a], r0[b]));
            }
        }
        r
    }
}

/// Every list of keys that a machine can hold has an order.
pub proof fn lemma_order_exists(keys: Seq<u64>)
    requires
        keys.len() <= usize::MAX,
    ensures
        is_order(keys, order_of(keys)),
{
    let r = lemma_some_order(keys);
    assert(is_order(keys, r));
}

/// `i` is the first of the smallest keys.
pub open spec fn is_first_min(keys: Seq<u64>, i: int) -> bool {
    &&& 0 <= i < keys.len()
    &&& forall|k: int| 0 <= k < i ==> #[trigger] keys[k] > keys[i]
    &&& forall|k: int| i <= k < keys.len() ==> #[trigger] keys[k] >= keys[i]
}

/// Where the first of the smallest keys stands.
pub open spec fn min_at(keys: Seq<u64>) -> int {
    choose|i: int| is_first_min(keys, i)
}

/// The first of the smallest keys.
pub fn first_min(keys: &[u64]) -> (r: usize)
    requires
        keys@.len() > 0,
    ensures
        is_first_min(keys@, r as int),
        r == min_at(keys@),
{
    let mut best: usize = 0;
    let mut i: usize = 1;
    while i < keys.len()
        invariant
            1 <= i <= keys@.len(),
            best < i,
            forall|k: int| 0 <= k < best ==> #[trigger] keys@[k] > keys@[best as int],
            forall|k: int| best <= k < i ==> #[trigger] keys@[k] >= keys@[best as int],
        decreases keys@.len() - i,
    {
        if keys[i] < keys[best] {
            best = i;
        }
        i = i + 1;
    }
    proof {
        assert(is_first_min(keys@, best as int));
        lemma_first_min_is_unique(keys@, best as int, min_at(keys@));
    }
    best
}

proof fn lemma_first_min_is_unique(keys: Seq<u64>, i: int, j: int)
    requires
        is_first_min(keys, i),
        is_first_min(keys, j),
    ensures
        i == j,
{
    if i < j {
        assert(keys[i] > keys[j]);
    } else if j < i {
        assert(keys[j] > keys[i]);
    }
}

proof fn lemma_some_min(keys: Seq<u64>) -> (i: int)
    requires
        keys.len() > 0,
    ensures
        is_first_min(keys, i),
    decreases keys.len(),
{
    let last = keys.len() - 1;
    if last == 0 {
        0
    } else {
        let front = keys.drop_last();
        let i = lemma_some_min(front);
        assert forall|k: int| 0 <= k < last implies #[trigger] keys[k] == front[k] by {}
        if keys[last] < keys[i] {
            assert forall|k: int| 0 <= k < last implies #[trigger] keys[k] > keys[last] by {
                assert(front[k] >= front[i]);
            }
            last
        } else {
            assert forall|k: int| i <= k < keys.len() implies #[trigger] keys[k] >= keys[i] by {
                if k < last {
                    assert(front[k] >= front[i]);
                }
            }
            i
        }
    }
}

/// Where there are keys, one of them is the first of the smallest.
pub proof fn lemma_min_exists(keys: Seq<u64>)
    requires
        keys.len() > 0,
    ensures
        is_first_min(keys, min_at(keys)),
{
    let i = lemma_some_min(keys);
    assert(is_first_min(keys, i));
}

/// `i` is the first of the largest keys, or 0 if no key is above zero.
pub open spec fn is_first_peak(keys: Seq<u64>, i: int) -> bool {
    if forall|k: int| 0 <= k < keys.len() ==> #[trigger] keys[k] == 0 {
        i == 0
    } else {
        &&& 0 <= i < keys.len()
        &&& forall|k: int| 0 <= k < i ==> #[trigger] keys[k] < keys[i]
        &&& forall|k: int| i <= k < keys.len() ==> #[trigger] keys[k] <= keys[i]
    }
}

/// Where the first of the largest keys stands; 0 if no key is above zero.
pub open spec fn peak_at(keys: Seq<u64>) -> int {
    choose|i: int| is_first_peak(keys, i)
}

proof fn lemma_first_peak_is_unique(keys: Seq<u64>, i: int, j: int)
    requires
        is_first_peak(keys, i),
        is_first_peak(keys, j),
    ensures
        i == j,
{
    if !(forall|k: int| 0 <= k < keys.len() ==> #[trigger] keys[k] == 0) {
        if i < j {
            assert(keys[i] < keys[j]);
        } else if j < i {
            assert(keys[j] < keys[i]);
        }
    }
}

/// The first of the largest keys, or 0 if no key is above zero.
pub fn first_peak(keys: &[u64]) -> (r: usize)
    ensures
        is_first_peak(keys@, r as int),
        r == peak_at(keys@),
{
    let mut best: usize = 0;
    let mut top: u64 = 0;
    let mut i: usize = 0;
    while i < keys.len()
        invariant
            i <= keys@.len(),
            top == 0 ==> best == 0 && forall|k: int| 0 <= k < i ==> #[trigger] keys@[k] == 0,
            top > 0 ==> best < i && keys@[best as int] == top,
            forall|k: int| 0 <= k < best ==> #[trigger] keys@[k] < top,
            forall|k: int| best <= k < i ==> #[trigger] keys@[k] <= top,
        decreases keys@.len() - i,
    {
        if keys[i] > top {
            top = keys[i];
            best = i;
        }
        i = i + 1;
    }
    if top > 0 {
        assert(keys@[best as int] != 0);
    }
    proof {
        assert(is_first_peak(keys@, best as int));
        lemma_first_peak_is_unique(keys@, best as int, peak_at(keys@));
    }
    best
}

/// An order holds every item once, no item comes before one with a smaller key, and items
/// with the same key stay as they came.
pub proof fn law_orders_are_stable(keys: Seq<u64>, r: Seq<usize>, i: int, j: int)
    requires
        is_order(keys, r),
        0 <= i < j < r.len(),
    ensures
        r.len() == keys.len(),
        r[i] < keys.len() && r[j] < keys.len(),
        r[i] != r[j],
        keys[r[i] as int] <= keys[r[j] as int],
        keys[r[i] as int] == keys[r[j] as int] ==> r[i] < r[j],
{
    assert(before(keys, r[i], r[j]));
    assert(r.contains(r[i]) && r.contains(r[j]));
}

/// The first of the smallest keys: none is smaller, and every one before it is larger.
pub proof fn law_the_first_of_the_smallest(keys: Seq<u64>, i: int, k: int)
    requires
        is_first_min(keys, i),
        0 <= k < keys.len(),
    ensures
        0 <= i < keys.len(),
        keys[i] <= keys[k],
        k < i ==> keys[i] < keys[k],
        min_at(keys) == i,
{
    let m = min_at(keys);
    assert(is_first_min(keys, m));
    if m < i {
        assert(keys[m] > keys[i]);
        assert(keys[i] >= keys[m]);
    } else if i < m {
        assert(keys[i] > keys[m]);
        assert(keys[m] >= keys[i]);
    }
}

/// The first of the largest keys: none is larger, and every one before it is smaller, or
/// it is the very first.
pub proof fn law_the_first_of_the_largest(keys: Seq<u64>, i: int, k: int)
    requires
        is_first_peak(keys, i),
        0 <= k < keys.len(),
    ensures
        0 <= i < keys.len(),
        keys[k] <= keys[i],
        k < i ==> keys[k] < keys[i],
        peak_at(keys) == i,
{
    assert(is_first_peak(keys, peak_at(keys)));
    lemma_first_peak_is_unique(keys, i, peak_at(keys));
}

} // verus!
