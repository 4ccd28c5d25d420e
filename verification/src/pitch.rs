//! Pitch detection: the lag at which the loudest window of a sound repeats itself.
//!
//! How good a lag is comes as the bits of a nonnegative single, which are ordered as
//! the numbers are.

use crate::func::{of1, of2, of3, pure1, pure2, pure3};
use crate::order::{first_peak, is_first_peak, law_the_first_of_the_largest};
use vstd::prelude::*;

verus! {

/// How many samples pitch is looked for in.
pub const PITCH_WINDOW: usize = 4096;

/// How far apart the windows start.
pub const PITCH_HOP: usize = 1024;

/// The note of a sound in which no pitch is found.
pub const DEFAULT_NOTE: i32 = 48;

/// A lag this good (0.15 as the bits of an `IEEE` single) is taken at once.
pub const DIP: u64 = 0x3e19999a;

/// A lag worse than this (0.6) means that there is no pitch.
pub const VOICED: u64 = 0x3f19999a;

/// The windows of a signal of `len` samples: how long they are and where they
/// start.
pub fn pitch_windows(len: usize) -> (r: (usize, Vec<usize>))
    ensures
        r.0 == if len < PITCH_WINDOW {
            len
        } else {
            PITCH_WINDOW
        },
        r.1@.len() == (len - r.0) / PITCH_HOP as int + 1,
        forall|i: int| 0 <= i < r.1@.len() ==> #[trigger] r.1@[i] == PITCH_HOP * i,
{
    let w: usize = if len < PITCH_WINDOW {
        len
    } else {
        PITCH_WINDOW
    };
    let n: usize = (len - w) / PITCH_HOP + 1;
    let mut starts: Vec<usize> = Vec::new();
    let mut i: usize = 0;
    while i < n
        invariant
            i <= n,
            n == (len - w) / PITCH_HOP as int + 1,
            w <= len,
            starts@.len() == i,
            forall|k: int| 0 <= k < i ==> #[trigger] starts@[k] == PITCH_HOP * k,
        decreases n - i,
    {
        starts.push(PITCH_HOP * i);
        i = i + 1;
    }
    (w, starts)
}

/// The lags to look at, from `lo` up to `hi` but no longer than half the window;
/// none if fewer than four remain.
pub fn period_range(lo: usize, hi: usize, w: usize) -> (r: Option<(usize, usize)>)
    ensures
        ({
            let top = if hi < w / 2 {
                hi
            } else {
                w / 2
            };
            r == if top <= lo + 2 {
                None
            } else {
                Some((lo, top))
            }
        }),
{
    let top: usize = if hi < w / 2 {
        hi
    } else {
        w / 2
    };
    if top <= lo || top - lo <= 2 {
        None
    } else {
        Some((lo, top))
    }
}

/// How much a run differs from itself `tau` later, over its first `n` values: `step`
/// takes in a value and its later counterpart.
pub open spec fn difference<T, F: Fn(T, T, T) -> T>(step: F, zero: T, seg: Seq<T>, tau: int, n: int) -> T
    decreases n,
{
    if n <= 0 {
        zero
    } else {
        of3(step, difference(step, zero, seg, tau, n - 1), seg[n - 1], seg[n - 1 + tau])
    }
}

/// How much a run differs from itself at every lag up to `hi`, over as many values
/// as have a counterpart at all of them.
pub fn differences<T: Copy, F: Fn(T, T, T) -> T>(seg: &[T], hi: usize, zero: T, step: &F) -> (r: Vec<T>)
    requires
        hi <= seg@.len(),
        hi < usize::MAX,
        pure3(*step),
    ensures
        r@.len() == hi + 1,
        r@[0] == zero,
        forall|tau: int|
            1 <= tau <= hi ==> #[trigger] r@[tau] == difference(
                *step,
                zero,
                seg@,
                tau,
                seg@.len() - hi,
            ),
{
    let span: usize = seg.len() - hi;
    let mut r: Vec<T> = Vec::new();
    r.push(zero);
    let mut tau: usize = 1;
    while tau <= hi
        invariant
            1 <= tau <= hi + 1,
            hi < usize::MAX,
            span + hi == seg@.len(),
            pure3(*step),
            r@.len() == tau,
            r@[0] == zero,
            forall|t: int|
                1 <= t < tau ==> #[trigger] r@[t] == difference(*step, zero, seg@, t, span as int),
        decreases hi + 1 - tau,
    {
        let mut acc: T = zero;
        let mut i: usize = 0;
        while i < span
            invariant
                i <= span,
                1 <= tau <= hi,
                span + hi == seg@.len(),
                pure3(*step),
                acc == difference(*step, zero, seg@, tau as int, i as int),
            decreases span - i,
        {
            assert(seg@.len() == seg.len());
            acc = step(acc, seg[i], seg[i + tau]);
            i = i + 1;
        }
        r.push(acc);
        tau = tau + 1;
    }
    r
}

/// The sum of the values from the second up to the one at `n`.
pub open spec fn running<T, P: Fn(T, T) -> T>(plus: P, zero: T, d: Seq<T>, n: int) -> T
    decreases n,
{
    if n <= 0 {
        zero
    } else {
        of2(plus, running(plus, zero, d, n - 1), d[n])
    }
}

/// Puts every difference in proportion to the differences up to it: `ratio` is given
/// the difference, its lag and the running sum. The first is `one`.
pub fn normalised<T: Copy, P: Fn(T, T) -> T, R: Fn(T, usize, T) -> T>(
    d: &[T],
    zero: T,
    one: T,
    plus: &P,
    ratio: &R,
) -> (r: Vec<T>)
    requires
        d@.len() > 0,
        pure2(*plus),
        pure3(*ratio),
    ensures
        r@.len() == d@.len(),
        r@[0] == one,
        forall|t: int|
            1 <= t < d@.len() ==> #[trigger] r@[t] == of3(
                *ratio,
                d@[t],
                t as usize,
                running(*plus, zero, d@, t),
            ),
{
    let mut r: Vec<T> = Vec::new();
    r.push(one);
    let mut cum: T = zero;
    let mut t: usize = 1;
    while t < d.len()
        invariant
            1 <= t <= d@.len(),
            pure2(*plus),
            pure3(*ratio),
            cum == running(*plus, zero, d@, t - 1),
            r@.len() == t,
            r@[0] == one,
            forall|k: int|
                1 <= k < t ==> #[trigger] r@[k] == of3(
                    *ratio,
                    d@[k],
                    k as usize,
                    running(*plus, zero, d@, k),
                ),
        decreases d@.len() - t,
    {
        cum = plus(cum, d[t]);
        let v: T = ratio(d[t], t, cum);
        r.push(v);
        t = t + 1;
    }
    r
}

/// `t` is where the curve stops falling when followed from `from` up to `hi`.
pub open spec fn is_bottom(curve: Seq<u64>, from: int, hi: int, t: int) -> bool {
    &&& from <= t <= hi
    &&& forall|k: int| from <= k < t ==> #[trigger] curve[k + 1] < curve[k]
    &&& t < hi ==> curve[t + 1] >= curve[t]
}

/// `tau` is the first lag from `lo` to `hi` whose value is below `DIP`.
pub open spec fn is_first_dip(curve: Seq<u64>, lo: int, hi: int, tau: int) -> bool {
    &&& lo <= tau <= hi
    &&& curve[tau] < DIP
    &&& forall|k: int| lo <= k < tau ==> #[trigger] curve[k] >= DIP
}

/// `tau` is the first of the smallest values from `lo` to `hi`.
pub open spec fn is_lowest(curve: Seq<u64>, lo: int, hi: int, tau: int) -> bool {
    &&& lo <= tau <= hi
    &&& forall|k: int| lo <= k < tau ==> #[trigger] curve[k] > curve[tau]
    &&& forall|k: int| tau <= k <= hi ==> #[trigger] curve[k] >= curve[tau]
}

/// `r` is the lag that the curve of differences is read at: the bottom below the
/// first dip; without a dip the lowest value, if it is good enough. Lag 0 is
/// never the answer.
pub open spec fn is_period(curve: Seq<u64>, lo: int, hi: int, r: Option<int>) -> bool {
    if exists|tau: int, t: int|
        #[trigger] is_first_dip(curve, lo, hi, tau) && #[trigger] is_bottom(curve, tau, hi, t) && t
            > 0 {
        r matches Some(t) && t > 0 && exists|tau: int| #[trigger]
            is_first_dip(curve, lo, hi, tau) && is_bottom(curve, tau, hi, t)
    } else {
        match r {
            Some(t) => t > 0 && is_lowest(curve, lo, hi, t) && curve[t] <= VOICED,
            None => forall|t: int|
                #[trigger] is_lowest(curve, lo, hi, t) ==> t == 0 || curve[t] > VOICED,
        }
    }
}

/// Picks the lag of the pitch from a curve of differences (the bits of
/// nonnegative `IEEE` singles).
pub fn pick_period(curve: &[u64], lo: usize, hi: usize) -> (r: Option<usize>)
    requires
        lo <= hi < curve@.len(),
    ensures
        is_period(
            curve@,
            lo as int,
            hi as int,
            match r {
                Some(t) => Some(t as int),
                None => None,
            },
        ),
{
    let mut tau: usize = lo;
    while tau < hi && curve[tau] >= DIP
        invariant
            lo <= tau <= hi < curve@.len(),
            forall|k: int| lo <= k < tau ==> #[trigger] curve@[k] >= DIP,
        decreases hi - tau,
    {
        tau = tau + 1;
    }
    if curve[tau] < DIP {
        let mut t: usize = tau;
        while t < hi && curve[t + 1] < curve[t]
            invariant
                tau <= t <= hi < curve@.len(),
                forall|k: int| tau <= k < t ==> #[trigger] curve@[k + 1] < curve@[k],
            decreases hi - t,
        {
            t = t + 1;
        }
        assert(is_first_dip(curve@, lo as int, hi as int, tau as int));
        assert(is_bottom(curve@, tau as int, hi as int, t as int));
        if t > 0 {
            return Some(t);
        }
        assert forall|a: int, b: int|
            #[trigger] is_first_dip(curve@, lo as int, hi as int, a) && #[trigger] is_bottom(
                curve@,
                a,
                hi as int,
                b,
            ) implies b == 0 by {
            assert(a == 0);
            if b > 0 {
                assert(curve@[0int + 1] < curve@[0]);
            }
        }
    }
    let mut best: usize = lo;
    let mut k: usize = lo;
    while k < hi
        invariant
            lo <= best <= k <= hi < curve@.len(),
            forall|j: int| lo <= j < best ==> #[trigger] curve@[j] > curve@[best as int],
            forall|j: int| best <= j <= k ==> #[trigger] curve@[j] >= curve@[best as int],
        decreases hi - k,
    {
        k = k + 1;
        if curve[k] < curve[best] {
            best = k;
        }
    }
    assert(is_lowest(curve@, lo as int, hi as int, best as int));
    if best == 0 || curve[best] > VOICED {
        assert forall|t: int| #[trigger] is_lowest(curve@, lo as int, hi as int, t) implies t == 0
            || curve@[t] > VOICED by {
            assert(t == best) by {
                if t < best {
                    assert(curve@[t] > curve@[best as int]);
                    assert(curve@[best as int] >= curve@[t]);
                } else if t > best {
                    assert(curve@[best as int] > curve@[t]);
                    assert(curve@[t] >= curve@[best as int]);
                }
            }
        }
        None
    } else {
        Some(best)
    }
}

/// The curve settles the pitch: there is only one lag to read it at.
pub proof fn law_period_is_unique(curve: Seq<u64>, lo: int, hi: int, r: Option<int>, s: Option<int>)
    requires
        0 <= lo <= hi < curve.len(),
        is_period(curve, lo, hi, r),
        is_period(curve, lo, hi, s),
    ensures
        r == s,
{
    if exists|tau: int, t: int|
        #[trigger] is_first_dip(curve, lo, hi, tau) && #[trigger] is_bottom(curve, tau, hi, t) && t
            > 0 {
        let a = r->0;
        let b = s->0;
        let p = choose|tau: int| #[trigger]
            is_first_dip(curve, lo, hi, tau) && is_bottom(curve, tau, hi, a);
        let q = choose|tau: int| #[trigger]
            is_first_dip(curve, lo, hi, tau) && is_bottom(curve, tau, hi, b);
        if p < q {
            assert(curve[p] >= DIP);
        }
        if q < p {
            assert(curve[q] >= DIP);
        }
        if a < b {
            assert(curve[a + 1] < curve[a]);
        }
        if b < a {
            assert(curve[b + 1] < curve[b]);
        }
    } else {
        lemma_lowest_exists(curve, lo, hi);
        let m = choose|t: int| is_lowest(curve, lo, hi, t);
        assert forall|t: int| #[trigger] is_lowest(curve, lo, hi, t) implies t == m by {
            if t < m {
                assert(curve[t] > curve[m]);
                assert(curve[m] >= curve[t]);
            } else if t > m {
                assert(curve[m] > curve[t]);
                assert(curve[t] >= curve[m]);
            }
        }
    }
}

proof fn lemma_lowest_exists(curve: Seq<u64>, lo: int, hi: int)
    requires
        lo <= hi,
    ensures
        exists|t: int| is_lowest(curve, lo, hi, t),
    decreases hi - lo,
{
    if lo == hi {
        assert(is_lowest(curve, lo, hi, lo));
    } else {
        let h = hi - 1;
        lemma_lowest_exists(curve, lo, h);
        let t = choose|t: int| is_lowest(curve, lo, h, t);
        if curve[hi] < curve[t] {
            assert(is_lowest(curve, lo, hi, hi)) by {
                assert forall|k: int| lo <= k < hi implies #[trigger] curve[k] > curve[hi] by {
                    if k < t {
                        assert(curve[k] > curve[t]);
                    } else {
                        assert(curve[k] >= curve[t]);
                    }
                }
            }
        } else {
            assert(is_lowest(curve, lo, hi, t));
        }
    }
}

/// A dip is read at its bottom: where the curve is below 0.15 at a lag and at none before
/// it, and falls from there to a lag at which it falls no further, that is the lag.
pub proof fn law_a_dip_is_read_at_its_bottom(
    curve: Seq<u64>,
    lo: int,
    hi: int,
    tau: int,
    t: int,
    r: Option<int>,
)
    requires
        0 <= lo <= tau <= t <= hi < curve.len(),
        is_period(curve, lo, hi, r),
        0 < t,
        curve[tau] < 0x3e19999a,
        forall|k: int| lo <= k < tau ==> #[trigger] curve[k] >= 0x3e19999a,
        forall|k: int| tau <= k < t ==> #[trigger] curve[k + 1] < curve[k],
        t < hi ==> curve[t + 1] >= curve[t],
    ensures
        r == Some(t),
{
    assert(is_first_dip(curve, lo, hi, tau));
    assert(is_bottom(curve, tau, hi, t));
    let p = choose|p: int| #[trigger]
        is_first_dip(curve, lo, hi, p) && is_bottom(curve, p, hi, r->0);
    if p < tau {
        assert(curve[p] >= 0x3e19999a);
    }
    if tau < p {
        assert(curve[tau] >= DIP);
    }
    let q = r->0;
    if q < t {
        assert(curve[q + 1] < curve[q]);
    }
    if t < q {
        assert(curve[t + 1] < curve[t]);
    }
}

/// Without a dip the lowest lag is read, if it is good enough: where no lag is below 0.15,
/// the first of the lowest is the lag where it is at most 0.6, and there is none where it
/// is above.
pub proof fn law_the_lowest_is_read_without_a_dip(
    curve: Seq<u64>,
    lo: int,
    hi: int,
    t: int,
    r: Option<int>,
)
    requires
        0 <= lo <= t <= hi < curve.len(),
        is_period(curve, lo, hi, r),
        forall|k: int| lo <= k <= hi ==> #[trigger] curve[k] >= 0x3e19999a,
        forall|k: int| lo <= k < t ==> #[trigger] curve[k] > curve[t],
        forall|k: int| t <= k <= hi ==> #[trigger] curve[k] >= curve[t],
    ensures
        0 < t && curve[t] <= 0x3f19999a ==> r == Some(t),
        t == 0 || curve[t] > 0x3f19999a ==> r is None,
{
    assert forall|tau: int| !#[trigger] is_first_dip(curve, lo, hi, tau) by {
        if lo <= tau <= hi {
            assert(curve[tau] >= 0x3e19999a);
        }
    }
    assert(is_lowest(curve, lo, hi, t));
    if let Some(q) = r {
        if q < t {
            assert(curve[q] > curve[t]);
            assert(curve[t] >= curve[q]);
        }
        if t < q {
            assert(curve[t] > curve[q]);
            assert(curve[q] >= curve[t]);
        }
    }
}

/// There is no pitch only where every lag is above 0.6, or where a lag of nothing is the
/// best; where every lag is above 0.6 there is none.
pub proof fn law_no_pitch_means_no_good_lag(curve: Seq<u64>, lo: int, hi: int, r: Option<int>)
    requires
        0 <= lo <= hi < curve.len(),
        is_period(curve, lo, hi, r),
    ensures
        r is None ==> (forall|k: int| lo <= k <= hi ==> #[trigger] curve[k] > 0x3f19999a) || (lo == 0
            && forall|k: int| 0 <= k <= hi ==> curve[0] <= #[trigger] curve[k]),
        (forall|k: int| lo <= k <= hi ==> #[trigger] curve[k] > 0x3f19999a) ==> r is None,
        r matches Some(t) ==> 0 < t && lo <= t <= hi && curve[t] <= 0x3f19999a,
{
    lemma_lowest_exists(curve, lo, hi);
    let m = choose|t: int| is_lowest(curve, lo, hi, t);
    if let Some(t) = r {
        if exists|tau: int, t: int|
            #[trigger] is_first_dip(curve, lo, hi, tau) && #[trigger] is_bottom(curve, tau, hi, t)
                && t > 0 {
            let p = choose|p: int| #[trigger]
                is_first_dip(curve, lo, hi, p) && is_bottom(curve, p, hi, t);
            lemma_falls(curve, p, t);
        }
        assert(curve[t] <= 0x3f19999a);
    }
    if r is None {
        assert(is_lowest(curve, lo, hi, m));
        assert forall|k: int| lo <= k <= hi implies curve[m] <= #[trigger] curve[k] by {
            if k < m {
                assert(curve[k] > curve[m]);
            }
        }
    }
}

/// A curve that falls from one lag to another is no higher there.
proof fn lemma_falls(curve: Seq<u64>, from: int, to: int)
    requires
        from <= to,
        forall|k: int| from <= k < to ==> #[trigger] curve[k + 1] < curve[k],
    ensures
        curve[to] <= curve[from],
    decreases to - from,
{
    if from < to {
        lemma_falls(curve, from, to - 1);
        assert(curve[to - 1 + 1] < curve[to - 1]);
    }
}

/// A difference takes in every value with the one a lag behind it: where `e` is the
/// difference before each of the first `n` values, the whole is the last of them.
pub proof fn law_differences_take_in_every_pair<T, F: Fn(T, T, T) -> T>(
    step: F,
    zero: T,
    seg: Seq<T>,
    tau: int,
    n: int,
    e: Seq<T>,
)
    requires
        0 <= n,
        e.len() == n + 1,
        e[0] == zero,
        forall|i: int|
            0 <= i < n ==> e[i + 1] == of3(step, #[trigger] e[i], seg[i], seg[i + tau]),
    ensures
        difference(step, zero, seg, tau, n) == e[n],
    decreases n,
{
    if n > 0 {
        let f = e.take(n);
        assert forall|i: int| 0 <= i < n - 1 implies f[i + 1] == of3(
            step,
            #[trigger] f[i],
            seg[i],
            seg[i + tau],
        ) by {
            assert(e[i + 1] == of3(step, e[i], seg[i], seg[i + tau]));
        }
        law_differences_take_in_every_pair(step, zero, seg, tau, n - 1, f);
        assert(e[n - 1 + 1] == of3(step, e[n - 1], seg[n - 1], seg[n - 1 + tau]));
    }
}

/// A running sum takes in the values behind the first: where `e` is the sum up to each,
/// from nothing at the first on.
pub proof fn law_running_sums_take_in_every_value<T, P: Fn(T, T) -> T>(
    plus: P,
    zero: T,
    d: Seq<T>,
    n: int,
    e: Seq<T>,
)
    requires
        0 <= n,
        e.len() == n + 1,
        e[0] == zero,
        forall|i: int| 0 <= i < n ==> e[i + 1] == of2(plus, #[trigger] e[i], d[i + 1]),
    ensures
        running(plus, zero, d, n) == e[n],
    decreases n,
{
    if n > 0 {
        let f = e.take(n);
        assert forall|i: int| 0 <= i < n - 1 implies f[i + 1] == of2(plus, #[trigger] f[i], d[i + 1]) by {
            assert(e[i + 1] == of2(plus, e[i], d[i + 1]));
        }
        law_running_sums_take_in_every_value(plus, zero, d, n - 1, f);
        assert(e[n - 1 + 1] == of2(plus, e[n - 1], d[n - 1 + 1]));
    }
}

// ---- the whole of it -----------------------------------------------------------------------

/// The arithmetic of pitch detection.
pub struct PitchOps<T, E, G, K, D, P, R, B, N> {
    pub zero: T,
    pub one: T,
    /// An energy and that of one more sample.
    pub energy: E,
    /// How loud an energy is, as a key.
    pub loud: G,
    /// The bits of a nonnegative value.
    pub bits: K,
    /// A difference and that of one more pair of samples.
    pub differ: D,
    pub plus: P,
    /// A difference, its lag and the sum of the differences up to it, in proportion.
    pub ratio: R,
    /// The note of a lag, from how good the lag before it, the lag itself and the
    /// lag behind it are.
    pub between: B,
    /// The note of a lag at an end of the range.
    pub at_end: N,
}

/// How long a window of a sound of `len` samples is.
pub open spec fn window_len(len: int) -> int {
    if len < PITCH_WINDOW {
        len
    } else {
        PITCH_WINDOW as int
    }
}

impl<
    T: Copy,
    E: Fn(T, T) -> T,
    G: Fn(T) -> u64,
    K: Fn(T) -> u64,
    D: Fn(T, T, T) -> T,
    P: Fn(T, T) -> T,
    R: Fn(T, usize, T) -> T,
    B: Fn(usize, (T, T, T)) -> i32,
    N: Fn(usize) -> i32,
> PitchOps<T, E, G, K, D, P, R, B, N> {
    pub open spec fn pure(&self) -> bool {
        &&& pure2(self.energy)
        &&& pure1(self.loud)
        &&& pure1(self.bits)
        &&& pure3(self.differ)
        &&& pure2(self.plus)
        &&& pure3(self.ratio)
        &&& pure2(self.between)
        &&& pure1(self.at_end)
    }

    /// The energy of `n` samples from `from`.
    pub open spec fn energy_of(&self, x: Seq<T>, from: int, n: int) -> T
        decreases n,
    {
        if n <= 0 {
            self.zero
        } else {
            of2(self.energy, self.energy_of(x, from, n - 1), x[from + n - 1])
        }
    }

    /// The energies of all windows, as keys.
    pub open spec fn energies(&self, x: Seq<T>) -> Seq<u64> {
        let w = window_len(x.len() as int);
        Seq::new(
            ((x.len() - w) / PITCH_HOP as int + 1) as nat,
            |i: int| of1(self.loud, self.energy_of(x, PITCH_HOP * i, w)),
        )
    }

    /// How much a run differs from itself at every lag up to `hi`, in proportion.
    pub open spec fn curve(&self, seg: Seq<T>, hi: int) -> Seq<T> {
        let d = Seq::new(
            (hi + 1) as nat,
            |t: int|
                if t == 0 {
                    self.zero
                } else {
                    difference(self.differ, self.zero, seg, t, seg.len() - hi)
                },
        );
        Seq::new(
            (hi + 1) as nat,
            |t: int|
                if t == 0 {
                    self.one
                } else {
                    of3(self.ratio, d[t], t as usize, running(self.plus, self.zero, d, t))
                },
        )
    }

    /// The note of the lag that a curve was read at.
    pub open spec fn note_at(&self, c: Seq<T>, hi: int, t: Option<int>) -> i32 {
        match t {
            None => DEFAULT_NOTE,
            Some(t) => if 1 < t < hi {
                of2(self.between, t as usize, (c[t - 1], c[t], c[t + 1]))
            } else {
                of1(self.at_end, t as usize)
            },
        }
    }

    /// How good every lag up to `hi` is, as keys.
    pub open spec fn curve_keys(&self, seg: Seq<T>, hi: int) -> Seq<u64> {
        self.curve(seg, hi).map_values(|v: T| of1(self.bits, v))
    }

    /// The lag `t` is picked, and `note` is its note.
    pub open spec fn picks(&self, seg: Seq<T>, lo: int, hi: int, t: Option<int>, note: i32) -> bool {
        is_period(self.curve_keys(seg, hi), lo, hi, t) && note == self.note_at(
            self.curve(seg, hi),
            hi,
            t,
        )
    }

    /// `note` is the note of a run that is looked at from lag `lo` to lag `hi`, but no
    /// longer than half the run.
    pub open spec fn is_note_of(&self, seg: Seq<T>, lo: int, hi: int, note: i32) -> bool {
        let half = (seg.len() / 2) as int;
        if hi < half {
            if hi <= lo + 2 {
                note == DEFAULT_NOTE
            } else {
                exists|t: Option<int>| #[trigger] self.picks(seg, lo, hi, t, note)
            }
        } else {
            if half <= lo + 2 {
                note == DEFAULT_NOTE
            } else {
                exists|t: Option<int>| #[trigger] self.picks(seg, lo, half, t, note)
            }
        }
    }

    /// `note` is the note of a sound: that of its first loudest window.
    pub open spec fn is_note(&self, x: Seq<T>, lo: int, hi: int, note: i32) -> bool {
        exists|b: int| #[trigger]
            is_first_peak(self.energies(x), b) && self.is_note_of(
                x.subrange(PITCH_HOP * b, PITCH_HOP * b + window_len(x.len() as int)),
                lo,
                hi,
                note,
            )
    }

    /// Windows are up to 4096 samples long and start every 1024, as long as they end inside
    /// the sound; each is as loud as the energy of all its samples, where `e` is the energy
    /// before each of them.
    pub proof fn law_windows_are_heard_whole(&self, x: Seq<T>, i: int, w: int, e: Seq<T>)
        requires
            w == if x.len() < 4096 {
                x.len() as int
            } else {
                4096
            },
            0 <= i,
            1024 * i + w <= x.len(),
            e.len() == w + 1,
            e[0] == self.zero,
            forall|k: int|
                0 <= k < w ==> e[k + 1] == of2(self.energy, #[trigger] e[k], x[1024 * i + k]),
        ensures
            window_len(x.len() as int) == w,
            i < self.energies(x).len(),
            1024 * self.energies(x).len() + w > x.len(),
            self.energies(x)[i] == of1(self.loud, e[w]),
    {
        self.lemma_energy_run(x, 1024 * i, w, e, w);
    }

    proof fn lemma_energy_run(&self, x: Seq<T>, from: int, w: int, e: Seq<T>, n: int)
        requires
            0 <= n <= w,
            e.len() == w + 1,
            e[0] == self.zero,
            forall|k: int|
                0 <= k < w ==> e[k + 1] == of2(self.energy, #[trigger] e[k], x[from + k]),
        ensures
            self.energy_of(x, from, n) == e[n],
        decreases n,
    {
        if n > 0 {
            self.lemma_energy_run(x, from, w, e, n - 1);
            assert(e[n - 1 + 1] == of2(self.energy, e[n - 1], x[from + (n - 1)]));
        }
    }

    /// A lag is as good as its difference is small in proportion: it takes in as many
    /// samples as have one `hi` behind them, the lag itself and the sum of the differences
    /// up to it. A lag of nothing counts as `one`.
    pub proof fn law_curves_are_in_proportion(&self, seg: Seq<T>, hi: int, d: Seq<T>, t: int)
        requires
            1 <= t <= hi,
            d.len() == hi + 1,
            forall|k: int|
                1 <= k <= hi ==> #[trigger] d[k] == difference(
                    self.differ,
                    self.zero,
                    seg,
                    k,
                    seg.len() - hi,
                ),
        ensures
            self.curve(seg, hi).len() == hi + 1,
            self.curve(seg, hi)[0] == self.one,
            self.curve(seg, hi)[t] == of3(
                self.ratio,
                d[t],
                t as usize,
                running(self.plus, self.zero, d, t),
            ),
            self.curve_keys(seg, hi)[t] == of1(self.bits, self.curve(seg, hi)[t]),
    {
        let e = Seq::new(
            (hi + 1) as nat,
            |t: int|
                if t == 0 {
                    self.zero
                } else {
                    difference(self.differ, self.zero, seg, t, seg.len() - hi)
                },
        );
        self.lemma_same_running(d, e, t);
    }

    proof fn lemma_same_running(&self, d: Seq<T>, e: Seq<T>, n: int)
        requires
            forall|k: int| 1 <= k <= n ==> #[trigger] d[k] == e[k],
        ensures
            running(self.plus, self.zero, d, n) == running(self.plus, self.zero, e, n),
        decreases n,
    {
        if n > 0 {
            self.lemma_same_running(d, e, n - 1);
            assert(d[n] == e[n]);
        }
    }

    /// The loudest window is read: where a window is louder than every one before it and no
    /// less loud than any behind it, the note of the sound is the note of that window.
    pub proof fn law_the_loudest_window_is_read(
        &self,
        x: Seq<T>,
        lo: int,
        hi: int,
        note: i32,
        b: int,
        w: int,
    )
        requires
            self.is_note(x, lo, hi, note),
            w == if x.len() < 4096 {
                x.len() as int
            } else {
                4096
            },
            0 <= b < self.energies(x).len(),
            forall|k: int| 0 <= k < b ==> #[trigger] self.energies(x)[k] < self.energies(x)[b],
            forall|k: int|
                b <= k < self.energies(x).len() ==> #[trigger] self.energies(x)[k]
                    <= self.energies(x)[b],
        ensures
            self.is_note_of(x.subrange(1024 * b, 1024 * b + w), lo, hi, note),
    {
        let keys = self.energies(x);
        let p = choose|p: int| #[trigger]
            is_first_peak(keys, p) && self.is_note_of(
                x.subrange(PITCH_HOP * p, PITCH_HOP * p + window_len(x.len() as int)),
                lo,
                hi,
                note,
            );
        law_the_first_of_the_largest(keys, p, b);
        if p < b {
            assert(keys[p] < keys[b]);
        }
        assert(p == b);
    }

    /// The note is that of the lag that is picked, of those up to `hi` or half the window:
    /// between its neighbours where it has two, and at an end of the range by itself; a
    /// window without a pitch, or with too few lags to look at, has note 48.
    pub proof fn law_the_note_is_that_of_the_lag(
        &self,
        seg: Seq<T>,
        lo: int,
        hi: int,
        note: i32,
        top: int,
        t: Option<int>,
    )
        requires
            0 <= lo,
            0 <= hi,
            self.is_note_of(seg, lo, hi, note),
            top == if hi < seg.len() as int / 2 {
                hi
            } else {
                (seg.len() / 2) as int
            },
            lo + 2 < top ==> is_period(self.curve_keys(seg, top), lo, top, t),
        ensures
            top <= lo + 2 ==> note == 48,
            lo + 2 < top && t is None ==> note == 48,
            lo + 2 < top && t is Some && 1 < t->0 < top ==> note == of2(
                self.between,
                t->0 as usize,
                (
                    self.curve(seg, top)[t->0 - 1],
                    self.curve(seg, top)[t->0],
                    self.curve(seg, top)[t->0 + 1],
                ),
            ),
            lo + 2 < top && t is Some && !(1 < t->0 < top) ==> note == of1(
                self.at_end,
                t->0 as usize,
            ),
    {
        if lo + 2 < top {
            let s = choose|s: Option<int>| #[trigger] self.picks(seg, lo, top, s, note);
            law_period_is_unique(self.curve_keys(seg, top), lo, top, s, t);
        }
    }

    /// The MIDI note of a sound, by a lag from `lo` to `hi`; a default where no pitch
    /// is found.
    pub fn detect_midi(&self, x: &[T], lo: usize, hi: usize) -> (note: i32)
        requires
            self.pure(),
        ensures
            self.is_note(x@, lo as int, hi as int, note),
    {
        let len: usize = x.len();
        let (w, starts) = pitch_windows(len);
        let mut keys: Vec<u64> = Vec::new();
        let mut i: usize = 0;
        while i < starts.len()
            invariant
                i <= starts@.len(),
                self.pure(),
                len == x@.len(),
                w == window_len(len as int),
                starts@.len() == (len - w) / PITCH_HOP as int + 1,
                forall|i: int| 0 <= i < starts@.len() ==> #[trigger] starts@[i] == PITCH_HOP * i,
                keys@ == self.energies(x@).take(i as int),
            decreases starts@.len() - i,
        {
            let from: usize = starts[i];
            assert(PITCH_HOP * i + w <= len);
            let mut e: T = self.zero;
            let mut k: usize = 0;
            while k < w
                invariant
                    k <= w,
                    from + w <= len,
                    len == x@.len(),
                    self.pure(),
                    e == self.energy_of(x@, from as int, k as int),
                decreases w - k,
            {
                e = (self.energy)(e, x[from + k]);
                k = k + 1;
            }
            let key: u64 = (self.loud)(e);
            keys.push(key);
            i = i + 1;
            assert(keys@ =~= self.energies(x@).take(i as int));
        }
        assert(keys@ =~= self.energies(x@));
        let b: usize = first_peak(keys.as_slice());
        assert(b < starts@.len());
        let from: usize = starts[b];
        let seg: &[T] = vstd::slice::slice_subrange(x, from, from + w);
        let note: i32 = self.note_of(seg, lo, hi);
        assert(is_first_peak(self.energies(x@), b as int));
        note
    }

    fn note_of(&self, seg: &[T], lo: usize, hi: usize) -> (note: i32)
        requires
            self.pure(),
        ensures
            self.is_note_of(seg@, lo as int, hi as int, note),
    {
        let n: usize = seg.len();
        let top: usize = match period_range(lo, hi, n) {
            None => {
                return DEFAULT_NOTE;
            },
            Some((_, top)) => top,
        };
        let d: Vec<T> = differences(seg, top, self.zero, &self.differ);
        let c: Vec<T> = normalised(d.as_slice(), self.zero, self.one, &self.plus, &self.ratio);
        proof {
            let want = Seq::new(
                (top + 1) as nat,
                |t: int|
                    if t == 0 {
                        self.zero
                    } else {
                        difference(self.differ, self.zero, seg@, t, seg@.len() - top)
                    },
            );
            assert(d@ =~= want);
            assert(c@ =~= self.curve(seg@, top as int));
        }
        let mut keys: Vec<u64> = Vec::new();
        let mut i: usize = 0;
        let ghost all = c@.map_values(|v: T| of1(self.bits, v));
        while i < c.len()
            invariant
                i <= c@.len(),
                self.pure(),
                all == c@.map_values(|v: T| of1(self.bits, v)),
                keys@ == all.take(i as int),
            decreases c@.len() - i,
        {
            let key: u64 = (self.bits)(c[i]);
            keys.push(key);
            i = i + 1;
            assert(keys@ =~= all.take(i as int));
        }
        assert(keys@ =~= all);
        let p = pick_period(keys.as_slice(), lo, top);
        let ghost t: Option<int> = match p {
            Some(t) => Some(t as int),
            None => None,
        };
        assert(all == self.curve_keys(seg@, top as int));
        let note: i32 = match p {
            None => DEFAULT_NOTE,
            Some(t) => {
                proof {
                    lemma_period_in_range(all, lo as int, top as int, t as int);
                }
                if t > 1 && t < top {
                    (self.between)(t, (c[t - 1], c[t], c[t + 1]))
                } else {
                    (self.at_end)(t)
                }
            },
        };
        assert(self.picks(seg@, lo as int, top as int, t, note));
        note
    }
}

/// A lag that was picked lies in the range.
proof fn lemma_period_in_range(curve: Seq<u64>, lo: int, hi: int, t: int)
    requires
        is_period(curve, lo, hi, Some(t)),
        0 <= lo <= hi < curve.len(),
    ensures
        lo <= t <= hi,
{
}

} // verus!
