//! What is done to a recording before it is matched: it becomes mono, goes at the
//! engine's rate, is as long as the engine's notes and as loud as any other.

use crate::dsp::{law_levels_go_by_the_peak, normalise, normalised, resample, resampled};
use crate::func::{of1, of2, pure1, pure2, pure3};
use vstd::prelude::*;

verus! {

/// The samples of the `k`th frame of a recording of `ch` channels. The last frame
/// may be short.
pub open spec fn frame<T>(raw: Seq<T>, ch: int, k: int) -> Seq<T> {
    let from = k * ch;
    let to = if from + ch < raw.len() {
        from + ch
    } else {
        raw.len() as int
    };
    raw.subrange(from, to)
}

/// How many frames there are.
pub open spec fn frames(len: int, ch: int) -> int {
    (len + ch - 1) / ch
}

/// The sum of a run of samples.
pub open spec fn summed<T, P: Fn(T, T) -> T>(plus: P, zero: T, s: Seq<T>) -> T
    decreases s.len(),
{
    if s.len() == 0 {
        zero
    } else {
        of2(plus, summed(plus, zero, s.drop_last()), s.last())
    }
}

/// A recording of `ch` channels as one: each frame becomes its sum, shared out over the
/// channels.
pub open spec fn downmixed<T, P: Fn(T, T) -> T, S: Fn(T, usize) -> T>(
    raw: Seq<T>,
    ch: usize,
    zero: T,
    plus: P,
    share: S,
) -> Seq<T> {
    Seq::new(
        frames(raw.len() as int, ch as int) as nat,
        |k: int| of2(share, summed(plus, zero, frame(raw, ch as int, k)), ch),
    )
}

/// Makes a recording of `ch` channels mono: each frame becomes its sum, shared out
/// over the channels.
pub fn downmix<T: Copy, P: Fn(T, T) -> T, S: Fn(T, usize) -> T>(
    raw: &[T],
    ch: usize,
    zero: T,
    plus: &P,
    share: &S,
) -> (r: Vec<T>)
    requires
        ch > 0,
        pure2(*plus),
        pure2(*share),
    ensures
        r@ == downmixed(raw@, ch, zero, *plus, *share),
        raw@.len() > 0 ==> r@.len() > 0,
        forall|k: int|
            0 <= k < r@.len() ==> call_ensures(
                *share,
                (summed(*plus, zero, frame(raw@, ch as int, k)), ch),
                #[trigger] r@[k],
            ),
{
    let len: usize = raw.len();
    let mut r: Vec<T> = Vec::new();
    let mut from: usize = 0;
    assert(0 * ch == 0 && (0 - 1) * ch == -ch) by (nonlinear_arith);
    while from < len
        invariant
            from <= len,
            len == raw@.len(),
            ch > 0,
            pure2(*plus),
            pure2(*share),
            from < len ==> from == r@.len() * ch,
            from == len ==> (r@.len() - 1) * ch < len <= r@.len() * ch,
            forall|k: int|
                0 <= k < r@.len() ==> #[trigger] r@[k] == of2(
                    *share,
                    summed(*plus, zero, frame(raw@, ch as int, k)),
                    ch,
                ),
            forall|k: int|
                0 <= k < r@.len() ==> call_ensures(
                    *share,
                    (summed(*plus, zero, frame(raw@, ch as int, k)), ch),
                    #[trigger] r@[k],
                ),
        decreases len - from,
    {
        let to: usize = if len - from > ch {
            from + ch
        } else {
            len
        };
        let ghost k = r@.len() as int;
        let mut sum: T = zero;
        let mut i: usize = from;
        while i < to
            invariant
                from <= i <= to <= raw@.len(),
                pure2(*plus),
                sum == summed(*plus, zero, raw@.subrange(from as int, i as int)),
            decreases to - i,
        {
            sum = plus(sum, raw[i]);
            i = i + 1;
            assert(raw@.subrange(from as int, i as int).drop_last() =~= raw@.subrange(
                from as int,
                i - 1,
            ));
        }
        assert(frame(raw@, ch as int, k) =~= raw@.subrange(from as int, to as int));
        let v: T = share(sum, ch);
        r.push(v);
        assert((k + 1) * ch == k * ch + ch) by (nonlinear_arith);
        from = to;
    }
    proof {
        let n = r@.len() as int;
        assert(n == frames(len as int, ch as int)) by {
            let m = len + ch - 1;
            assert(n * ch <= m < n * ch + ch) by {
                assert((n - 1) * ch == n * ch - ch) by (nonlinear_arith);
            }
            vstd::arithmetic::div_mod::lemma_fundamental_div_mod_converse(
                m,
                ch as int,
                n,
                m - n * ch,
            );
        }
        if len > 0 {
            assert(n > 0) by (nonlinear_arith)
                requires
                    n * ch >= len,
                    len > 0,
                    n >= 0,
            ;
        }
        assert(r@ =~= downmixed(raw@, ch, zero, *plus, *share));
    }
    r
}

/// A sound cut to `n` samples, or filled up.
pub open spec fn fitted<T>(x: Seq<T>, n: int, zero: T) -> Seq<T> {
    Seq::new(
        n as nat,
        |i: int|
            if i < x.len() {
                x[i]
            } else {
                zero
            },
    )
}

/// Cuts a sound to `n` samples, or fills it up.
pub fn fit_length<T: Copy>(x: &[T], n: usize, zero: T) -> (r: Vec<T>)
    ensures
        r@ == fitted(x@, n as int, zero),
{
    let mut r: Vec<T> = Vec::new();
    let mut i: usize = 0;
    while i < n
        invariant
            i <= n,
            r@.len() == i,
            forall|k: int|
                0 <= k < i ==> #[trigger] r@[k] == if k < x@.len() {
                    x@[k]
                } else {
                    zero
                },
        decreases n - i,
    {
        if i < x.len() {
            r.push(x[i]);
        } else {
            r.push(zero);
        }
        i = i + 1;
    }
    assert(r@ =~= fitted(x@, n as int, zero));
    r
}

/// Samples per second of the engine.
pub const ENGINE_RATE: u32 = 22050;

/// The arithmetic of preparing a recording.
pub struct Prep<T, P, S, N, A, L, U, V> {
    pub zero: T,
    pub plus: P,
    /// A sum, shared out over so many channels.
    pub share: S,
    /// How many samples so many are at the engine's rate.
    pub out_len: N,
    /// Between which two samples one at the engine's rate lies, and how far along.
    pub at: A,
    pub lerp: L,
    /// The louder of a peak and a sample.
    pub louder: U,
    /// A sample, brought to a level by the peak.
    pub level: V,
}

impl<
    T: Copy,
    P: Fn(T, T) -> T,
    S: Fn(T, usize) -> T,
    N: Fn(usize) -> usize,
    A: Fn(usize) -> (usize, T),
    L: Fn(T, T, T) -> T,
    U: Fn(T, T) -> T,
    V: Fn(T, T) -> T,
> Prep<T, P, S, N, A, L, U, V> {
    pub open spec fn pure(&self) -> bool {
        &&& pure2(self.plus)
        &&& pure2(self.share)
        &&& pure1(self.out_len)
        &&& pure1(self.at)
        &&& pure3(self.lerp)
        &&& pure2(self.louder)
        &&& pure2(self.level)
    }

    /// A mono recording at the engine's rate.
    pub open spec fn at_engine_rate(&self, mono: Seq<T>, rate: u32) -> Seq<T> {
        if rate == ENGINE_RATE {
            mono
        } else {
            resampled(mono, of1(self.out_len, mono.len() as usize) as int, self.at, self.lerp)
        }
    }

    /// A recording made mono, brought to the engine's rate, cut or filled up to `n`
    /// samples, and brought to a level.
    pub open spec fn prepared(&self, raw: Seq<T>, ch: usize, rate: u32, n: int) -> Seq<T> {
        let mono = downmixed(raw, ch, self.zero, self.plus, self.share);
        normalised(
            self.louder,
            self.level,
            self.zero,
            fitted(self.at_engine_rate(mono, rate), n, self.zero),
        )
    }

    /// Prepares a recording of `ch` channels at `rate` samples a second; there is
    /// nothing to prepare in an empty one.
    pub fn prepare(&self, raw: &[T], ch: usize, rate: u32, n: usize) -> (r: Option<Vec<T>>)
        requires
            self.pure(),
            ch > 0,
        ensures
            match r {
                Some(x) => {
                    &&& raw@.len() > 0
                    &&& x@ == self.prepared(raw@, ch, rate, n as int)
                    &&& x@.len() == n
                },
                None => raw@.len() == 0,
            },
    {
        if raw.len() == 0 {
            return None;
        }
        let mono = downmix(raw, ch, self.zero, &self.plus, &self.share);
        let mut x: Vec<T> = if rate == ENGINE_RATE {
            fit_length(mono.as_slice(), n, self.zero)
        } else {
            let len: usize = (self.out_len)(mono.len());
            let moved = resample(mono.as_slice(), len, &self.at, &self.lerp);
            fit_length(moved.as_slice(), n, self.zero)
        };
        normalise(&mut x, self.zero, &self.louder, &self.level);
        Some(x)
    }
}

/// A frame becomes the sum of all of its samples, taken in one after the other from nothing
/// and shared out over the channels: where `run[j]` is what the first `j` of them come to,
/// the last of `run` is what is shared out. Every sample of a recording is in a frame, and no
/// frame is empty.
pub proof fn law_frames_are_mixed_whole<T, P: Fn(T, T) -> T, S: Fn(T, usize) -> T>(
    raw: Seq<T>,
    ch: usize,
    zero: T,
    plus: P,
    share: S,
    k: int,
    run: Seq<T>,
)
    requires
        ch > 0,
        0 <= k,
        k * ch < raw.len(),
        run.len() == 1 + if k * ch + ch <= raw.len() {
            ch as int
        } else {
            raw.len() - k * ch
        },
        run[0] == zero,
        forall|j: int|
            0 <= j < run.len() - 1 ==> run[j + 1] == of2(plus, #[trigger] run[j], raw[k * ch + j]),
    ensures
        ({
            let mono = downmixed(raw, ch, zero, plus, share);
            &&& k < mono.len()
            &&& (mono.len() - 1) * ch < raw.len() <= mono.len() * ch
            &&& mono[k] == of2(share, run.last(), ch)
        }),
{
    let mono = downmixed(raw, ch, zero, plus, share);
    let n = frames(raw.len() as int, ch as int);
    let m = raw.len() + ch - 1;
    vstd::arithmetic::div_mod::lemma_fundamental_div_mod(m, ch as int);
    vstd::arithmetic::div_mod::lemma_mod_bound(m, ch as int);
    assert(n * ch <= m < n * ch + ch) by {
        assert(ch * n == n * ch) by (nonlinear_arith);
    }
    assert((n - 1) * ch == n * ch - ch) by (nonlinear_arith);
    assert(k < n) by (nonlinear_arith)
        requires
            k * ch < n * ch,
            ch > 0,
    ;
    let part = frame(raw, ch as int, k);
    assert(part.len() == run.len() - 1);
    lemma_summed_run(plus, zero, part, run);
}

proof fn lemma_summed_run<T, P: Fn(T, T) -> T>(plus: P, zero: T, s: Seq<T>, run: Seq<T>)
    requires
        run.len() == s.len() + 1,
        run[0] == zero,
        forall|j: int| 0 <= j < s.len() ==> run[j + 1] == of2(plus, #[trigger] run[j], s[j]),
    ensures
        summed(plus, zero, s) == run.last(),
    decreases s.len(),
{
    if s.len() > 0 {
        let n = s.len() - 1;
        assert(run[n + 1] == of2(plus, run[n], s[n]));
        lemma_summed_run(plus, zero, s.drop_last(), run.drop_last());
    }
}

/// A sound is cut or filled up at its end: it keeps its samples as far as there is room, and
/// nothing follows them but silence.
pub proof fn law_sounds_are_fitted_at_their_end<T>(x: Seq<T>, n: int, zero: T)
    requires
        0 <= n,
    ensures
        fitted(x, n, zero).len() == n,
        n <= x.len() ==> fitted(x, n, zero) == x.take(n),
        x.len() <= n ==> fitted(x, n, zero).take(x.len() as int) == x,
        forall|i: int| x.len() <= i < n ==> #[trigger] fitted(x, n, zero)[i] == zero,
{
    if n <= x.len() {
        assert(fitted(x, n, zero) =~= x.take(n));
    } else {
        assert(fitted(x, n, zero).take(x.len() as int) =~= x);
    }
}

/// A recording is prepared in turn: mixed down, brought to the engine's rate unless it goes
/// at it, cut or filled up, and only then brought to a level by its peak.
pub proof fn law_recordings_are_prepared_in_turn<
    T: Copy,
    P: Fn(T, T) -> T,
    S: Fn(T, usize) -> T,
    N: Fn(usize) -> usize,
    A: Fn(usize) -> (usize, T),
    L: Fn(T, T, T) -> T,
    U: Fn(T, T) -> T,
    V: Fn(T, T) -> T,
>(
    p: Prep<T, P, S, N, A, L, U, V>,
    raw: Seq<T>,
    ch: usize,
    rate: u32,
    n: int,
    i: int,
    run: Seq<T>,
)
    requires
        0 <= i < n,
        run.len() == n + 1,
        run[0] == p.zero,
        ({
            let mono = downmixed(raw, ch, p.zero, p.plus, p.share);
            let x = fitted(
                if rate == 22050 {
                    mono
                } else {
                    resampled(mono, of1(p.out_len, mono.len() as usize) as int, p.at, p.lerp)
                },
                n,
                p.zero,
            );
            forall|j: int| 0 <= j < n ==> run[j + 1] == of2(p.louder, #[trigger] run[j], x[j])
        }),
    ensures
        ({
            let mono = downmixed(raw, ch, p.zero, p.plus, p.share);
            let x = fitted(
                if rate == 22050 {
                    mono
                } else {
                    resampled(mono, of1(p.out_len, mono.len() as usize) as int, p.at, p.lerp)
                },
                n,
                p.zero,
            );
            &&& p.prepared(raw, ch, rate, n).len() == n
            &&& p.prepared(raw, ch, rate, n)[i] == of2(p.level, x[i], run.last())
        }),
{
    let mono = downmixed(raw, ch, p.zero, p.plus, p.share);
    let x = fitted(p.at_engine_rate(mono, rate), n, p.zero);
    law_levels_go_by_the_peak(p.louder, p.level, p.zero, x, run, i);
}

} // verus!
