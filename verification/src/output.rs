//! What everything heard or saved goes through: the unison thickener and the
//! safety at the very end.

use crate::dsp::{
    fade_count, fade_edges, fade_len, faded, filter_in_place, filtered, law_fades_are_symmetric,
    law_fades_have_room,
};
use crate::func::{of1, of2, of3, pure1, pure2, pure3};
use crate::loops::{laid, overlaid, overlay};
use crate::single::{is_less, less};
use vstd::prelude::*;

verus! {

// ---- unison ---------------------------------------------------------------------------------

/// The voices of a unison.
pub const N_VOICES: usize = 4;

/// Sounds shorter than this are left alone.
pub const MIN_THICK: usize = 64;

/// 0.01, as a single: with less than this a sound is left alone.
pub const MIN_AMOUNT: u32 = 0x3c23d70a;

/// How many samples of a sound of `len` a detuned voice has, from the `n`th on: until
/// it would read past the end. `at` tells where each is read.
pub open spec fn voice_len<T, A: Fn(usize, usize) -> (usize, T)>(at: A, v: usize, len: int, n: int) -> int
    decreases len - n,
{
    if n < 0 || n >= len || of2(at, v, n as usize).0 + 1 >= len {
        n
    } else {
        voice_len(at, v, len, n + 1)
    }
}

/// A detuned voice: each sample is read between two neighbours.
pub open spec fn voice<T, A: Fn(usize, usize) -> (usize, T), L: Fn(T, T, T) -> T>(
    at: A,
    lerp: L,
    x: Seq<T>,
    v: usize,
) -> Seq<T> {
    Seq::new(
        voice_len(at, v, x.len() as int, 0) as nat,
        |i: int|
            {
                let (j, frac) = of2(at, v, i as usize);
                of3(lerp, x[j as int], x[j + 1], frac)
            },
    )
}

/// A sound with its first `v` voices laid over it, each at its own offset, around
/// the end.
pub open spec fn thickened<
    T,
    A: Fn(usize, usize) -> (usize, T),
    L: Fn(T, T, T) -> T,
    M: Fn(T, T) -> T,
>(at: A, lerp: L, mix: M, x: Seq<T>, offsets: Seq<usize>, v: int) -> Seq<T>
    decreases v,
{
    if v <= 0 {
        x
    } else {
        overlaid(
            mix,
            thickened(at, lerp, mix, x, offsets, v - 1),
            voice(at, lerp, x, (v - 1) as usize),
            offsets[v - 1] as int,
        )
    }
}

/// What the unison makes of a sound: with too small an amount (the bits of a single),
/// or where the sound is too short, it stays as it is.
pub open spec fn unison<
    T,
    A: Fn(usize, usize) -> (usize, T),
    L: Fn(T, T, T) -> T,
    M: Fn(T, T) -> T,
>(at: A, lerp: L, mix: M, x: Seq<T>, amount: u32, offsets: Seq<usize>) -> Seq<T> {
    if less(amount, MIN_AMOUNT) || x.len() < MIN_THICK {
        x
    } else {
        thickened(at, lerp, mix, x, offsets, N_VOICES as int)
    }
}

proof fn lemma_voice_len<T, A: Fn(usize, usize) -> (usize, T)>(at: A, v: usize, len: int, n: int)
    requires
        0 <= n <= len,
    ensures
        n <= voice_len(at, v, len, n) <= len,
    decreases len - n,
{
    if n < len && of2(at, v, n as usize).0 + 1 < len {
        lemma_voice_len(at, v, len, n + 1);
    }
}

fn render_voice<T: Copy, A: Fn(usize, usize) -> (usize, T), L: Fn(T, T, T) -> T>(
    at: &A,
    lerp: &L,
    x: &[T],
    v: usize,
) -> (r: Vec<T>)
    requires
        pure2(*at),
        pure3(*lerp),
    ensures
        r@ == voice(*at, *lerp, x@, v),
{
    let len: usize = x.len();
    let mut r: Vec<T> = Vec::new();
    let mut i: usize = 0;
    while i < len
        invariant
            i <= len,
            len == x@.len(),
            pure2(*at),
            pure3(*lerp),
            r@.len() == i,
            voice_len(*at, v, len as int, 0) == voice_len(*at, v, len as int, i as int),
            forall|k: int|
                0 <= k < i ==> #[trigger] r@[k] == of3(
                    *lerp,
                    x@[of2(*at, v, k as usize).0 as int],
                    x@[of2(*at, v, k as usize).0 + 1],
                    of2(*at, v, k as usize).1,
                ),
        decreases len - i,
    {
        let (j, frac) = at(v, i);
        if j >= len - 1 {
            assert(voice_len(*at, v, len as int, i as int) == i);
            assert(r@ =~= voice(*at, *lerp, x@, v));
            return r;
        }
        let s: T = lerp(x[j], x[j + 1], frac);
        r.push(s);
        i = i + 1;
    }
    assert(r@ =~= voice(*at, *lerp, x@, v));
    r
}

/// Thickens a sound: detuned voices are laid over it, each at its own offset. What
/// runs over the end goes round, so loops stay seamless. With too small an amount, or
/// if it is too short, a sound stays as it is.
pub fn thicken<
    T: Copy,
    A: Fn(usize, usize) -> (usize, T),
    L: Fn(T, T, T) -> T,
    M: Fn(T, T) -> T,
>(x: &[T], amount: u32, offsets: &[usize; 4], at: A, lerp: L, mix: M) -> (r: Vec<T>)
    requires
        pure2(at),
        pure3(lerp),
        pure2(mix),
        forall|v: int| 0 <= v < N_VOICES ==> #[trigger] offsets@[v] + x@.len() <= usize::MAX,
    ensures
        r@ == unison(at, lerp, mix, x@, amount, offsets@),
        r@.len() == x@.len(),
{
    let len: usize = x.len();
    let mut r: Vec<T> = Vec::new();
    let mut i: usize = 0;
    while i < len
        invariant
            i <= len,
            len == x@.len(),
            r@ == x@.take(i as int),
        decreases len - i,
    {
        r.push(x[i]);
        i = i + 1;
        assert(r@ =~= x@.take(i as int));
    }
    assert(r@ =~= x@);
    if is_less(amount, MIN_AMOUNT) || len < MIN_THICK {
        return r;
    }
    let mut v: usize = 0;
    while v < N_VOICES
        invariant
            v <= N_VOICES,
            len == x@.len(),
            len >= MIN_THICK,
            r@.len() == len,
            pure2(at),
            pure3(lerp),
            pure2(mix),
            forall|v: int| 0 <= v < N_VOICES ==> #[trigger] offsets@[v] + x@.len() <= usize::MAX,
            r@ == thickened(at, lerp, mix, x@, offsets@, v as int),
        decreases N_VOICES - v,
    {
        let a: Vec<T> = render_voice(&at, &lerp, x, v);
        proof {
            lemma_voice_len(at, v, len as int, 0);
            assert(offsets@[v as int] + x@.len() <= usize::MAX);
        }
        overlay(&mut r, offsets[v], a.as_slice(), &mix);
        v = v + 1;
    }
    r
}

/// All four voices are in a sound that was thickened: where `n[v]` is how many samples
/// voice `v` has before it would read past the end, and `w(v, i)` is what stands in cell `k`
/// when `i` samples of it have been laid, each voice is laid over the last, and sample `i`
/// of voice `v` goes into cell `(offsets[v] + i) % len` and into no other.
pub proof fn law_all_voices_are_heard<
    T,
    A: Fn(usize, usize) -> (usize, T),
    L: Fn(T, T, T) -> T,
    M: Fn(T, T) -> T,
>(
    at: A,
    lerp: L,
    mix: M,
    x: Seq<T>,
    amount: u32,
    offsets: Seq<usize>,
    k: int,
    n: Seq<int>,
    w: spec_fn(int, int) -> T,
)
    requires
        x.len() >= 64,
        x.len() <= usize::MAX,
        !less(amount, 0x3c23d70a),
        offsets.len() == 4,
        0 <= k < x.len(),
        n.len() == 4,
        forall|v: int|
            0 <= v < 4 ==> 0 <= #[trigger] n[v] <= x.len() && (n[v] < x.len() ==> of2(
                at,
                v as usize,
                n[v] as usize,
            ).0 + 1 >= x.len()),
        forall|v: int, i: int|
            0 <= v < 4 && 0 <= i < n[v] ==> (#[trigger] of2(at, v as usize, i as usize)).0 + 1
                < x.len(),
        w(0, 0) == x[k],
        forall|v: int, i: int|
            0 <= v < 4 && 0 <= i < n[v] ==> w(v, i + 1) == if (offsets[v] + i) % x.len() as int == k {
                let (j, frac) = of2(at, v as usize, i as usize);
                of2(mix, #[trigger] w(v, i), of3(lerp, x[j as int], x[j + 1], frac))
            } else {
                w(v, i)
            },
        forall|v: int| 0 <= v < 4 ==> w(v + 1, 0) == w(v, #[trigger] n[v]),
    ensures
        unison(at, lerp, mix, x, amount, offsets).len() == x.len(),
        unison(at, lerp, mix, x, amount, offsets)[k] == w(4, 0),
{
    lemma_voices_run(at, lerp, mix, x, offsets, k, n, w, 4);
}

/// What comes of a voice that is laid over a cell, sample by sample.
proof fn lemma_voices_run<
    T,
    A: Fn(usize, usize) -> (usize, T),
    L: Fn(T, T, T) -> T,
    M: Fn(T, T) -> T,
>(
    at: A,
    lerp: L,
    mix: M,
    x: Seq<T>,
    offsets: Seq<usize>,
    k: int,
    n: Seq<int>,
    w: spec_fn(int, int) -> T,
    v: int,
)
    requires
        0 <= v <= 4,
        x.len() <= usize::MAX,
        0 <= k < x.len(),
        n.len() == 4,
        forall|v: int|
            0 <= v < 4 ==> 0 <= #[trigger] n[v] <= x.len() && (n[v] < x.len() ==> of2(
                at,
                v as usize,
                n[v] as usize,
            ).0 + 1 >= x.len()),
        forall|v: int, i: int|
            0 <= v < 4 && 0 <= i < n[v] ==> (#[trigger] of2(at, v as usize, i as usize)).0 + 1
                < x.len(),
        w(0, 0) == x[k],
        forall|v: int, i: int|
            0 <= v < 4 && 0 <= i < n[v] ==> w(v, i + 1) == if (offsets[v] + i) % x.len() as int == k {
                let (j, frac) = of2(at, v as usize, i as usize);
                of2(mix, #[trigger] w(v, i), of3(lerp, x[j as int], x[j + 1], frac))
            } else {
                w(v, i)
            },
        forall|v: int| 0 <= v < 4 ==> w(v + 1, 0) == w(v, #[trigger] n[v]),
    ensures
        thickened(at, lerp, mix, x, offsets, v).len() == x.len(),
        thickened(at, lerp, mix, x, offsets, v)[k] == w(v, 0),
    decreases v,
{
    if v > 0 {
        lemma_voices_run(at, lerp, mix, x, offsets, k, n, w, v - 1);
        let u = v - 1;
        let y = thickened(at, lerp, mix, x, offsets, u);
        let a = voice(at, lerp, x, u as usize);
        lemma_voice_length(at, u as usize, x.len() as int, 0, n[u]);
        assert(a.len() == n[u]);
        lemma_laid_run(at, lerp, mix, x, offsets, k, n, w, u, a, n[u]);
        assert(w(u + 1, 0) == w(u, n[u]));
    }
}

proof fn lemma_laid_run<
    T,
    A: Fn(usize, usize) -> (usize, T),
    L: Fn(T, T, T) -> T,
    M: Fn(T, T) -> T,
>(
    at: A,
    lerp: L,
    mix: M,
    x: Seq<T>,
    offsets: Seq<usize>,
    k: int,
    n: Seq<int>,
    w: spec_fn(int, int) -> T,
    v: int,
    a: Seq<T>,
    i: int,
)
    requires
        0 <= v < 4,
        0 <= i <= n[v],
        a == voice(at, lerp, x, v as usize),
        a.len() == n[v],
        forall|i: int|
            0 <= i < n[v] ==> w(v, i + 1) == if (offsets[v] + i) % x.len() as int == k {
                let (j, frac) = of2(at, v as usize, i as usize);
                of2(mix, #[trigger] w(v, i), of3(lerp, x[j as int], x[j + 1], frac))
            } else {
                w(v, i)
            },
    ensures
        laid(mix, w(v, 0), a, offsets[v] as int, x.len() as int, k, i) == w(v, i),
    decreases i,
{
    if i > 0 {
        lemma_laid_run(at, lerp, mix, x, offsets, k, n, w, v, a, i - 1);
        let (j, frac) = of2(at, v as usize, (i - 1) as usize);
        assert(w(v, i - 1 + 1) == if (offsets[v] + (i - 1)) % x.len() as int == k {
            of2(mix, w(v, i - 1), of3(lerp, x[j as int], x[j + 1], frac))
        } else {
            w(v, i - 1)
        });
        assert(a[i - 1] == of3(lerp, x[j as int], x[j + 1], frac));
    }
}

/// A voice has as many samples as lie before the first that reads past the end.
proof fn lemma_voice_length<T, A: Fn(usize, usize) -> (usize, T)>(
    at: A,
    v: usize,
    len: int,
    from: int,
    n: int,
)
    requires
        0 <= from <= n <= len,
        n < len ==> of2(at, v, n as usize).0 + 1 >= len,
        forall|i: int| 0 <= i < n ==> (#[trigger] of2(at, v, i as usize)).0 + 1 < len,
    ensures
        voice_len(at, v, len, from) == n,
    decreases n - from,
{
    if from < n {
        assert(of2(at, v, from as usize).0 + 1 < len);
        lemma_voice_length(at, v, len, from + 1, n);
    }
}

/// A sound that is too short, or with too small an amount, is left alone.
pub proof fn law_some_sounds_are_left_alone<
    T,
    A: Fn(usize, usize) -> (usize, T),
    L: Fn(T, T, T) -> T,
    M: Fn(T, T) -> T,
>(at: A, lerp: L, mix: M, x: Seq<T>, amount: u32, offsets: Seq<usize>)
    requires
        x.len() < 64 || less(amount, 0x3c23d70a),
    ensures
        unison(at, lerp, mix, x, amount, offsets) == x,
{
}

/// Silence stays silence: where nothing lies between two silent samples, and mixing
/// them makes nothing, every sample of a silent sound stays silent, as many as there
/// were.
pub proof fn law_silence_stays<
    T,
    A: Fn(usize, usize) -> (usize, T),
    L: Fn(T, T, T) -> T,
    M: Fn(T, T) -> T,
>(at: A, lerp: L, mix: M, x: Seq<T>, amount: u32, offsets: Seq<usize>, zero: T)
    requires
        x.len() <= usize::MAX,
        forall|i: int| 0 <= i < x.len() ==> #[trigger] x[i] == zero,
        forall|f: T| #[trigger] of3(lerp, zero, zero, f) == zero,
        of2(mix, zero, zero) == zero,
    ensures
        unison(at, lerp, mix, x, amount, offsets).len() == x.len(),
        forall|i: int|
            0 <= i < x.len() ==> #[trigger] unison(at, lerp, mix, x, amount, offsets)[i] == zero,
{
    lemma_silent_voices(at, lerp, mix, x, offsets, zero, N_VOICES as int);
}

proof fn lemma_silent_voices<
    T,
    A: Fn(usize, usize) -> (usize, T),
    L: Fn(T, T, T) -> T,
    M: Fn(T, T) -> T,
>(at: A, lerp: L, mix: M, x: Seq<T>, offsets: Seq<usize>, zero: T, v: int)
    requires
        x.len() <= usize::MAX,
        forall|i: int| 0 <= i < x.len() ==> #[trigger] x[i] == zero,
        forall|f: T| #[trigger] of3(lerp, zero, zero, f) == zero,
        of2(mix, zero, zero) == zero,
    ensures
        thickened(at, lerp, mix, x, offsets, v).len() == x.len(),
        forall|i: int|
            0 <= i < x.len() ==> #[trigger] thickened(at, lerp, mix, x, offsets, v)[i] == zero,
    decreases v,
{
    if v > 0 {
        lemma_silent_voices(at, lerp, mix, x, offsets, zero, v - 1);
        let a = voice(at, lerp, x, (v - 1) as usize);
        let n = x.len() as int;
        lemma_voice_len(at, (v - 1) as usize, n, 0);
        assert forall|i: int| 0 <= i < a.len() implies #[trigger] a[i] == zero by {
            lemma_voice_reads(at, (v - 1) as usize, n, 0, i);
            let (j, f) = of2(at, (v - 1) as usize, i as usize);
            assert(x[j as int] == zero && x[j + 1] == zero);
        }
        let y = thickened(at, lerp, mix, x, offsets, v - 1);
        assert forall|k: int| 0 <= k < n implies #[trigger] thickened(
            at,
            lerp,
            mix,
            x,
            offsets,
            v,
        )[k] == zero by {
            assert(y[k] == zero);
            lemma_silent_note(mix, a, offsets[v - 1] as int, n, k, a.len() as int, zero);
        }
    }
}

/// A voice reads inside the sound.
proof fn lemma_voice_reads<T, A: Fn(usize, usize) -> (usize, T)>(
    at: A,
    v: usize,
    len: int,
    n: int,
    i: int,
)
    requires
        0 <= n <= i < voice_len(at, v, len, n),
    ensures
        of2(at, v, i as usize).0 + 1 < len,
    decreases i - n,
{
    if n < i {
        lemma_voice_reads(at, v, len, n + 1, i);
    }
}

proof fn lemma_silent_note<T, M: Fn(T, T) -> T>(
    mix: M,
    a: Seq<T>,
    pos: int,
    n: int,
    k: int,
    j: int,
    zero: T,
)
    requires
        j <= a.len(),
        forall|i: int| 0 <= i < a.len() ==> #[trigger] a[i] == zero,
        of2(mix, zero, zero) == zero,
    ensures
        laid(mix, zero, a, pos, n, k, j) == zero,
    decreases j,
{
    if j > 0 {
        lemma_silent_note(mix, a, pos, n, k, j - 1, zero);
        assert(a[j - 1] == zero);
    }
}

// ---- safety ---------------------------------------------------------------------------------

/// The arithmetic of the safety.
pub struct Guard<T, E, B, P, H, L, N, R, Q, C, K, F> {
    pub zero: T,
    pub no_energy: E,
    /// The subsonic guard: what comes out of a sample, the last one and what came
    /// out of that.
    pub block: B,
    /// The larger of a peak and the size of a sample.
    pub louder: P,
    /// A peak is above the ceiling.
    pub high: H,
    /// A sample, scaled so that the peak comes down to the ceiling.
    pub lower: L,
    /// An energy and that of one more sample.
    pub energy: N,
    /// The loudness of so many samples with this energy.
    pub rms: R,
    /// A loudness is above the cap.
    pub loud: Q,
    /// A sample, scaled so that the loudness comes down to the cap.
    pub quieten: C,
    /// The soft knee below the ceiling.
    pub knee: K,
    /// A sample in a fade, how far it is from its end, and how long the fade is.
    pub fade: F,
}

impl<
    T: Copy,
    E: Copy,
    B: Fn(T, T, T) -> T,
    P: Fn(T, T) -> T,
    H: Fn(T) -> bool,
    L: Fn(T, T) -> T,
    N: Fn(E, T) -> E,
    R: Fn(E, usize) -> T,
    Q: Fn(T) -> bool,
    C: Fn(T, T) -> T,
    K: Fn(T) -> T,
    F: Fn(T, usize, usize) -> T,
> Guard<T, E, B, P, H, L, N, R, Q, C, K, F> {
    pub open spec fn pure(&self) -> bool {
        &&& pure3(self.block)
        &&& pure2(self.louder)
        &&& pure1(self.high)
        &&& pure2(self.lower)
        &&& pure2(self.energy)
        &&& pure2(self.rms)
        &&& pure1(self.loud)
        &&& pure2(self.quieten)
        &&& pure1(self.knee)
        &&& pure3(self.fade)
    }

    /// The peak of the first `n` samples.
    pub open spec fn peak(&self, x: Seq<T>, n: int) -> T
        decreases n,
    {
        if n <= 0 {
            self.zero
        } else {
            of2(self.louder, self.peak(x, n - 1), x[n - 1])
        }
    }

    /// The energy of the first `n` samples.
    pub open spec fn total(&self, x: Seq<T>, n: int) -> E
        decreases n,
    {
        if n <= 0 {
            self.no_energy
        } else {
            of2(self.energy, self.total(x, n - 1), x[n - 1])
        }
    }

    /// Below the ceiling.
    pub open spec fn ceiled(&self, x: Seq<T>) -> Seq<T> {
        let p = self.peak(x, x.len() as int);
        if of1(self.high, p) {
            x.map_values(|v: T| of2(self.lower, v, p))
        } else {
            x
        }
    }

    /// No louder than the cap.
    pub open spec fn capped(&self, x: Seq<T>) -> Seq<T> {
        let r = of2(self.rms, self.total(x, x.len() as int), x.len() as usize);
        if of1(self.loud, r) {
            x.map_values(|v: T| of2(self.quieten, v, r))
        } else {
            x
        }
    }

    /// Below the knee.
    pub open spec fn kneed(&self, x: Seq<T>) -> Seq<T> {
        x.map_values(|v: T| of1(self.knee, v))
    }

    /// What the safety makes of a sound: the subsonic guard first, then the ceiling,
    /// the loudness cap and the knee; a sound that does not loop is faded at its
    /// ends.
    pub open spec fn made_safe(&self, x: Seq<T>, looped: bool, fade: int) -> Seq<T> {
        if x.len() == 0 {
            x
        } else {
            let y = self.kneed(
                self.capped(self.ceiled(filtered(self.block, self.zero, x, looped))),
            );
            let n = fade_count(fade, x.len() as int);
            if looped {
                y
            } else {
                faded(self.fade, y, n as usize, n)
            }
        }
    }

    fn ceil(&self, x: &mut Vec<T>)
        requires
            self.pure(),
        ensures
            final(x)@ == self.ceiled(old(x)@),
    {
        let ghost x0 = x@;
        let n: usize = x.len();
        let mut p: T = self.zero;
        let mut i: usize = 0;
        while i < n
            invariant
                i <= n,
                n == x@.len(),
                x@ == x0,
                self.pure(),
                p == self.peak(x0, i as int),
            decreases n - i,
        {
            p = (self.louder)(p, x[i]);
            i = i + 1;
        }
        if (self.high)(p) {
            let ghost want = x0.map_values(|v: T| of2(self.lower, v, p));
            let mut k: usize = 0;
            while k < n
                invariant
                    k <= n,
                    n == x@.len(),
                    n == x0.len(),
                    self.pure(),
                    want == x0.map_values(|v: T| of2(self.lower, v, p)),
                    x@ == want.take(k as int) + x0.skip(k as int),
                decreases n - k,
            {
                let v: T = (self.lower)(x[k], p);
                x.set(k, v);
                k = k + 1;
                assert(x@ =~= want.take(k as int) + x0.skip(k as int));
            }
            assert(x@ =~= want);
        }
    }

    fn cap(&self, x: &mut Vec<T>)
        requires
            self.pure(),
        ensures
            final(x)@ == self.capped(old(x)@),
    {
        let ghost x0 = x@;
        let n: usize = x.len();
        let mut e: E = self.no_energy;
        let mut i: usize = 0;
        while i < n
            invariant
                i <= n,
                n == x@.len(),
                x@ == x0,
                self.pure(),
                e == self.total(x0, i as int),
            decreases n - i,
        {
            e = (self.energy)(e, x[i]);
            i = i + 1;
        }
        let r: T = (self.rms)(e, n);
        if (self.loud)(r) {
            let ghost want = x0.map_values(|v: T| of2(self.quieten, v, r));
            let mut k: usize = 0;
            while k < n
                invariant
                    k <= n,
                    n == x@.len(),
                    n == x0.len(),
                    self.pure(),
                    want == x0.map_values(|v: T| of2(self.quieten, v, r)),
                    x@ == want.take(k as int) + x0.skip(k as int),
                decreases n - k,
            {
                let v: T = (self.quieten)(x[k], r);
                x.set(k, v);
                k = k + 1;
                assert(x@ =~= want.take(k as int) + x0.skip(k as int));
            }
            assert(x@ =~= want);
        }
    }

    fn bend(&self, x: &mut Vec<T>)
        requires
            self.pure(),
        ensures
            final(x)@ == self.kneed(old(x)@),
    {
        let ghost x0 = x@;
        let n: usize = x.len();
        let mut k: usize = 0;
        while k < n
            invariant
                k <= n,
                n == x@.len(),
                n == x0.len(),
                self.pure(),
                x@ == self.kneed(x0).take(k as int) + x0.skip(k as int),
            decreases n - k,
        {
            let v: T = (self.knee)(x[k]);
            x.set(k, v);
            k = k + 1;
            assert(x@ =~= self.kneed(x0).take(k as int) + x0.skip(k as int));
        }
        assert(x@ =~= self.kneed(x0));
    }

    /// Makes a sound safe to hear: `fade` is how many samples its ends are faded
    /// over, if it is long enough.
    pub fn safety(&self, x: &mut Vec<T>, looped: bool, fade: usize)
        requires
            self.pure(),
        ensures
            final(x)@ == self.made_safe(old(x)@, looped, fade as int),
    {
        if x.len() == 0 {
            return;
        }
        filter_in_place(x, looped, self.zero, &self.block);
        self.ceil(x);
        self.cap(x);
        self.bend(x);
        if !looped {
            let n: usize = fade_len(fade, x.len());
            fade_edges(x, n, &self.fade);
        }
    }

    /// What is done to every sound before it is heard or saved: the unison, and then
    /// the safety, for a loop where it is one. `amount` is the unison's.
    pub fn post_dsp<U: Fn(usize, usize) -> (usize, T), V: Fn(T, T, T) -> T, W: Fn(T, T) -> T>(
        &self,
        x: &[T],
        amount: u32,
        offsets: &[usize; 4],
        at: U,
        lerp: V,
        mix: W,
        looped: bool,
        fade: usize,
    ) -> (r: Vec<T>)
        requires
            self.pure(),
            pure2(at),
            pure3(lerp),
            pure2(mix),
            forall|v: int| 0 <= v < N_VOICES ==> #[trigger] offsets@[v] + x@.len() <= usize::MAX,
        ensures
            r@ == self.made_safe(
                unison(at, lerp, mix, x@, amount, offsets@),
                looped,
                fade as int,
            ),
            r@.len() == x@.len(),
    {
        let mut r: Vec<T> = thicken(x, amount, offsets, at, lerp, mix);
        proof {
            self.law_safety_holds(r@, looped, fade as int, |v: T| true);
        }
        self.safety(&mut r, looped, fade);
        r
    }

    /// Nothing that was made safe is above the ceiling: where the knee's results are
    /// within it and fading keeps them there, every sample is, whatever came in.
    pub proof fn law_safety_holds(&self, x: Seq<T>, looped: bool, fade: int, ok: spec_fn(T) -> bool)
        requires
            forall|v: T| #[trigger] ok(of1(self.knee, v)),
            forall|v: T, i: usize, n: usize| ok(v) ==> #[trigger] ok(of3(self.fade, v, i, n)),
        ensures
            self.made_safe(x, looped, fade).len() == x.len(),
            forall|i: int|
                0 <= i < x.len() ==> ok(#[trigger] self.made_safe(x, looped, fade)[i]),
    {
        if x.len() > 0 {
            let z = self.capped(self.ceiled(filtered(self.block, self.zero, x, looped)));
            let y = self.kneed(z);
            let n = fade_count(fade, x.len() as int);
            assert forall|i: int| 0 <= i < y.len() implies ok(#[trigger] y[i]) by {
                assert(y[i] == of1(self.knee, z[i]));
            }
            self.lemma_fading_holds(y, n as usize, n, ok);
        }
    }

    proof fn lemma_fading_holds(&self, y: Seq<T>, n: usize, k: int, ok: spec_fn(T) -> bool)
        requires
            forall|v: T, i: usize, n: usize| ok(v) ==> #[trigger] ok(of3(self.fade, v, i, n)),
            forall|i: int| 0 <= i < y.len() ==> ok(#[trigger] y[i]),
            k <= y.len(),
        ensures
            faded(self.fade, y, n, k).len() == y.len(),
            forall|i: int| 0 <= i < y.len() ==> ok(#[trigger] faded(self.fade, y, n, k)[i]),
        decreases k,
    {
        if k > 0 {
            self.lemma_fading_holds(y, n, k - 1, ok);
        }
    }

    /// The safety goes through its stages in turn. Behind the subsonic guard, where `top` is
    /// the peak before each sample, a sound whose peak is high is lowered by it; then, where
    /// `sum` is the energy before each sample, a sound that is too loud is quietened; then
    /// every sample goes through the knee; and one that does not loop is faded at both ends,
    /// each sample by how far it stands from its own.
    pub proof fn law_safety_goes_in_turn(
        &self,
        x: Seq<T>,
        looped: bool,
        fade: int,
        a: Seq<T>,
        top: Seq<T>,
        b: Seq<T>,
        sum: Seq<E>,
        c: Seq<T>,
        n: int,
        i: int,
    )
        requires
            0 <= i < x.len(),
            x.len() <= usize::MAX,
            0 <= fade,
            a == filtered(self.block, self.zero, x, looped),
            b.len() == x.len(),
            c.len() == x.len(),
            top.len() == x.len() + 1,
            sum.len() == x.len() + 1,
            top[0] == self.zero,
            forall|k: int|
                0 <= k < x.len() ==> top[k + 1] == of2(self.louder, #[trigger] top[k], a[k]),
            forall|k: int|
                0 <= k < x.len() ==> #[trigger] b[k] == if of1(self.high, top[x.len() as int]) {
                    of2(self.lower, a[k], top[x.len() as int])
                } else {
                    a[k]
                },
            sum[0] == self.no_energy,
            forall|k: int|
                0 <= k < x.len() ==> sum[k + 1] == of2(self.energy, #[trigger] sum[k], b[k]),
            forall|k: int|
                0 <= k < x.len() ==> #[trigger] c[k] == {
                    let r = of2(self.rms, sum[x.len() as int], x.len() as usize);
                    if of1(self.loud, r) {
                        of2(self.quieten, b[k], r)
                    } else {
                        b[k]
                    }
                },
            n == fade_count(fade, x.len() as int),
        ensures
            ({
                let y = self.made_safe(x, looped, fade);
                let v = of1(self.knee, c[i]);
                &&& y.len() == x.len()
                &&& looped ==> y[i] == v
                &&& !looped && 2 <= x.len() && i < n ==> y[i] == of3(
                    self.fade,
                    v,
                    i as usize,
                    n as usize,
                )
                &&& !looped && 2 <= x.len() && x.len() - n <= i ==> y[i] == of3(
                    self.fade,
                    v,
                    (x.len() - 1 - i) as usize,
                    n as usize,
                )
                &&& !looped && n <= i < x.len() - n ==> y[i] == v
            }),
    {
        let len = x.len() as int;
        self.lemma_peak_run(a, top, len);
        assert(b =~= self.ceiled(a));
        self.lemma_total_run(b, sum, len);
        assert(c =~= self.capped(b));
        let y = self.kneed(c);
        law_fades_have_room(fade, len);
        if 2 <= len {
            law_fades_are_symmetric(self.fade, y, n as usize, n);
        } else if !looped {
            assert(n == 1 && len == 1);
            self.lemma_fading_holds(y, 1, 1, |v: T| true);
        }
    }

    proof fn lemma_peak_run(&self, x: Seq<T>, top: Seq<T>, n: int)
        requires
            0 <= n <= x.len(),
            top.len() == x.len() + 1,
            top[0] == self.zero,
            forall|k: int|
                0 <= k < x.len() ==> top[k + 1] == of2(self.louder, #[trigger] top[k], x[k]),
        ensures
            self.peak(x, n) == top[n],
        decreases n,
    {
        if n > 0 {
            self.lemma_peak_run(x, top, n - 1);
            assert(top[n - 1 + 1] == of2(self.louder, top[n - 1], x[n - 1]));
        }
    }

    proof fn lemma_total_run(&self, x: Seq<T>, sum: Seq<E>, n: int)
        requires
            0 <= n <= x.len(),
            sum.len() == x.len() + 1,
            sum[0] == self.no_energy,
            forall|k: int|
                0 <= k < x.len() ==> sum[k + 1] == of2(self.energy, #[trigger] sum[k], x[k]),
        ensures
            self.total(x, n) == sum[n],
        decreases n,
    {
        if n > 0 {
            self.lemma_total_run(x, sum, n - 1);
            assert(sum[n - 1 + 1] == of2(self.energy, sum[n - 1], x[n - 1]));
        }
    }

    /// Nothing that was made safe is louder than the cap: where the cap leaves every
    /// sound quiet, and neither the knee nor a fade makes a quiet sound loud, every
    /// sound comes out quiet.
    pub proof fn law_loudness_is_capped(
        &self,
        x: Seq<T>,
        looped: bool,
        fade: int,
        quiet: spec_fn(Seq<T>) -> bool,
    )
        requires
            x.len() > 0,
            forall|y: Seq<T>| #[trigger] quiet(self.capped(y)),
            forall|y: Seq<T>| quiet(y) ==> #[trigger] quiet(self.kneed(y)),
            forall|y: Seq<T>, n: usize, k: int|
                quiet(y) ==> #[trigger] quiet(faded(self.fade, y, n, k)),
        ensures
            quiet(self.made_safe(x, looped, fade)),
    {
        let z = self.capped(self.ceiled(filtered(self.block, self.zero, x, looped)));
        assert(quiet(z));
        assert(quiet(self.kneed(z)));
    }

    /// A sound that does not loop starts and ends in silence: where fading leaves
    /// nothing of a sample at the very end, the first and the last sample are
    /// silent.
    pub proof fn law_edges_are_silent(&self, x: Seq<T>, fade: int, silent: spec_fn(T) -> bool)
        requires
            0 < x.len() <= usize::MAX,
            forall|v: T, n: usize| #[trigger] silent(of3(self.fade, v, 0, n)),
        ensures
            silent(self.made_safe(x, false, fade)[0]),
            silent(self.made_safe(x, false, fade)[x.len() - 1]),
    {
        let z = self.capped(self.ceiled(filtered(self.block, self.zero, x, false)));
        let y = self.kneed(z);
        let n = fade_count(fade, x.len() as int);
        if x.len() > 1 {
            law_fades_are_symmetric(self.fade, y, n as usize, n);
        } else {
            assert(n == 1);
            assert(faded(self.fade, y, 1, 0) == y);
            let z = y.update(0, of3(self.fade, y[0], 0, 1));
            assert(faded(self.fade, y, 1, 1) == z.update(0, of3(self.fade, z[0], 0, 1)));
        }
    }
}

} // verus!
