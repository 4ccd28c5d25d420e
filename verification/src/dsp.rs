//! The shape of the signal processing: framing with reflected edges, mel bands,
//! fades, filters and resampling. The arithmetic on samples is handed in.

use crate::func::{list_of, lists, of1, of2, of3, pure1, pure2, pure3, pure_list};
use core::marker::PhantomData;
use vstd::prelude::*;

verus! {

// ---- framing -------------------------------------------------------------------------

/// Where index `i` falls when a signal of `len` samples is mirrored at both ends,
/// the end samples not repeated.
pub open spec fn mirrored(i: int, len: int) -> int {
    let a = if i < 0 {
        -i
    } else {
        i
    };
    if a >= len {
        2 * len - 2 - a
    } else {
        a
    }
}

/// Where index `i` falls when the signal is mirrored at both ends.
pub fn reflect(i: isize, len: usize) -> (r: usize)
    requires
        isize::MIN < i,
        2 * len <= isize::MAX,
        isize::MIN <= 2 * len - 2 - i,
        isize::MIN <= 2 * len - 2 + i,
    ensures
        r == mirrored(i as int, len as int) as usize,
{
    let n: isize = len as isize;
    let mut a: isize = i;
    if a < 0 {
        a = -a;
    }
    if a >= n {
        a = 2 * n - 2 - a;
    }
    a as usize
}

/// Mirroring stays inside the signal as long as the index is less than one
/// length before its start and less than one length behind its end, and it
/// leaves an index inside the signal where it is.
pub proof fn law_reflect_stays_inside(i: int, len: int)
    requires
        -len < i < 2 * len - 1,
    ensures
        0 <= mirrored(i, len) < len,
        0 <= i < len ==> mirrored(i, len) == i,
        mirrored(-i, len) == mirrored(i, len),
{
}

/// How many frames a signal of `t` samples has, one every `hop`.
pub open spec fn frame_count(t: int, hop: int) -> int {
    1 + t / hop
}

/// The samples of frame `m`: `nfft` of them around sample `m * hop`.
pub open spec fn frame_of<T>(x: Seq<T>, nfft: int, hop: int, m: int) -> Seq<T> {
    Seq::new(nfft as nat, |j: int| x[mirrored(m * hop - nfft / 2 + j, x.len() as int)])
}

/// Every frame of a signal of `t` samples can be filled by mirroring.
pub open spec fn frames_fit(t: int, nfft: int, hop: int) -> bool {
    &&& 0 < hop
    &&& 0 < nfft
    &&& nfft / 2 < t
    &&& (t / hop) * hop - nfft / 2 + nfft < 2 * t
}

/// Frames of `nfft` samples, one every `hop`, can be cut from a signal of `t` samples
/// and their spectra held by a machine.
pub open spec fn can_cut(t: int, nfft: int, hop: int) -> bool {
    &&& frames_fit(t, nfft, hop)
    &&& 2 * t + nfft <= isize::MAX
    &&& (nfft / 2 + 1) * frame_count(t, hop) <= usize::MAX
}

/// Whether a signal of `t` samples can be cut into frames.
pub fn can_be_cut(t: usize, nfft: usize, hop: usize) -> (r: bool)
    ensures
        r == can_cut(t as int, nfft as int, hop as int),
{
    if hop == 0 || nfft == 0 || nfft / 2 >= t {
        return false;
    }
    let most: u128 = isize::MAX as u128;
    if 2 * (t as u128) + nfft as u128 > most {
        return false;
    }
    proof {
        assert(0 <= (t / hop) * hop <= t && t / hop <= t) by (nonlinear_arith)
            requires
                hop > 0,
                t >= 0,
        ;
    }
    if (t / hop) * hop + (nfft - nfft / 2) >= 2 * t {
        return false;
    }
    let frames: u128 = 1 + (t / hop) as u128;
    let bins: u128 = (nfft / 2 + 1) as u128;
    proof {
        assert(0 <= bins * frames <= 0x1_0000_0000_0000_0000 * 0x1_0000_0000_0000_0000 - 1)
            by (nonlinear_arith)
            requires
                0 <= bins <= 0xffff_ffff_ffff_ffff,
                0 <= frames <= 0xffff_ffff_ffff_ffff,
        ;
    }
    bins * frames <= usize::MAX as u128
}

/// The spectra of all frames of a signal, bin by bin, the frames of a bin side by
/// side.
pub open spec fn stft<T, M, F: Fn(&[T]) -> Vec<M>>(spectrum: F, x: Seq<T>, nfft: int, hop: int) -> Seq<M> {
    let frames = frame_count(x.len() as int, hop);
    Seq::new(
        ((nfft / 2 + 1) * frames) as nat,
        |i: int| list_of(spectrum, frame_of(x, nfft, hop, i % frames))[i / frames],
    )
}

/// Cuts a signal into overlapping frames and takes the spectrum of each: the
/// magnitudes (bin by bin, the frames of a bin side by side), the number of bins
/// and the number of frames.
pub fn stft_mag<T: Copy, M: Copy, F: Fn(&[T]) -> Vec<M>>(
    x: &[T],
    nfft: usize,
    hop: usize,
    zero: M,
    spectrum: &F,
) -> (r: (Vec<M>, usize, usize))
    requires
        can_cut(x@.len() as int, nfft as int, hop as int),
        pure_list(*spectrum, nfft as int, (nfft / 2 + 1) as int),
    ensures
        r.1 == nfft / 2 + 1,
        r.2 == frame_count(x@.len() as int, hop as int),
        r.0@.len() == r.1 * r.2,
        r.0@ == stft(*spectrum, x@, nfft as int, hop as int),
{
    let t: usize = x.len();
    let pad: usize = nfft / 2;
    let n_frames: usize = 1 + t / hop;
    let n_bins: usize = nfft / 2 + 1;
    let mut mags: Vec<M> = vec![zero; n_bins * n_frames];
    let mut m: usize = 0;
    while m < n_frames
        invariant
            m <= n_frames,
            t == x@.len(),
            pad == nfft / 2,
            n_frames == 1 + t / hop,
            n_bins == nfft / 2 + 1,
            frames_fit(t as int, nfft as int, hop as int),
            2 * t + nfft <= isize::MAX,
            n_bins * n_frames <= usize::MAX,
            mags@.len() == n_bins * n_frames,
            pure_list(*spectrum, nfft as int, n_bins as int),
            forall|b: int, k: int|
                0 <= b < n_bins && 0 <= k < m ==> #[trigger] mags@[b * n_frames + k] == list_of(
                    *spectrum,
                    frame_of(x@, nfft as int, hop as int, k),
                )[b],
        decreases n_frames - m,
    {
        assert(m * hop <= (t / hop) * hop <= t) by (nonlinear_arith)
            requires
                m <= t / hop,
                hop > 0,
        ;
        let start: isize = (m * hop) as isize - pad as isize;
        let mut frame: Vec<T> = Vec::new();
        let ghost want = frame_of(x@, nfft as int, hop as int, m as int);
        let mut j: usize = 0;
        while j < nfft
            invariant
                j <= nfft,
                t == x@.len(),
                pad == nfft / 2,
                start == m * hop - pad,
                0 <= m * hop <= (t / hop) * hop <= t,
                frames_fit(t as int, nfft as int, hop as int),
                2 * t + nfft <= isize::MAX,
                want == frame_of(x@, nfft as int, hop as int, m as int),
                frame@ == want.take(j as int),
            decreases nfft - j,
        {
            let i: usize = reflect(start + j as isize, t);
            proof {
                law_reflect_stays_inside(start + j, t as int);
            }
            frame.push(x[i]);
            assert(frame@ =~= want.take(j + 1));
            j = j + 1;
        }
        assert(frame@ =~= want);
        let bins = spectrum(frame.as_slice());
        assert(lists(*spectrum, want, bins@));
        assert(bins@ == list_of(*spectrum, want));
        let mut b: usize = 0;
        while b < n_bins
            invariant
                b <= n_bins,
                m < n_frames,
                bins@.len() == n_bins,
                n_bins * n_frames <= usize::MAX,
                mags@.len() == n_bins * n_frames,
                bins@ == list_of(*spectrum, frame_of(x@, nfft as int, hop as int, m as int)),
                forall|c: int, k: int|
                    0 <= c < n_bins && 0 <= k < m ==> #[trigger] mags@[c * n_frames + k]
                        == list_of(*spectrum, frame_of(x@, nfft as int, hop as int, k))[c],
                forall|c: int| 0 <= c < b ==> #[trigger] mags@[c * n_frames + m] == bins@[c],
            decreases n_bins - b,
        {
            assert(b * n_frames + m < n_bins * n_frames) by (nonlinear_arith)
                requires
                    b + 1 <= n_bins,
                    m < n_frames,
            ;
            let ghost before = mags@;
            mags.set(b * n_frames + m, bins[b]);
            assert forall|c: int, k: int| 0 <= c < n_bins && 0 <= k < m implies #[trigger] mags@[c
                * n_frames + k] == list_of(
                *spectrum,
                frame_of(x@, nfft as int, hop as int, k),
            )[c] by {
                lemma_cells_differ(c, k, b as int, m as int, n_frames as int, n_bins as int);
                assert(before[c * n_frames + k] == mags@[c * n_frames + k]);
            }
            assert forall|c: int| 0 <= c < b + 1 implies #[trigger] mags@[c * n_frames + m]
                == bins@[c] by {
                lemma_cells_differ(c, m as int, b as int, m as int, n_frames as int, n_bins as int);
                if c < b {
                    assert(before[c * n_frames + m] == mags@[c * n_frames + m]);
                }
            }
            b = b + 1;
        }
        assert forall|b: int, k: int| 0 <= b < n_bins && 0 <= k < m + 1 implies #[trigger] mags@[b
            * n_frames + k] == list_of(*spectrum, frame_of(x@, nfft as int, hop as int, k))[b] by {
            if k == m {
                assert(mags@[b * n_frames + m] == bins@[b]);
            }
        }
        m = m + 1;
    }
    assert forall|i: int| 0 <= i < mags@.len() implies #[trigger] mags@[i] == stft(
        *spectrum,
        x@,
        nfft as int,
        hop as int,
    )[i] by {
        let frames = n_frames as int;
        vstd::arithmetic::div_mod::lemma_fundamental_div_mod(i, frames);
        let b = i / frames;
        let k = i % frames;
        assert(b * frames + k == i && 0 <= b < n_bins) by (nonlinear_arith)
            requires
                i == frames * b + k,
                0 <= k < frames,
                0 <= i < n_bins * frames,
        ;
        assert(mags@[b * n_frames + k] == list_of(
            *spectrum,
            frame_of(x@, nfft as int, hop as int, k),
        )[b]);
    }
    assert(mags@ =~= stft(*spectrum, x@, nfft as int, hop as int));
    (mags, n_bins, n_frames)
}

/// Different cells of a table of `rows` rows of `w` lie in different places.
pub proof fn lemma_cells_differ(r1: int, c1: int, r2: int, c2: int, w: int, rows: int)
    requires
        0 <= c1 < w,
        0 <= c2 < w,
        0 <= r1 < rows,
        0 <= r2 < rows,
    ensures
        0 <= r1 * w + c1 < rows * w,
        r1 * w + c1 == r2 * w + c2 ==> r1 == r2 && c1 == c2,
{
    assert(0 <= r1 * w + c1 < rows * w) by (nonlinear_arith)
        requires
            0 <= c1 < w,
            0 <= r1,
            r1 + 1 <= rows,
    ;
    if r1 < r2 {
        assert(r1 * w + w <= r2 * w) by (nonlinear_arith)
            requires
                r1 + 1 <= r2,
                w > 0,
        ;
    }
    if r2 < r1 {
        assert(r2 * w + w <= r1 * w) by (nonlinear_arith)
            requires
                r2 + 1 <= r1,
                w > 0,
        ;
    }
}

/// `f` is the window of `nfft` samples around sample `m * hop`: each of its samples is the
/// signal's own where the signal has one, and where it has none the one that stands as far
/// inside the end.
pub open spec fn is_window<T>(x: Seq<T>, nfft: int, hop: int, m: int, f: Seq<T>) -> bool {
    &&& f.len() == nfft
    &&& forall|j: int|
        0 <= j < nfft ==> {
            let i = m * hop - nfft / 2 + j;
            #[trigger] f[j] == if i < 0 {
                x[-i]
            } else if i < x.len() {
                x[i]
            } else {
                x[2 * (x.len() - 1) - i]
            }
        }
}

/// Time runs forwards: the `j`th sample of frame `m` is the one `nfft / 2 - j` samples
/// before sample `m * hop` of the signal, wherever that lies inside it, and is mirrored at
/// the first or the last sample where it does not. There is a frame around every `hop`th
/// sample.
pub proof fn law_time_runs_forwards<T>(x: Seq<T>, nfft: int, hop: int, m: int, j: int)
    requires
        frames_fit(x.len() as int, nfft, hop),
        0 <= m <= x.len() as int / hop,
        0 <= j < nfft,
    ensures
        frame_count(x.len() as int, hop) == x.len() as int / hop + 1,
        frame_of(x, nfft, hop, m).len() == nfft,
        0 <= m * hop - nfft / 2 + j < x.len() ==> frame_of(x, nfft, hop, m)[j] == x[m * hop - nfft
            / 2 + j],
        m * hop + j < nfft / 2 ==> frame_of(x, nfft, hop, m)[j] == x[nfft / 2 - m * hop - j],
        m * hop - nfft / 2 + j >= x.len() ==> frame_of(x, nfft, hop, m)[j] == x[2 * (x.len() - 1)
            - (m * hop - nfft / 2 + j)],
        is_window(x, nfft, hop, m, frame_of(x, nfft, hop, m)),
{
}

/// The spectra stand bin by bin, and in each bin the frames from the first to the last:
/// the cell of bin `b` and frame `m` is bin `b` of the spectrum of the window around sample
/// `m * hop`.
pub proof fn law_spectra_stand_in_order<T, M, F: Fn(&[T]) -> Vec<M>>(
    spectrum: F,
    x: Seq<T>,
    nfft: int,
    hop: int,
    b: int,
    m: int,
    f: Seq<T>,
)
    requires
        frames_fit(x.len() as int, nfft, hop),
        0 <= b <= nfft / 2,
        0 <= m <= x.len() as int / hop,
        is_window(x, nfft, hop, m, f),
    ensures
        stft(spectrum, x, nfft, hop).len() == (nfft / 2 + 1) * (x.len() as int / hop + 1),
        0 <= b * (x.len() as int / hop + 1) + m < stft(spectrum, x, nfft, hop).len(),
        stft(spectrum, x, nfft, hop)[b * (x.len() as int / hop + 1) + m] == list_of(spectrum, f)[b],
{
    let frames = x.len() as int / hop + 1;
    let i = b * frames + m;
    assert(frames > 0) by (nonlinear_arith)
        requires
            frames == x.len() as int / hop + 1,
            hop > 0,
    ;
    lemma_cells_differ(b, m, b, m, frames, nfft / 2 + 1);
    assert((nfft / 2 + 1) * frames >= 0) by (nonlinear_arith)
        requires
            nfft > 0,
            frames > 0,
    ;
    vstd::arithmetic::div_mod::lemma_fundamental_div_mod_converse(i, frames, b, m);
    assert(frame_of(x, nfft, hop, m) =~= f);
}

/// What comes later is not heard before: where two signals agree on every sample below
/// `end`, a frame that ends by then and starts inside the signal has the same spectrum in
/// both, whatever follows and however long they are.
pub proof fn law_later_samples_are_not_heard<T, M, F: Fn(&[T]) -> Vec<M>>(
    spectrum: F,
    x: Seq<T>,
    y: Seq<T>,
    nfft: int,
    hop: int,
    end: int,
    b: int,
    m: int,
)
    requires
        frames_fit(x.len() as int, nfft, hop),
        frames_fit(y.len() as int, nfft, hop),
        end <= x.len(),
        end <= y.len(),
        forall|i: int| 0 <= i < end ==> #[trigger] x[i] == y[i],
        0 <= b <= nfft / 2,
        0 <= m <= x.len() as int / hop,
        m <= y.len() as int / hop,
        nfft / 2 <= m * hop,
        m * hop - nfft / 2 + nfft <= end,
    ensures
        stft(spectrum, x, nfft, hop)[b * (x.len() as int / hop + 1) + m] == stft(
            spectrum,
            y,
            nfft,
            hop,
        )[b * (y.len() as int / hop + 1) + m],
{
    let f = frame_of(x, nfft, hop, m);
    assert(f =~= frame_of(y, nfft, hop, m));
    law_spectra_stand_in_order(spectrum, x, nfft, hop, b, m, f);
    law_spectra_stand_in_order(spectrum, y, nfft, hop, b, m, f);
}

/// What is played a hop later is heard a frame later: where every sample of `y` is that of
/// `x` one hop before, a frame of `x` that lies inside it is the next frame of `y`.
pub proof fn law_what_is_late_is_heard_late<T, M, F: Fn(&[T]) -> Vec<M>>(
    spectrum: F,
    x: Seq<T>,
    y: Seq<T>,
    nfft: int,
    hop: int,
    b: int,
    m: int,
)
    requires
        frames_fit(x.len() as int, nfft, hop),
        frames_fit(y.len() as int, nfft, hop),
        y.len() == x.len() + hop,
        forall|i: int| 0 <= i < x.len() ==> #[trigger] x[i] == y[i + hop],
        0 <= b <= nfft / 2,
        0 <= m <= x.len() as int / hop,
        m + 1 <= y.len() as int / hop,
        nfft / 2 <= m * hop,
        m * hop - nfft / 2 + nfft <= x.len(),
    ensures
        stft(spectrum, x, nfft, hop)[b * (x.len() as int / hop + 1) + m] == stft(
            spectrum,
            y,
            nfft,
            hop,
        )[b * (y.len() as int / hop + 1) + m + 1],
{
    let f = frame_of(x, nfft, hop, m);
    let g = frame_of(y, nfft, hop, m + 1);
    assert((m + 1) * hop == m * hop + hop) by (nonlinear_arith);
    assert forall|j: int| 0 <= j < nfft implies #[trigger] f[j] == g[j] by {
        let i = m * hop - nfft / 2 + j;
        assert(x[i] == y[i + hop]);
    }
    assert(f =~= g);
    law_spectra_stand_in_order(spectrum, x, nfft, hop, b, m, f);
    law_spectra_stand_in_order(spectrum, y, nfft, hop, b, m + 1, f);
}

// ---- mel features ----------------------------------------------------------------------

/// How long the frames of mel features are, and how far apart.
pub const MEL_NFFT: usize = 1024;

pub const MEL_HOP: usize = 512;

/// The arithmetic of mel features. Magnitudes and energies are of type `M`, the
/// weights of a filter bank of type `W`.
pub struct Mel<M, W, G, D, L, V> {
    pub weight: PhantomData<W>,
    pub zero: M,
    /// Below every level.
    pub lowest: M,
    /// An energy and that of one more bin, by its weight and magnitude.
    pub gather: G,
    /// The level of an energy.
    pub db: D,
    /// The larger of two levels.
    pub louder: L,
    /// A level in proportion to the largest.
    pub level: V,
}

impl<
    M: Copy,
    W: Copy,
    G: Fn(M, W, M) -> M,
    D: Fn(M) -> M,
    L: Fn(M, M) -> M,
    V: Fn(M, M) -> M,
> Mel<M, W, G, D, L, V> {
    pub open spec fn pure(&self) -> bool {
        pure3(self.gather) && pure1(self.db) && pure2(self.louder) && pure2(self.level)
    }

    /// The energy in the first `n` bins of a mel band in a frame. The weights of a
    /// band stand side by side in `fb`, the frames of a bin side by side in `mags`.
    pub open spec fn energy(
        &self,
        mags: Seq<M>,
        bins: int,
        frames: int,
        fb: Seq<W>,
        band: int,
        frame: int,
        n: int,
    ) -> M
        decreases n,
    {
        if n <= 0 {
            self.zero
        } else {
            of3(
                self.gather,
                self.energy(mags, bins, frames, fb, band, frame, n - 1),
                fb[band * bins + n - 1],
                mags[(n - 1) * frames + frame],
            )
        }
    }

    /// The levels of every mel band in every frame, the frames of a band side by side.
    pub open spec fn levels(&self, mags: Seq<M>, bins: int, frames: int, fb: Seq<W>, n_mels: int) -> Seq<M> {
        Seq::new(
            (n_mels * frames) as nat,
            |i: int|
                of1(
                    self.db,
                    self.energy(mags, bins, frames, fb, i / frames, i % frames, bins),
                ),
        )
    }

    /// The largest of the first `n` levels.
    pub open spec fn loudest(&self, x: Seq<M>, n: int) -> M
        decreases n,
    {
        if n <= 0 {
            self.lowest
        } else {
            of2(self.louder, self.loudest(x, n - 1), x[n - 1])
        }
    }

    /// Every level in proportion to the largest.
    pub open spec fn scaled(&self, x: Seq<M>) -> Seq<M> {
        let top = self.loudest(x, x.len() as int);
        x.map_values(|v: M| of2(self.level, v, top))
    }

    /// A mel band hears every bin of its frame, each by the band's own weight: the level in
    /// the cell of band `band` and frame `m` is that of the energy that is there after the
    /// last bin, where `e` is the energy before each bin.
    pub proof fn law_bands_hear_their_frames(
        &self,
        mags: Seq<M>,
        bins: int,
        frames: int,
        fb: Seq<W>,
        n_mels: int,
        band: int,
        m: int,
        e: Seq<M>,
    )
        requires
            0 <= band < n_mels,
            0 <= m < frames,
            0 <= bins,
            e.len() == bins + 1,
            e[0] == self.zero,
            forall|b: int|
                0 <= b < bins ==> e[b + 1] == of3(
                    self.gather,
                    #[trigger] e[b],
                    fb[band * bins + b],
                    mags[b * frames + m],
                ),
        ensures
            self.levels(mags, bins, frames, fb, n_mels).len() == n_mels * frames,
            self.levels(mags, bins, frames, fb, n_mels)[band * frames + m] == of1(
                self.db,
                e[bins],
            ),
    {
        lemma_cells_differ(band, m, band, m, frames, n_mels);
        vstd::arithmetic::div_mod::lemma_fundamental_div_mod_converse(
            band * frames + m,
            frames,
            band,
            m,
        );
        self.lemma_energy_run(mags, bins, frames, fb, band, m, e, bins);
    }

    proof fn lemma_energy_run(
        &self,
        mags: Seq<M>,
        bins: int,
        frames: int,
        fb: Seq<W>,
        band: int,
        m: int,
        e: Seq<M>,
        n: int,
    )
        requires
            0 <= n <= bins,
            e.len() == bins + 1,
            e[0] == self.zero,
            forall|b: int|
                0 <= b < bins ==> e[b + 1] == of3(
                    self.gather,
                    #[trigger] e[b],
                    fb[band * bins + b],
                    mags[b * frames + m],
                ),
        ensures
            self.energy(mags, bins, frames, fb, band, m, n) == e[n],
        decreases n,
    {
        if n > 0 {
            self.lemma_energy_run(mags, bins, frames, fb, band, m, e, n - 1);
            assert(e[n - 1 + 1] == of3(
                self.gather,
                e[n - 1],
                fb[band * bins + (n - 1)],
                mags[(n - 1) * frames + m],
            ));
        }
    }

    /// Features are levels in proportion to the loudest of all: where `top` is the loudest
    /// of the levels before each, every feature is its own level by the last of them.
    pub proof fn law_features_are_in_proportion(&self, x: Seq<M>, top: Seq<M>, i: int)
        requires
            0 <= i < x.len(),
            top.len() == x.len() + 1,
            top[0] == self.lowest,
            forall|k: int|
                0 <= k < x.len() ==> top[k + 1] == of2(self.louder, #[trigger] top[k], x[k]),
        ensures
            self.scaled(x).len() == x.len(),
            self.scaled(x)[i] == of2(self.level, x[i], top[x.len() as int]),
    {
        self.lemma_loudest_run(x, top, x.len() as int);
    }

    proof fn lemma_loudest_run(&self, x: Seq<M>, top: Seq<M>, n: int)
        requires
            0 <= n <= x.len(),
            top.len() == x.len() + 1,
            top[0] == self.lowest,
            forall|k: int|
                0 <= k < x.len() ==> top[k + 1] == of2(self.louder, #[trigger] top[k], x[k]),
        ensures
            self.loudest(x, n) == top[n],
        decreases n,
    {
        if n > 0 {
            self.lemma_loudest_run(x, top, n - 1);
            assert(top[n - 1 + 1] == of2(self.louder, top[n - 1], x[n - 1]));
        }
    }

    /// A column of the features hears the moment that it stands for: where two sounds agree
    /// on every sample below `end`, the levels of a frame that ends by then and starts inside
    /// the sound are the same in both.
    pub proof fn law_columns_hear_their_moment<T, F: Fn(&[T]) -> Vec<M>>(
        &self,
        spectrum: F,
        x: Seq<T>,
        y: Seq<T>,
        fb: Seq<W>,
        n_mels: int,
        end: int,
        band: int,
        m: int,
    )
        requires
            can_cut(x.len() as int, 1024, 512),
            can_cut(y.len() as int, 1024, 512),
            end <= x.len(),
            end <= y.len(),
            forall|i: int| 0 <= i < end ==> #[trigger] x[i] == y[i],
            0 <= band < n_mels,
            1 <= m,
            512 * m + 512 <= end,
        ensures
            MEL_NFFT == 1024,
            MEL_HOP == 512,
            ({
                let a = self.levels(
                    stft(spectrum, x, 1024, 512),
                    513,
                    x.len() as int / 512 + 1,
                    fb,
                    n_mels,
                );
                let b = self.levels(
                    stft(spectrum, y, 1024, 512),
                    513,
                    y.len() as int / 512 + 1,
                    fb,
                    n_mels,
                );
                a[band * (x.len() as int / 512 + 1) + m] == b[band * (y.len() as int / 512 + 1) + m]
            }),
    {
        let fx = x.len() as int / 512 + 1;
        let fy = y.len() as int / 512 + 1;
        let sx = stft(spectrum, x, 1024, 512);
        let sy = stft(spectrum, y, 1024, 512);
        assert forall|c: int| 0 <= c < 513 implies #[trigger] sx[c * fx + m] == sy[c * fy + m] by {
            law_later_samples_are_not_heard(spectrum, x, y, 1024, 512, end, c, m);
        }
        self.lemma_same_energy(sx, sy, 513, fx, fy, fb, band, m, 513);
        lemma_cells_differ(band, m, band, m, fx, n_mels);
        lemma_cells_differ(band, m, band, m, fy, n_mels);
        vstd::arithmetic::div_mod::lemma_fundamental_div_mod_converse(band * fx + m, fx, band, m);
        vstd::arithmetic::div_mod::lemma_fundamental_div_mod_converse(band * fy + m, fy, band, m);
    }

    proof fn lemma_same_energy(
        &self,
        sx: Seq<M>,
        sy: Seq<M>,
        bins: int,
        fx: int,
        fy: int,
        fb: Seq<W>,
        band: int,
        m: int,
        n: int,
    )
        requires
            0 <= n <= bins,
            forall|c: int| 0 <= c < bins ==> #[trigger] sx[c * fx + m] == sy[c * fy + m],
        ensures
            self.energy(sx, bins, fx, fb, band, m, n) == self.energy(
                sy,
                bins,
                fy,
                fb,
                band,
                m,
                n,
            ),
        decreases n,
    {
        if n > 0 {
            self.lemma_same_energy(sx, sy, bins, fx, fy, fb, band, m, n - 1);
            assert(sx[(n - 1) * fx + m] == sy[(n - 1) * fy + m]);
        }
    }

    fn band_levels(&self, mags: &[M], bins: usize, frames: usize, fb: &[W], n_mels: usize) -> (r: Vec<M>)
        requires
            self.pure(),
            mags@.len() == bins * frames,
            fb@.len() >= n_mels * bins,
            n_mels * frames <= usize::MAX,
        ensures
            r@ == self.levels(mags@, bins as int, frames as int, fb@, n_mels as int),
    {
        let fb_n: usize = fb.len();
        let mags_n: usize = mags.len();
        let n: usize = n_mels * frames;
        let ghost want = self.levels(mags@, bins as int, frames as int, fb@, n_mels as int);
        let mut r: Vec<M> = Vec::new();
        let mut i: usize = 0;
        while i < n
            invariant
                i <= n,
                n == n_mels * frames,
                mags_n == mags@.len(),
                mags@.len() == bins * frames,
                fb_n == fb@.len(),
                fb_n >= n_mels * bins,
                self.pure(),
                want == self.levels(mags@, bins as int, frames as int, fb@, n_mels as int),
                r@ == want.take(i as int),
            decreases n - i,
        {
            proof {
                assert(frames > 0 && i / frames < n_mels) by (nonlinear_arith)
                    requires
                        0 <= i < n_mels * frames,
                        frames >= 0,
                ;
            }
            let band: usize = i / frames;
            let frame: usize = i % frames;
            let mut acc: M = self.zero;
            let mut b: usize = 0;
            while b < bins
                invariant
                    b <= bins,
                    band < n_mels,
                    frame < frames,
                    mags_n == mags@.len(),
                    mags@.len() == bins * frames,
                    fb_n == fb@.len(),
                    fb_n >= n_mels * bins,
                    self.pure(),
                    acc == self.energy(
                        mags@,
                        bins as int,
                        frames as int,
                        fb@,
                        band as int,
                        frame as int,
                        b as int,
                    ),
                decreases bins - b,
            {
                proof {
                    lemma_cells_differ(
                        band as int,
                        b as int,
                        band as int,
                        b as int,
                        bins as int,
                        n_mels as int,
                    );
                    lemma_cells_differ(
                        b as int,
                        frame as int,
                        b as int,
                        frame as int,
                        frames as int,
                        bins as int,
                    );
                    assert(0 <= band * bins && 0 <= b * frames) by (nonlinear_arith);
                }
                acc = (self.gather)(acc, fb[band * bins + b], mags[b * frames + frame]);
                b = b + 1;
            }
            let v: M = (self.db)(acc);
            r.push(v);
            i = i + 1;
            assert(r@ =~= want.take(i as int));
        }
        assert(r@ =~= want);
        r
    }

    /// The mel features of a sound, with the number of bands and of frames. The
    /// filter bank has a weight for every bin in each of `n_mels` bands.
    pub fn melspec<T: Copy, F: Fn(&[T]) -> Vec<M>>(
        &self,
        x: &[T],
        fb: &[W],
        n_mels: usize,
        spectrum: &F,
    ) -> (r: (Vec<M>, usize, usize))
        requires
            self.pure(),
            pure_list(*spectrum, MEL_NFFT as int, MEL_NFFT / 2 + 1),
            can_cut(x@.len() as int, MEL_NFFT as int, MEL_HOP as int),
            fb@.len() >= n_mels * (MEL_NFFT / 2 + 1),
            n_mels * frame_count(x@.len() as int, MEL_HOP as int) <= usize::MAX,
        ensures
            r.1 == n_mels,
            r.2 == frame_count(x@.len() as int, MEL_HOP as int),
            r.0@ == self.scaled(
                self.levels(
                    stft(*spectrum, x@, MEL_NFFT as int, MEL_HOP as int),
                    MEL_NFFT / 2 + 1,
                    r.2 as int,
                    fb@,
                    n_mels as int,
                ),
            ),
            r.0@.len() == r.1 * r.2,
    {
        let (mags, bins, frames) = stft_mag(x, MEL_NFFT, MEL_HOP, self.zero, spectrum);
        let mel: Vec<M> = self.band_levels(mags.as_slice(), bins, frames, fb, n_mels);
        let mut top: M = self.lowest;
        let mut i: usize = 0;
        while i < mel.len()
            invariant
                i <= mel@.len(),
                self.pure(),
                top == self.loudest(mel@, i as int),
            decreases mel@.len() - i,
        {
            top = (self.louder)(top, mel[i]);
            i = i + 1;
        }
        let mut r: Vec<M> = Vec::new();
        let mut i: usize = 0;
        while i < mel.len()
            invariant
                i <= mel@.len(),
                self.pure(),
                top == self.loudest(mel@, mel@.len() as int),
                r@ == self.scaled(mel@).take(i as int),
            decreases mel@.len() - i,
        {
            let v: M = (self.level)(mel[i], top);
            r.push(v);
            i = i + 1;
            assert(r@ =~= self.scaled(mel@).take(i as int));
        }
        assert(r@ =~= self.scaled(mel@));
        assert(n_mels * frames >= 0) by (nonlinear_arith);
        (r, n_mels, frames)
    }
}

// ---- spectral distance ---------------------------------------------------------------------

/// The sizes of the frames at which two sounds are compared; frames stand a quarter of
/// their size apart.
pub const LOSS_FFTS: [usize; 5] = [2048, 1024, 512, 256, 128];

/// What has gathered after the first `n` pairs of two runs.
pub open spec fn paired<M, E, F: Fn(E, M, M) -> E>(step: F, none: E, a: Seq<M>, b: Seq<M>, n: int) -> E
    decreases n,
{
    if n <= 0 {
        none
    } else {
        of3(step, paired(step, none, a, b, n - 1), a[n - 1], b[n - 1])
    }
}

/// How many pairs two runs make.
pub open spec fn pairs(a: int, b: int) -> int {
    if a < b {
        a
    } else {
        b
    }
}

/// Gathers over the pairs of two runs, as far as both go.
pub fn gather_pairs<M: Copy, E: Copy, F: Fn(E, M, M) -> E>(a: &[M], b: &[M], none: E, step: &F) -> (r: E)
    requires
        pure3(*step),
    ensures
        r == paired(*step, none, a@, b@, pairs(a@.len() as int, b@.len() as int)),
{
    let mut e: E = none;
    let mut i: usize = 0;
    while i < a.len() && i < b.len()
        invariant
            i <= a@.len(),
            i <= b@.len(),
            pure3(*step),
            e == paired(*step, none, a@, b@, i as int),
        decreases a@.len() - i,
    {
        e = step(e, a[i], b[i]);
        i = i + 1;
    }
    e
}

/// The distance of two sounds over the first `k` sizes of frames. `spectra` takes the
/// spectrum of a frame of each size, `step` gathers the pairs of magnitudes, and `tally`
/// adds what has gathered at a size, over so many magnitudes, to the whole.
pub open spec fn multiscale<
    T,
    M,
    E,
    R,
    F: Fn(&[T]) -> Vec<M>,
    S: Fn(E, M, M) -> E,
    A: Fn(R, E, usize) -> R,
>(spectra: Seq<F>, step: S, tally: A, none: E, start: R, x: Seq<T>, y: Seq<T>, k: int) -> R
    decreases k,
{
    if k <= 0 {
        start
    } else {
        let n = LOSS_FFTS@[k - 1] as int;
        let a = stft(spectra[k - 1], x, n, n / 4);
        let b = stft(spectra[k - 1], y, n, n / 4);
        of3(
            tally,
            multiscale(spectra, step, tally, none, start, x, y, k - 1),
            paired(step, none, a, b, pairs(a.len() as int, b.len() as int)),
            a.len() as usize,
        )
    }
}

/// A sound can be cut into frames of every size.
pub open spec fn cut_at_all_sizes(t: int) -> bool {
    forall|k: int|
        0 <= k < 5 ==> can_cut(t, #[trigger] LOSS_FFTS@[k] as int, LOSS_FFTS@[k] as int / 4)
}

/// The distance of two sounds, over all sizes of frames.
pub fn multiscale_stft<
    T: Copy,
    M: Copy,
    E: Copy,
    R: Copy,
    F: Fn(&[T]) -> Vec<M>,
    S: Fn(E, M, M) -> E,
    A: Fn(R, E, usize) -> R,
>(x: &[T], y: &[T], spectra: &[F; 5], zero: M, none: E, step: &S, start: R, tally: &A) -> (r: R)
    requires
        cut_at_all_sizes(x@.len() as int),
        cut_at_all_sizes(y@.len() as int),
        forall|k: int|
            0 <= k < 5 ==> pure_list(
                #[trigger] spectra@[k],
                LOSS_FFTS@[k] as int,
                LOSS_FFTS@[k] as int / 2 + 1,
            ),
        pure3(*step),
        pure3(*tally),
    ensures
        r == multiscale(spectra@, *step, *tally, none, start, x@, y@, 5),
{
    let mut total: R = start;
    let mut k: usize = 0;
    while k < 5
        invariant
            k <= 5,
            cut_at_all_sizes(x@.len() as int),
            cut_at_all_sizes(y@.len() as int),
            forall|k: int|
                0 <= k < 5 ==> pure_list(
                    #[trigger] spectra@[k],
                    LOSS_FFTS@[k] as int,
                    LOSS_FFTS@[k] as int / 2 + 1,
                ),
            pure3(*step),
            pure3(*tally),
            total == multiscale(spectra@, *step, *tally, none, start, x@, y@, k as int),
        decreases 5 - k,
    {
        let n: usize = LOSS_FFTS[k];
        assert(can_cut(x@.len() as int, LOSS_FFTS@[k as int] as int, n as int / 4));
        let (a, _, _) = stft_mag(x, n, n / 4, zero, &spectra[k]);
        let (b, _, _) = stft_mag(y, n, n / 4, zero, &spectra[k]);
        let e: E = gather_pairs(a.as_slice(), b.as_slice(), none, step);
        total = tally(total, e, a.len());
        k = k + 1;
    }
    total
}

/// Two sounds of one length are as far from each other either way, where the pairs of
/// magnitudes are.
pub proof fn law_distance_is_symmetric<
    T,
    M,
    E,
    R,
    F: Fn(&[T]) -> Vec<M>,
    S: Fn(E, M, M) -> E,
    A: Fn(R, E, usize) -> R,
>(spectra: Seq<F>, step: S, tally: A, none: E, start: R, x: Seq<T>, y: Seq<T>, k: int)
    requires
        x.len() == y.len(),
        forall|e: E, a: M, b: M| #[trigger] of3(step, e, a, b) == of3(step, e, b, a),
    ensures
        multiscale(spectra, step, tally, none, start, x, y, k) == multiscale(
            spectra,
            step,
            tally,
            none,
            start,
            y,
            x,
            k,
        ),
    decreases k,
{
    if k > 0 {
        law_distance_is_symmetric(spectra, step, tally, none, start, x, y, k - 1);
        let n = LOSS_FFTS@[k - 1] as int;
        let a = stft(spectra[k - 1], x, n, n / 4);
        let b = stft(spectra[k - 1], y, n, n / 4);
        lemma_pairs_swap(step, none, a, b, a.len() as int);
    }
}

proof fn lemma_pairs_swap<M, E, S: Fn(E, M, M) -> E>(step: S, none: E, a: Seq<M>, b: Seq<M>, n: int)
    requires
        forall|e: E, a: M, b: M| #[trigger] of3(step, e, a, b) == of3(step, e, b, a),
    ensures
        paired(step, none, a, b, n) == paired(step, none, b, a, n),
    decreases n,
{
    if n > 0 {
        lemma_pairs_swap(step, none, a, b, n - 1);
    }
}

/// `e` is what has gathered before each pair of two runs of one length, and behind the last.
pub open spec fn is_gathered<M, E, S: Fn(E, M, M) -> E>(
    step: S,
    none: E,
    a: Seq<M>,
    b: Seq<M>,
    e: Seq<E>,
) -> bool {
    &&& a.len() == b.len()
    &&& e.len() == a.len() + 1
    &&& e[0] == none
    &&& forall|i: int| 0 <= i < a.len() ==> e[i + 1] == of3(step, #[trigger] e[i], a[i], b[i])
}

/// Every size of frames counts, and at each every pair of magnitudes: where `total` is the
/// distance before each of the five sizes, and `run` is what has gathered at that size
/// before each pair, the distance is the last total.
pub proof fn law_every_size_counts<
    T,
    M,
    E,
    R,
    F: Fn(&[T]) -> Vec<M>,
    S: Fn(E, M, M) -> E,
    A: Fn(R, E, usize) -> R,
>(
    spectra: Seq<F>,
    step: S,
    tally: A,
    none: E,
    start: R,
    x: Seq<T>,
    y: Seq<T>,
    sizes: Seq<int>,
    total: Seq<R>,
    run: Seq<Seq<E>>,
)
    requires
        sizes == seq![2048int, 1024, 512, 256, 128],
        total.len() == 6,
        run.len() == 5,
        total[0] == start,
        forall|k: int|
            0 <= k < 5 ==> {
                let a = stft(spectra[k], x, sizes[k], sizes[k] / 4);
                let b = stft(spectra[k], y, sizes[k], sizes[k] / 4);
                let e = #[trigger] run[k];
                &&& is_gathered(step, none, a, b, e)
                &&& total[k + 1] == of3(tally, total[k], e[a.len() as int], a.len() as usize)
            },
    ensures
        multiscale(spectra, step, tally, none, start, x, y, 5) == total[5],
        LOSS_FFTS@.len() == 5,
        forall|k: int| 0 <= k < 5 ==> #[trigger] LOSS_FFTS@[k] == sizes[k],
{
    lemma_totals(spectra, step, tally, none, start, x, y, sizes, total, run, 5);
}

proof fn lemma_totals<
    T,
    M,
    E,
    R,
    F: Fn(&[T]) -> Vec<M>,
    S: Fn(E, M, M) -> E,
    A: Fn(R, E, usize) -> R,
>(
    spectra: Seq<F>,
    step: S,
    tally: A,
    none: E,
    start: R,
    x: Seq<T>,
    y: Seq<T>,
    sizes: Seq<int>,
    total: Seq<R>,
    run: Seq<Seq<E>>,
    n: int,
)
    requires
        0 <= n <= 5,
        sizes == seq![2048int, 1024, 512, 256, 128],
        total.len() == 6,
        run.len() == 5,
        total[0] == start,
        forall|k: int|
            0 <= k < 5 ==> {
                let a = stft(spectra[k], x, sizes[k], sizes[k] / 4);
                let b = stft(spectra[k], y, sizes[k], sizes[k] / 4);
                let e = #[trigger] run[k];
                &&& is_gathered(step, none, a, b, e)
                &&& total[k + 1] == of3(tally, total[k], e[a.len() as int], a.len() as usize)
            },
    ensures
        multiscale(spectra, step, tally, none, start, x, y, n) == total[n],
    decreases n,
{
    if n > 0 {
        lemma_totals(spectra, step, tally, none, start, x, y, sizes, total, run, n - 1);
        let k = n - 1;
        let a = stft(spectra[k], x, sizes[k], sizes[k] / 4);
        let b = stft(spectra[k], y, sizes[k], sizes[k] / 4);
        let e = run[k];
        assert(LOSS_FFTS@[k] == sizes[k]);
        law_pairs_are_taken_in_turn(step, none, a, b, e);
    }
}

/// Pairs are taken in turn, as far as both runs go: where `e` is what has gathered before
/// each pair, the whole is what has gathered behind the last.
pub proof fn law_pairs_are_taken_in_turn<M, E, S: Fn(E, M, M) -> E>(
    step: S,
    none: E,
    a: Seq<M>,
    b: Seq<M>,
    e: Seq<E>,
)
    requires
        e.len() <= a.len() + 1,
        e.len() <= b.len() + 1,
        e.len() == a.len() + 1 || e.len() == b.len() + 1,
        e[0] == none,
        forall|i: int| 0 <= i < e.len() - 1 ==> e[i + 1] == of3(step, #[trigger] e[i], a[i], b[i]),
    ensures
        pairs(a.len() as int, b.len() as int) == e.len() - 1,
        paired(step, none, a, b, pairs(a.len() as int, b.len() as int)) == e[e.len() - 1],
{
    lemma_pairs_run(step, none, a, b, e, e.len() - 1);
}

proof fn lemma_pairs_run<M, E, S: Fn(E, M, M) -> E>(
    step: S,
    none: E,
    a: Seq<M>,
    b: Seq<M>,
    e: Seq<E>,
    n: int,
)
    requires
        0 <= n < e.len(),
        e[0] == none,
        forall|i: int| 0 <= i < e.len() - 1 ==> e[i + 1] == of3(step, #[trigger] e[i], a[i], b[i]),
    ensures
        paired(step, none, a, b, n) == e[n],
    decreases n,
{
    if n > 0 {
        lemma_pairs_run(step, none, a, b, e, n - 1);
        assert(e[n - 1 + 1] == of3(step, e[n - 1], a[n - 1], b[n - 1]));
    }
}

/// A sound is as far from itself as nothing is: where a magnitude paired with itself adds
/// nothing, and nothing adds nothing to the whole.
pub proof fn law_a_sound_is_like_itself<
    T,
    M,
    E,
    R,
    F: Fn(&[T]) -> Vec<M>,
    S: Fn(E, M, M) -> E,
    A: Fn(R, E, usize) -> R,
>(spectra: Seq<F>, step: S, tally: A, none: E, start: R, x: Seq<T>, k: int)
    requires
        forall|a: M| #[trigger] of3(step, none, a, a) == none,
        forall|r: R, n: usize| #[trigger] of3(tally, r, none, n) == r,
    ensures
        multiscale(spectra, step, tally, none, start, x, x, k) == start,
    decreases k,
{
    if k > 0 {
        law_a_sound_is_like_itself(spectra, step, tally, none, start, x, k - 1);
        let n = LOSS_FFTS@[k - 1] as int;
        let a = stft(spectra[k - 1], x, n, n / 4);
        lemma_pairs_with_itself(step, none, a, a.len() as int);
    }
}

proof fn lemma_pairs_with_itself<M, E, S: Fn(E, M, M) -> E>(step: S, none: E, a: Seq<M>, n: int)
    requires
        forall|a: M| #[trigger] of3(step, none, a, a) == none,
    ensures
        paired(step, none, a, a, n) == none,
    decreases n,
{
    if n > 0 {
        lemma_pairs_with_itself(step, none, a, n - 1);
    }
}

// ---- edges --------------------------------------------------------------------------------

/// How many samples a fade at each end takes: as many as asked for, but no more
/// than half the sound, and at least one.
pub open spec fn fade_count(asked: int, len: int) -> int {
    let n = if asked < len / 2 {
        asked
    } else {
        len / 2
    };
    if n < 1 {
        1
    } else {
        n
    }
}

pub fn fade_len(asked: usize, len: usize) -> (r: usize)
    ensures
        r == fade_count(asked as int, len as int),
        len > 0 ==> r <= len,
{
    let half: usize = len / 2;
    let n: usize = if asked < half {
        asked
    } else {
        half
    };
    if n < 1 {
        1
    } else {
        n
    }
}

/// A sound after the first `k` samples at each end were faded: `fade` is given a
/// sample, how far it stands from its end, and the length of the fade.
pub open spec fn faded<T, F: Fn(T, usize, usize) -> T>(fade: F, x: Seq<T>, n: usize, k: int) -> Seq<T>
    decreases k,
{
    if k <= 0 {
        x
    } else {
        let y = faded(fade, x, n, k - 1);
        let i = k - 1;
        let z = y.update(i, of3(fade, y[i], i as usize, n));
        let j = x.len() - 1 - i;
        z.update(j, of3(fade, z[j], i as usize, n))
    }
}

/// Fades both ends over `n` samples.
pub fn fade_edges<T: Copy, F: Fn(T, usize, usize) -> T>(x: &mut Vec<T>, n: usize, fade: &F)
    requires
        n <= old(x)@.len(),
        pure3(*fade),
    ensures
        final(x)@ == faded(*fade, old(x)@, n, n as int),
        final(x)@.len() == old(x)@.len(),
{
    let ghost x0 = x@;
    let len: usize = x.len();
    let mut i: usize = 0;
    while i < n
        invariant
            i <= n <= len,
            len == x@.len(),
            x@.len() == x0.len(),
            pure3(*fade),
            x@ == faded(*fade, x0, n, i as int),
        decreases n - i,
    {
        let a: T = fade(x[i], i, n);
        x.set(i, a);
        let j: usize = len - 1 - i;
        let b: T = fade(x[j], i, n);
        x.set(j, b);
        i = i + 1;
    }
}

/// A fade no longer than half the sound touches every sample near an end once, each
/// as far in as it stands from its end, and no other sample.
pub proof fn law_fades_are_symmetric<T, F: Fn(T, usize, usize) -> T>(
    fade: F,
    x: Seq<T>,
    n: usize,
    k: int,
)
    requires
        0 <= k <= n,
        2 * n <= x.len(),
    ensures
        faded(fade, x, n, k).len() == x.len(),
        forall|i: int|
            0 <= i < k ==> #[trigger] faded(fade, x, n, k)[i] == of3(fade, x[i], i as usize, n),
        forall|i: int|
            x.len() - k <= i < x.len() ==> #[trigger] faded(fade, x, n, k)[i] == of3(
                fade,
                x[i],
                (x.len() - 1 - i) as usize,
                n,
            ),
        forall|i: int| k <= i < x.len() - k ==> #[trigger] faded(fade, x, n, k)[i] == x[i],
    decreases k,
{
    if k > 0 {
        law_fades_are_symmetric(fade, x, n, k - 1);
    }
}

/// A fade is as long as was asked for, wherever both ends have room for it: it takes at
/// least one sample and, where there are two, no more than half of them, and it is only
/// shorter or longer than was asked for where these bounds make it so.
pub proof fn law_fades_have_room(asked: int, len: int)
    requires
        0 <= asked,
        0 <= len,
    ensures
        1 <= fade_count(asked, len),
        2 <= len ==> 2 * fade_count(asked, len) <= len,
        len < 2 ==> fade_count(asked, len) == 1,
        1 <= asked && 2 * asked <= len ==> fade_count(asked, len) == asked,
        2 <= len && 2 * asked > len ==> 2 * fade_count(asked, len) >= len - 1,
{
}

// ---- filters -------------------------------------------------------------------------------

/// How much of a loop's end its filter is warmed up on.
pub const WARM_UP: usize = 8192;

/// The filter's memory after `n` samples from `from`: the last sample that went in
/// and the last that came out. `step` makes what comes out of a sample and the
/// memory.
pub open spec fn memory<T, F: Fn(T, T, T) -> T>(step: F, m: (T, T), x: Seq<T>, from: int, n: int) -> (T, T)
    decreases n,
{
    if n <= 0 {
        m
    } else {
        let (px, py) = memory(step, m, x, from, n - 1);
        (x[from + n - 1], of3(step, x[from + n - 1], px, py))
    }
}

/// The memory that filtering starts with: none, or that of a loop's end.
pub open spec fn first_memory<T, F: Fn(T, T, T) -> T>(step: F, zero: T, x: Seq<T>, looped: bool) -> (T, T) {
    if looped {
        let from = if x.len() > WARM_UP {
            x.len() - WARM_UP
        } else {
            0
        };
        memory(step, (zero, zero), x, from, x.len() - from)
    } else {
        (zero, zero)
    }
}

/// A sound that went through the filter. For a loop the memory is warmed up on its
/// end, so that the seam stays continuous.
pub open spec fn filtered<T, F: Fn(T, T, T) -> T>(step: F, zero: T, x: Seq<T>, looped: bool) -> Seq<T> {
    Seq::new(
        x.len(),
        |i: int| memory(step, first_memory(step, zero, x, looped), x, 0, i + 1).1,
    )
}

/// Filters a sound in place.
pub fn filter_in_place<T: Copy, F: Fn(T, T, T) -> T>(x: &mut Vec<T>, looped: bool, zero: T, step: &F)
    requires
        pure3(*step),
    ensures
        final(x)@ == filtered(*step, zero, old(x)@, looped),
{
    let ghost x0 = x@;
    let len: usize = x.len();
    let mut px: T = zero;
    let mut py: T = zero;
    if looped {
        let from: usize = if len > WARM_UP {
            len - WARM_UP
        } else {
            0
        };
        let mut i: usize = from;
        while i < len
            invariant
                from <= i <= len,
                len == x@.len(),
                x@ == x0,
                pure3(*step),
                (px, py) == memory(*step, (zero, zero), x0, from as int, i - from),
            decreases len - i,
        {
            let v: T = x[i];
            py = step(v, px, py);
            px = v;
            i = i + 1;
        }
    }
    let ghost m = first_memory(*step, zero, x0, looped);
    let mut i: usize = 0;
    while i < len
        invariant
            i <= len,
            len == x@.len(),
            len == x0.len(),
            pure3(*step),
            m == first_memory(*step, zero, x0, looped),
            (px, py) == memory(*step, m, x0, 0, i as int),
            x@ == filtered(*step, zero, x0, looped).take(i as int) + x0.skip(i as int),
        decreases len - i,
    {
        let v: T = x[i];
        assert(v == x0[i as int]);
        py = step(v, px, py);
        px = v;
        x.set(i, py);
        i = i + 1;
        assert(x@ =~= filtered(*step, zero, x0, looped).take(i as int) + x0.skip(i as int));
    }
    assert(x@ =~= filtered(*step, zero, x0, looped));
}

/// Filtering goes on from sample to sample: what comes out of each is made of it, of the
/// one before it and of what came out of that. The first sample has silence before it,
/// unless the sound loops: then it has the sound's last sample before it, and what came out
/// of that when the sound's end, all of it or its last 8192 samples, was filtered.
pub proof fn law_filtering_goes_on<T, F: Fn(T, T, T) -> T>(
    step: F,
    zero: T,
    x: Seq<T>,
    looped: bool,
    i: int,
)
    requires
        0 <= i < x.len(),
    ensures
        ({
            let y = filtered(step, zero, x, looped);
            let end = x.skip(
                if x.len() > 8192 {
                    x.len() - 8192
                } else {
                    0
                },
            );
            &&& y.len() == x.len()
            &&& i > 0 ==> y[i] == of3(step, x[i], x[i - 1], y[i - 1])
            &&& !looped ==> y[0] == of3(step, x[0], zero, zero)
            &&& looped ==> y[0] == of3(
                step,
                x[0],
                x.last(),
                filtered(step, zero, end, false).last(),
            )
        }),
{
    reveal_with_fuel(memory, 2);
    let m = first_memory(step, zero, x, looped);
    lemma_memory_holds_the_last(step, m, x, 0, i);
    if looped {
        let from = if x.len() > 8192 {
            x.len() - 8192
        } else {
            0
        };
        let end = x.skip(from);
        lemma_memory_from(step, (zero, zero), x, from, end, 0, end.len() as int);
        lemma_memory_holds_the_last(step, (zero, zero), x, from, x.len() - from);
    }
}

/// The memory holds the last sample that went in.
proof fn lemma_memory_holds_the_last<T, F: Fn(T, T, T) -> T>(
    step: F,
    m: (T, T),
    x: Seq<T>,
    from: int,
    n: int,
)
    ensures
        n > 0 ==> memory(step, m, x, from, n).0 == x[from + n - 1],
        n <= 0 ==> memory(step, m, x, from, n) == m,
{
}

/// The end of a loop that its filter is warmed up on.
pub open spec fn warm_end<T>(x: Seq<T>) -> Seq<T> {
    if x.len() > WARM_UP {
        x.skip(x.len() - WARM_UP)
    } else {
        x
    }
}

/// The seam of a loop is continuous: each sample comes out as if the loop's end had
/// just been played, all of it where the loop is no longer than the warm-up.
pub proof fn law_seam_is_continuous<T, F: Fn(T, T, T) -> T>(step: F, zero: T, x: Seq<T>, i: int)
    requires
        0 <= i < x.len(),
    ensures
        filtered(step, zero, x, true)[i] == memory(
            step,
            (zero, zero),
            warm_end(x) + x,
            0,
            warm_end(x).len() + i + 1,
        ).1,
{
    let end = warm_end(x);
    let m = first_memory(step, zero, x, true);
    let from = if x.len() > WARM_UP {
        x.len() - WARM_UP
    } else {
        0
    };
    assert(end =~= x.skip(from));
    lemma_memory_from(step, (zero, zero), x, from, end, 0, end.len() as int);
    lemma_memory_from(step, (zero, zero), end + x, 0, end, 0, end.len() as int);
    lemma_memory_goes_on(step, (zero, zero), end, x, i + 1);
    assert(m == memory(step, (zero, zero), end + x, 0, end.len() as int));
}

/// The memory depends on the samples that went in alone.
proof fn lemma_memory_from<T, F: Fn(T, T, T) -> T>(
    step: F,
    m: (T, T),
    x: Seq<T>,
    from: int,
    y: Seq<T>,
    at: int,
    n: int,
)
    requires
        forall|k: int| 0 <= k < n ==> #[trigger] x[from + k] == y[at + k],
    ensures
        memory(step, m, x, from, n) == memory(step, m, y, at, n),
    decreases n,
{
    if n > 0 {
        lemma_memory_from(step, m, x, from, y, at, n - 1);
        assert(x[from + (n - 1)] == y[at + (n - 1)]);
    }
}

/// Filtering `x` and then `y` is filtering `y` from the memory of `x`.
proof fn lemma_memory_goes_on<T, F: Fn(T, T, T) -> T>(step: F, m: (T, T), x: Seq<T>, y: Seq<T>, n: int)
    requires
        0 <= n <= y.len(),
    ensures
        memory(step, m, x + y, 0, x.len() + n) == memory(
            step,
            memory(step, m, x + y, 0, x.len() as int),
            y,
            0,
            n,
        ),
    decreases n,
{
    if n > 0 {
        lemma_memory_goes_on(step, m, x, y, n - 1);
        assert((x + y)[x.len() + n - 1] == y[n - 1]);
    }
}

// ---- levels --------------------------------------------------------------------------------

/// The peak of the first `n` samples: `louder` is the larger of a peak and the size of
/// a sample.
pub open spec fn peak_of<T, P: Fn(T, T) -> T>(louder: P, zero: T, x: Seq<T>, n: int) -> T
    decreases n,
{
    if n <= 0 {
        zero
    } else {
        of2(louder, peak_of(louder, zero, x, n - 1), x[n - 1])
    }
}

/// Every sample, brought to a level by the sound's peak.
pub open spec fn normalised<T, P: Fn(T, T) -> T, L: Fn(T, T) -> T>(
    louder: P,
    level: L,
    zero: T,
    x: Seq<T>,
) -> Seq<T> {
    let p = peak_of(louder, zero, x, x.len() as int);
    x.map_values(|v: T| of2(level, v, p))
}

/// Brings a sound to a level by its peak.
pub fn normalise<T: Copy, P: Fn(T, T) -> T, L: Fn(T, T) -> T>(
    x: &mut Vec<T>,
    zero: T,
    louder: &P,
    level: &L,
)
    requires
        pure2(*louder),
        pure2(*level),
    ensures
        final(x)@ == normalised(*louder, *level, zero, old(x)@),
        forall|i: int|
            0 <= i < old(x)@.len() ==> call_ensures(
                *level,
                (old(x)@[i], peak_of(*louder, zero, old(x)@, old(x)@.len() as int)),
                #[trigger] final(x)@[i],
            ),
{
    let ghost x0 = x@;
    let n: usize = x.len();
    let mut p: T = zero;
    let mut i: usize = 0;
    while i < n
        invariant
            i <= n,
            n == x@.len(),
            x@ == x0,
            pure2(*louder),
            p == peak_of(*louder, zero, x0, i as int),
        decreases n - i,
    {
        p = louder(p, x[i]);
        i = i + 1;
    }
    let ghost want = normalised(*louder, *level, zero, x0);
    let mut k: usize = 0;
    while k < n
        invariant
            k <= n,
            n == x@.len(),
            n == x0.len(),
            pure2(*level),
            p == peak_of(*louder, zero, x0, n as int),
            want == normalised(*louder, *level, zero, x0),
            x@ == want.take(k as int) + x0.skip(k as int),
            forall|i: int| 0 <= i < k ==> call_ensures(*level, (x0[i], p), #[trigger] x@[i]),
        decreases n - k,
    {
        let v: T = level(x[k], p);
        x.set(k, v);
        k = k + 1;
        assert(x@ =~= want.take(k as int) + x0.skip(k as int));
    }
    assert(x@ =~= want);
}

/// Every sample of a sound that was brought to a level keeps to it: where the peak
/// covers each sample that went into it, and a sample that the peak covers comes out
/// right, all do.
pub proof fn law_levels_hold<T, P: Fn(T, T) -> T, L: Fn(T, T) -> T>(
    louder: P,
    level: L,
    zero: T,
    x: Seq<T>,
    covers: spec_fn(T, T) -> bool,
    ok: spec_fn(T) -> bool,
)
    requires
        forall|p: T, v: T| #[trigger] covers(of2(louder, p, v), v),
        forall|p: T, v: T, w: T| covers(p, v) ==> #[trigger] covers(of2(louder, p, w), v),
        forall|p: T, v: T| covers(p, v) ==> #[trigger] ok(of2(level, v, p)),
    ensures
        normalised(louder, level, zero, x).len() == x.len(),
        forall|i: int|
            0 <= i < x.len() ==> ok(#[trigger] normalised(louder, level, zero, x)[i]),
{
    lemma_peak_covers(louder, zero, x, x.len() as int, covers);
    let p = peak_of(louder, zero, x, x.len() as int);
    assert forall|i: int| 0 <= i < x.len() implies ok(
        #[trigger] normalised(louder, level, zero, x)[i],
    ) by {
        assert(covers(p, x[i]));
        assert(ok(of2(level, x[i], p)));
    }
}

proof fn lemma_peak_covers<T, P: Fn(T, T) -> T>(
    louder: P,
    zero: T,
    x: Seq<T>,
    n: int,
    covers: spec_fn(T, T) -> bool,
)
    requires
        n <= x.len(),
        forall|p: T, v: T| #[trigger] covers(of2(louder, p, v), v),
        forall|p: T, v: T, w: T| covers(p, v) ==> #[trigger] covers(of2(louder, p, w), v),
    ensures
        forall|i: int| 0 <= i < n ==> covers(peak_of(louder, zero, x, n), #[trigger] x[i]),
    decreases n,
{
    if n > 0 {
        lemma_peak_covers(louder, zero, x, n - 1, covers);
        let q = peak_of(louder, zero, x, n - 1);
        assert forall|i: int| 0 <= i < n implies covers(
            peak_of(louder, zero, x, n),
            #[trigger] x[i],
        ) by {
            if i < n - 1 {
                assert(covers(q, x[i]));
            }
        }
    }
}

// ---- resampling ----------------------------------------------------------------------------

/// A sound read at `n` places: `at` tells how far in the `i`th of them lies, and `lerp`
/// goes from one sample to the next.
pub open spec fn resampled<T, A: Fn(usize) -> (usize, T), L: Fn(T, T, T) -> T>(
    x: Seq<T>,
    n: int,
    at: A,
    lerp: L,
) -> Seq<T> {
    Seq::new(
        n as nat,
        |i: int|
            of3(
                lerp,
                held(x, of1(at, i as usize).0 as int),
                held(x, of1(at, i as usize).0 + 1),
                of1(at, i as usize).1,
            ),
    )
}

/// `at` may read a sound in the `i`th place where `lerp` may give `v`.
pub open spec fn lies_at<T, A: Fn(usize) -> (usize, T), L: Fn(T, T, T) -> T>(
    x: Seq<T>,
    at: A,
    lerp: L,
    i: int,
    v: T,
) -> bool {
    let p = of1(at, i as usize);
    &&& call_ensures(at, (i as usize,), p)
    &&& call_ensures(lerp, (held(x, p.0 as int), held(x, p.0 + 1), p.1), v)
}

/// Resamples a sound to `n` samples. `at` tells, for each, the sample before it and
/// how far behind that it stands; `lerp` takes two neighbours and how far between
/// them. Beyond the end the last sample stays.
pub fn resample<T: Copy, A: Fn(usize) -> (usize, T), L: Fn(T, T, T) -> T>(
    x: &[T],
    n: usize,
    at: &A,
    lerp: &L,
) -> (r: Vec<T>)
    requires
        n > 0 ==> x@.len() > 0,
        pure1(*at),
        pure3(*lerp),
    ensures
        r@ == resampled(x@, n as int, *at, *lerp),
        forall|i: int| 0 <= i < n ==> lies_at(x@, *at, *lerp, i, #[trigger] r@[i]),
{
    let mut r: Vec<T> = Vec::new();
    let mut i: usize = 0;
    while i < n
        invariant
            i <= n,
            n > 0 ==> x@.len() > 0,
            pure1(*at),
            pure3(*lerp),
            r@.len() == i,
            forall|k: int| 0 <= k < i ==> #[trigger] r@[k] == resampled(x@, n as int, *at, *lerp)[k],
            forall|k: int| 0 <= k < i ==> lies_at(x@, *at, *lerp, k, #[trigger] r@[k]),
        decreases n - i,
    {
        let spot: (usize, T) = at(i);
        let (j, frac) = spot;
        let last: usize = x.len() - 1;
        let a: T = if j < last {
            x[j]
        } else {
            x[last]
        };
        let b: T = if j < last {
            x[j + 1]
        } else {
            x[last]
        };
        let v: T = lerp(a, b, frac);
        assert(spot == of1(*at, i));
        assert(lies_at(x@, *at, *lerp, i as int, v));
        r.push(v);
        i = i + 1;
    }
    assert(r@ =~= resampled(x@, n as int, *at, *lerp));
    r
}

/// The sample at `j`, or the last if there are not that many.
pub open spec fn held<T>(x: Seq<T>, j: int) -> T {
    if j < x.len() {
        x[j]
    } else {
        x.last()
    }
}

/// The peak takes in every sample in turn, and every sample is brought to its level by it:
/// where `top` is the peak before each sample, what comes out of each is made of it and of
/// the last of them.
pub proof fn law_levels_go_by_the_peak<T, P: Fn(T, T) -> T, L: Fn(T, T) -> T>(
    louder: P,
    level: L,
    zero: T,
    x: Seq<T>,
    top: Seq<T>,
    i: int,
)
    requires
        0 <= i < x.len(),
        top.len() == x.len() + 1,
        top[0] == zero,
        forall|k: int| 0 <= k < x.len() ==> top[k + 1] == of2(louder, #[trigger] top[k], x[k]),
    ensures
        normalised(louder, level, zero, x).len() == x.len(),
        normalised(louder, level, zero, x)[i] == of2(level, x[i], top[x.len() as int]),
{
    lemma_peak_run(louder, zero, x, top, x.len() as int);
}

proof fn lemma_peak_run<T, P: Fn(T, T) -> T>(louder: P, zero: T, x: Seq<T>, top: Seq<T>, n: int)
    requires
        0 <= n <= x.len(),
        top.len() == x.len() + 1,
        top[0] == zero,
        forall|k: int| 0 <= k < x.len() ==> top[k + 1] == of2(louder, #[trigger] top[k], x[k]),
    ensures
        peak_of(louder, zero, x, n) == top[n],
    decreases n,
{
    if n > 0 {
        lemma_peak_run(louder, zero, x, top, n - 1);
        assert(top[n - 1 + 1] == of2(louder, top[n - 1], x[n - 1]));
    }
}

/// Resampling reads between two neighbours: where a place lies `frac` behind sample `j`,
/// what is read there lies as far between `x[j]` and `x[j + 1]`; from the last sample on it
/// lies between that sample and itself.
pub proof fn law_resampling_reads_between<T, A: Fn(usize) -> (usize, T), L: Fn(T, T, T) -> T>(
    x: Seq<T>,
    n: int,
    at: A,
    lerp: L,
    i: int,
    j: usize,
    frac: T,
)
    requires
        0 <= i < n,
        0 < x.len(),
        of1(at, i as usize) == (j, frac),
    ensures
        resampled(x, n, at, lerp).len() == n,
        j + 1 < x.len() ==> resampled(x, n, at, lerp)[i] == of3(
            lerp,
            x[j as int],
            x[j + 1],
            frac,
        ),
        j + 1 >= x.len() ==> resampled(x, n, at, lerp)[i] == of3(
            lerp,
            x[x.len() - 1],
            x[x.len() - 1],
            frac,
        ),
{
}

} // verus!
