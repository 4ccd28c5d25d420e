//! Listenability: hearing what is wrong with a sound.
//!
//! Renders are peak-normalised, so a bad patch is never quiet: it is a click, a fizz,
//! a resonant whistle or subsonic rumble at full scale. Measured shares are the bit
//! patterns of nonnegative `IEEE` numbers, which are ordered as the numbers are.

use crate::dsp::{can_cut, frame_count, lemma_cells_differ, stft, stft_mag};
use crate::func::{of1, of2, of3, pure1, pure2, pure3, pure_list};
use crate::order::{first_peak, is_first_peak, law_the_first_of_the_largest, peak_at};
use core::marker::PhantomData;
use vstd::prelude::*;

verus! {

/// What is wrong with a rendered sound.
#[derive(Default, Clone, Copy, Debug)]
pub struct Vet {
    pub dud: bool,
    /// All the energy within a blink.
    pub tick: bool,
    /// Fizz dominates the spectrum.
    pub harsh: bool,
    /// One high bin carries most frames.
    pub screech: bool,
    /// Subsonic energy.
    pub rumble: bool,
}

impl Vet {
    /// Some flag is set.
    pub open spec fn any(self) -> bool {
        self.dud || self.tick || self.harsh || self.screech || self.rumble
    }

    /// Whether anything is wrong.
    pub fn bad(&self) -> (r: bool)
        ensures
            r == self.any(),
    {
        self.dud || self.tick || self.harsh || self.screech || self.rumble
    }
}

/// What is measured of a sound: its length; its level, the share and the seconds
/// of it that are audible (bits of singles); the share of subsonic energy and the
/// share of fizz (bits of doubles, 0 where there is nothing to take a share of);
/// how many frames are active, and how many of those whistle.
#[derive(Clone, Copy, Debug)]
pub struct Measures {
    pub len: usize,
    pub rms: u64,
    pub active_share: u64,
    pub active_secs: u64,
    pub rumble_share: u64,
    pub harsh_share: u64,
    pub active_frames: usize,
    pub whistling: usize,
}

/// 0.03, as a single.
pub const DUD_LEVEL: u64 = 0x3cf5c28f;

/// 0.06, as a single.
pub const TICK_SECS: u64 = 0x3d75c28f;

/// 0.25, as a double.
pub const RUMBLE_SHARE: u64 = 0x3fd0000000000000;

/// 0.55, as a double.
pub const HARSH_SHARE: u64 = 0x3fe199999999999a;

/// 0.55, as a single.
pub const LOUD_LEVEL: u64 = 0x3f0ccccd;

/// 0.4, as a double.
pub const LOUD_HARSH_SHARE: u64 = 0x3fd999999999999a;

/// The verdict on a sound. Nothing but a dud can be said of an empty one.
pub open spec fn verdict(m: Measures) -> Vet {
    if m.len == 0 {
        Vet { dud: true, tick: false, harsh: false, screech: false, rumble: false }
    } else {
        Vet {
            dud: m.rms < DUD_LEVEL || m.active_share < DUD_LEVEL,
            tick: m.active_secs < TICK_SECS,
            harsh: m.active_frames > 0 && (m.harsh_share > HARSH_SHARE || (m.rms > LOUD_LEVEL
                && m.harsh_share > LOUD_HARSH_SHARE)),
            screech: 2 * m.whistling > m.active_frames && m.active_frames > 0,
            rumble: m.rumble_share > RUMBLE_SHARE,
        }
    }
}

/// Judges a sound by what was measured of it.
pub fn grade(m: &Measures) -> (v: Vet)
    ensures
        v == verdict(*m),
{
    if m.len == 0 {
        return Vet { dud: true, tick: false, harsh: false, screech: false, rumble: false };
    }
    Vet {
        dud: m.rms < DUD_LEVEL || m.active_share < DUD_LEVEL,
        tick: m.active_secs < TICK_SECS,
        harsh: m.active_frames > 0 && (m.harsh_share > HARSH_SHARE || (m.rms > LOUD_LEVEL
            && m.harsh_share > LOUD_HARSH_SHARE)),
        screech: m.active_frames > 0 && m.whistling > m.active_frames / 2,
        rumble: m.rumble_share > RUMBLE_SHARE,
    }
}

/// A sound is condemned for what is wrong with it and for nothing else: too quiet or silent
/// for most of its length (0.03), over in a blink (0.06 s), more than 0.55 of its power fizz
/// or more than 0.4 where it is louder than 0.55, more than half of its active frames
/// whistling, more than a quarter of its energy subsonic. Of an empty one nothing else is
/// said than that it is a dud.
pub proof fn law_verdicts_have_their_reasons(m: Measures)
    ensures
        verdict(m).dud <==> m.len == 0 || m.rms < 0x3cf5c28f || m.active_share < 0x3cf5c28f,
        verdict(m).tick <==> m.len > 0 && m.active_secs < 0x3d75c28f,
        verdict(m).harsh <==> m.len > 0 && m.active_frames > 0 && (m.harsh_share
            > 0x3fe199999999999a || m.rms > 0x3f0ccccd && m.harsh_share > 0x3fd999999999999a),
        verdict(m).screech <==> m.len > 0 && m.active_frames > 0 && m.whistling + m.whistling
            > m.active_frames,
        verdict(m).rumble <==> m.len > 0 && m.rumble_share > 0x3fd0000000000000,
        verdict(m).any() <==> verdict(m).dud || verdict(m).tick || verdict(m).harsh || verdict(
            m,
        ).screech || verdict(m).rumble,
{
}

/// Those of the first `n` frames whose power is above `floor`.
pub open spec fn loud_frames(powers: Seq<u64>, floor: u64, n: int) -> Seq<usize>
    decreases n,
{
    if n <= 0 {
        Seq::empty()
    } else if powers[n - 1] > floor {
        loud_frames(powers, floor, n - 1).push((n - 1) as usize)
    } else {
        loud_frames(powers, floor, n - 1)
    }
}

/// The frames whose power (bits of nonnegative doubles) is above `floor`.
fn active_frames(powers: &[u64], floor: u64) -> (r: Vec<usize>)
    ensures
        r@ == loud_frames(powers@, floor, powers@.len() as int),
{
    let mut r: Vec<usize> = Vec::new();
    let mut i: usize = 0;
    while i < powers.len()
        invariant
            i <= powers@.len(),
            r@ == loud_frames(powers@, floor, i as int),
        decreases powers@.len() - i,
    {
        if powers[i] > floor {
            r.push(i);
        }
        i = i + 1;
    }
    r
}

/// The active frames are all those that are louder than the floor, and no others, from the
/// first to the last.
pub proof fn law_active_frames_are_those_above_the_floor(
    powers: Seq<u64>,
    floor: u64,
    n: int,
    m: int,
)
    requires
        0 <= n <= powers.len() <= usize::MAX,
        0 <= m < n,
    ensures
        loud_frames(powers, floor, n).contains(m as usize) <==> powers[m] > floor,
        forall|i: int, j: int|
            0 <= i < j < loud_frames(powers, floor, n).len() ==> (#[trigger] loud_frames(
                powers,
                floor,
                n,
            )[i]) < (#[trigger] loud_frames(powers, floor, n)[j]),
    decreases n,
{
    let front = loud_frames(powers, floor, n - 1);
    let all = loud_frames(powers, floor, n);
    lemma_loud_frames(powers, floor, n - 1);
    if n > 1 {
        law_active_frames_are_those_above_the_floor(
            powers,
            floor,
            n - 1,
            if m < n - 1 {
                m
            } else {
                0
            },
        );
    }
    if powers[n - 1] > floor {
        assert(all == front.push((n - 1) as usize));
        assert(all[front.len() as int] == (n - 1) as usize);
        if front.contains(m as usize) {
            let j = choose|j: int| 0 <= j < front.len() && front[j] == m as usize;
            assert(all[j] == m as usize);
        }
        if all.contains(m as usize) && m < n - 1 {
            let j = choose|j: int| 0 <= j < all.len() && all[j] == m as usize;
            assert(front[j] == m as usize);
        }
        assert forall|i: int, j: int| 0 <= i < j < all.len() implies (#[trigger] all[i]) < (
        #[trigger] all[j]) by {
            assert(all[i] == front[i]);
            if j < front.len() {
                assert(all[j] == front[j]);
            }
        }
    } else if front.contains(m as usize) && m == n - 1 {
        let j = choose|j: int| 0 <= j < front.len() && front[j] == m as usize;
        assert(front[j] < n - 1);
    }
}

/// The arithmetic of listening. Magnitudes are of type `T`, powers of type `E`.
pub struct Ear<T, E, P, A, B, W> {
    pub magnitude: PhantomData<T>,
    pub none: E,
    /// The power of a magnitude.
    pub power: P,
    pub plus: A,
    /// The bits of a power.
    pub bits: B,
    /// Whether a frame whistles, from the power of its strongest bin, its whole power
    /// and that bin.
    pub whistles: W,
}

/// A table of magnitudes: `frames` of each bin side by side, `bins` in all.
pub struct Spectrum<T> {
    pub mags: Seq<T>,
    pub bins: int,
    pub frames: int,
}

impl<
    T: Copy,
    E: Copy,
    P: Fn(T) -> E,
    A: Fn(E, E) -> E,
    B: Fn(E) -> u64,
    W: Fn(E, E, usize) -> bool,
> Ear<T, E, P, A, B, W> {
    pub open spec fn pure(&self) -> bool {
        &&& pure1::<T, E, P>(self.power)
        &&& pure2(self.plus)
        &&& pure1(self.bits)
        &&& pure3(self.whistles)
    }

    /// The power in bin `b` of frame `m`.
    pub open spec fn power_at(&self, s: Spectrum<T>, b: int, m: int) -> E {
        of1(self.power, s.mags[b * s.frames + m])
    }

    /// The power between two bins, both included, in the first `t` cells of the active
    /// frames, taken frame by frame.
    pub open spec fn band(&self, s: Spectrum<T>, act: Seq<usize>, from: int, to: int, t: int) -> E
        decreases t,
    {
        if t <= 0 {
            self.none
        } else {
            let sum = self.band(s, act, from, to, t - 1);
            let b = (t - 1) % s.bins;
            if from <= b <= to {
                of2(self.plus, sum, self.power_at(s, b, act[(t - 1) / s.bins] as int))
            } else {
                sum
            }
        }
    }

    /// The power in the first `b` bins of a frame.
    pub open spec fn frame_power(&self, s: Spectrum<T>, m: int, b: int) -> E
        decreases b,
    {
        if b <= 0 {
            self.none
        } else {
            of2(self.plus, self.frame_power(s, m, b - 1), self.power_at(s, b - 1, m))
        }
    }

    /// The powers of all frames.
    pub open spec fn powers(&self, s: Spectrum<T>) -> Seq<E> {
        Seq::new(s.frames as nat, |m: int| self.frame_power(s, m, s.bins))
    }

    /// The powers of all frames, as keys.
    pub open spec fn power_keys(&self, s: Spectrum<T>) -> Seq<u64> {
        self.powers(s).map_values(|p: E| of1(self.bits, p))
    }

    /// The powers of a frame, as keys.
    pub open spec fn frame_keys(&self, s: Spectrum<T>, m: int) -> Seq<u64> {
        Seq::new(s.bins as nat, |b: int| of1(self.bits, self.power_at(s, b, m)))
    }

    /// A frame whistles.
    pub open spec fn whistling_at(&self, s: Spectrum<T>, m: int) -> bool {
        let b = peak_at(self.frame_keys(s, m));
        of3(self.whistles, self.power_at(s, b, m), self.frame_power(s, m, s.bins), b as usize)
    }

    /// How many of the first `k` active frames whistle.
    pub open spec fn whistling(&self, s: Spectrum<T>, act: Seq<usize>, k: int) -> int
        decreases k,
    {
        if k <= 0 {
            0
        } else {
            self.whistling(s, act, k - 1) + if self.whistling_at(s, act[k - 1] as int) {
                1int
            } else {
                0
            }
        }
    }

    /// A band is heard in every active frame, and from its first bin to its last: where
    /// `e(a, b)` is the power before bin `b` of the `a`th active frame, it grows by the power
    /// of that bin where the bin lies in the band, and by nothing where it does not, and the
    /// whole is what is there behind the last frame.
    pub proof fn law_bands_are_heard_in_every_active_frame(
        &self,
        s: Spectrum<T>,
        act: Seq<usize>,
        from: int,
        to: int,
        e: spec_fn(int, int) -> E,
    )
        requires
            0 < s.bins,
            e(0, 0) == self.none,
            forall|a: int, b: int|
                0 <= a < act.len() && 0 <= b < s.bins ==> e(a, b + 1) == if from <= b && b <= to {
                    of2(
                        self.plus,
                        #[trigger] e(a, b),
                        of1(self.power, s.mags[b * s.frames + act[a]]),
                    )
                } else {
                    e(a, b)
                },
            forall|a: int| 0 <= a < act.len() ==> #[trigger] e(a + 1, 0) == e(a, s.bins),
        ensures
            self.band(s, act, from, to, act.len() * s.bins) == e(act.len() as int, 0),
    {
        self.lemma_band_run(s, act, from, to, e, act.len() as int, 0);
    }

    proof fn lemma_band_run(
        &self,
        s: Spectrum<T>,
        act: Seq<usize>,
        from: int,
        to: int,
        e: spec_fn(int, int) -> E,
        a: int,
        b: int,
    )
        requires
            0 < s.bins,
            0 <= a <= act.len(),
            0 <= b <= s.bins,
            a == act.len() ==> b == 0,
            e(0, 0) == self.none,
            forall|a: int, b: int|
                0 <= a < act.len() && 0 <= b < s.bins ==> e(a, b + 1) == if from <= b && b <= to {
                    of2(
                        self.plus,
                        #[trigger] e(a, b),
                        of1(self.power, s.mags[b * s.frames + act[a]]),
                    )
                } else {
                    e(a, b)
                },
            forall|a: int| 0 <= a < act.len() ==> #[trigger] e(a + 1, 0) == e(a, s.bins),
        ensures
            self.band(s, act, from, to, a * s.bins + b) == e(a, b),
        decreases a, b,
    {
        if b > 0 {
            self.lemma_band_run(s, act, from, to, e, a, b - 1);
            let t = a * s.bins + b;
            assert(t > 0 && 0 <= a * s.bins) by (nonlinear_arith)
                requires
                    t == a * s.bins + b,
                    a >= 0,
                    s.bins > 0,
                    b > 0,
            ;
            vstd::arithmetic::div_mod::lemma_fundamental_div_mod_converse(
                t - 1,
                s.bins,
                a,
                b - 1,
            );
            assert(e(a, b - 1 + 1) == if from <= b - 1 && b - 1 <= to {
                of2(
                    self.plus,
                    e(a, b - 1),
                    of1(self.power, s.mags[(b - 1) * s.frames + act[a]]),
                )
            } else {
                e(a, b - 1)
            });
        } else if a > 0 {
            self.lemma_band_run(s, act, from, to, e, a - 1, s.bins);
            assert((a - 1) * s.bins + s.bins == a * s.bins) by (nonlinear_arith);
            assert(e(a - 1 + 1, 0) == e(a - 1, s.bins));
        } else {
            assert(0 * s.bins == 0) by (nonlinear_arith);
        }
    }

    /// A frame is as powerful as all its bins: where `e` is the power before each of them,
    /// its power is the last, and so is its key.
    pub proof fn law_frames_are_heard_whole(&self, s: Spectrum<T>, m: int, e: Seq<E>)
        requires
            0 <= m < s.frames,
            0 <= s.bins,
            e.len() == s.bins + 1,
            e[0] == self.none,
            forall|b: int|
                0 <= b < s.bins ==> e[b + 1] == of2(
                    self.plus,
                    #[trigger] e[b],
                    of1(self.power, s.mags[b * s.frames + m]),
                ),
        ensures
            self.powers(s).len() == s.frames,
            self.powers(s)[m] == e[s.bins],
            self.power_keys(s).len() == s.frames,
            self.power_keys(s)[m] == of1(self.bits, e[s.bins]),
    {
        self.lemma_frame_run(s, m, e, s.bins);
    }

    proof fn lemma_frame_run(&self, s: Spectrum<T>, m: int, e: Seq<E>, n: int)
        requires
            0 <= n <= s.bins,
            e.len() == s.bins + 1,
            e[0] == self.none,
            forall|b: int|
                0 <= b < s.bins ==> e[b + 1] == of2(
                    self.plus,
                    #[trigger] e[b],
                    of1(self.power, s.mags[b * s.frames + m]),
                ),
        ensures
            self.frame_power(s, m, n) == e[n],
        decreases n,
    {
        if n > 0 {
            self.lemma_frame_run(s, m, e, n - 1);
            assert(e[n - 1 + 1] == of2(
                self.plus,
                e[n - 1],
                of1(self.power, s.mags[(n - 1) * s.frames + m]),
            ));
        }
    }

    /// Whether a frame whistles is settled by its strongest bin: the one whose power is
    /// above that of every bin before it, and that no bin behind it is above.
    pub proof fn law_the_strongest_bin_whistles(
        &self,
        s: Spectrum<T>,
        m: int,
        top: int,
        keys: Seq<u64>,
    )
        requires
            0 <= m < s.frames,
            0 <= top < s.bins,
            keys.len() == s.bins,
            forall|b: int|
                0 <= b < s.bins ==> #[trigger] keys[b] == of1(
                    self.bits,
                    of1(self.power, s.mags[b * s.frames + m]),
                ),
            forall|b: int| 0 <= b < top ==> #[trigger] keys[b] < keys[top],
            forall|b: int| top <= b < s.bins ==> #[trigger] keys[b] <= keys[top],
        ensures
            self.whistling_at(s, m) == of3(
                self.whistles,
                of1(self.power, s.mags[top * s.frames + m]),
                self.powers(s)[m],
                top as usize,
            ),
    {
        assert(keys =~= self.frame_keys(s, m));
        if forall|k: int| 0 <= k < keys.len() ==> #[trigger] keys[k] == 0 {
            if top > 0 {
                assert(keys[0] < keys[top]);
            }
        }
        assert(is_first_peak(keys, top));
        law_the_first_of_the_largest(keys, top, top);
    }

    /// As many frames whistle as there are active frames that do: where `c` is how many of
    /// them did before each.
    pub proof fn law_whistling_frames_are_counted(
        &self,
        s: Spectrum<T>,
        act: Seq<usize>,
        n: int,
        c: Seq<int>,
    )
        requires
            0 <= n <= act.len(),
            c.len() == n + 1,
            c[0] == 0,
            forall|k: int|
                0 <= k < n ==> c[k + 1] == if self.whistling_at(s, act[k] as int) {
                    #[trigger] c[k] + 1
                } else {
                    c[k]
                },
        ensures
            self.whistling(s, act, n) == c[n],
        decreases n,
    {
        if n > 0 {
            let d = c.take(n);
            assert forall|k: int| 0 <= k < n - 1 implies d[k + 1] == if self.whistling_at(
                s,
                act[k] as int,
            ) {
                #[trigger] d[k] + 1
            } else {
                d[k]
            } by {
                assert(c[k + 1] == if self.whistling_at(s, act[k] as int) {
                    c[k] + 1
                } else {
                    c[k]
                });
            }
            self.law_whistling_frames_are_counted(s, act, n - 1, d);
            assert(c[n - 1 + 1] == if self.whistling_at(s, act[n - 1] as int) {
                c[n - 1] + 1
            } else {
                c[n - 1]
            });
        }
    }

    /// The power between two bins over the active frames.
    fn band_power(
        &self,
        mags: &[T],
        bins: usize,
        frames: usize,
        act: &[usize],
        from: usize,
        to: usize,
    ) -> (r: E)
        requires
            self.pure(),
            mags@.len() == bins * frames,
            forall|i: int| 0 <= i < act@.len() ==> #[trigger] act@[i] < frames,
            act@.len() * bins <= usize::MAX,
        ensures
            r == self.band(
                Spectrum { mags: mags@, bins: bins as int, frames: frames as int },
                act@,
                from as int,
                to as int,
                act@.len() * bins,
            ),
    {
        let ghost s = Spectrum { mags: mags@, bins: bins as int, frames: frames as int };
        let len: usize = mags.len();
        let n: usize = act.len() * bins;
        let mut sum: E = self.none;
        let mut t: usize = 0;
        while t < n
            invariant
                t <= n,
                n == act@.len() * bins,
                len == mags@.len(),
                mags@.len() == bins * frames,
                s == (Spectrum { mags: mags@, bins: bins as int, frames: frames as int }),
                forall|i: int| 0 <= i < act@.len() ==> #[trigger] act@[i] < frames,
                self.pure(),
                sum == self.band(s, act@, from as int, to as int, t as int),
            decreases n - t,
        {
            proof {
                assert(bins > 0 && t / bins < act@.len()) by (nonlinear_arith)
                    requires
                        0 <= t < act@.len() * bins,
                        bins >= 0,
                ;
            }
            let b: usize = t % bins;
            if from <= b && b <= to {
                let m: usize = act[t / bins];
                proof {
                    lemma_cells_differ(b as int, m as int, b as int, m as int, frames as int, bins as int);
                    assert(0 <= b * frames) by (nonlinear_arith);
                }
                let p: E = (self.power)(mags[b * frames + m]);
                sum = (self.plus)(sum, p);
            }
            t = t + 1;
        }
        sum
    }

    /// The powers of all frames.
    fn measure_frames(&self, mags: &[T], bins: usize, frames: usize) -> (r: Vec<E>)
        requires
            self.pure(),
            mags@.len() == bins * frames,
        ensures
            r@ == self.powers(Spectrum { mags: mags@, bins: bins as int, frames: frames as int }),
    {
        let ghost s = Spectrum { mags: mags@, bins: bins as int, frames: frames as int };
        let len: usize = mags.len();
        let mut r: Vec<E> = Vec::new();
        let mut m: usize = 0;
        while m < frames
            invariant
                m <= frames,
                len == mags@.len(),
                mags@.len() == bins * frames,
                s == (Spectrum { mags: mags@, bins: bins as int, frames: frames as int }),
                self.pure(),
                r@ == self.powers(s).take(m as int),
            decreases frames - m,
        {
            let mut sum: E = self.none;
            let mut b: usize = 0;
            while b < bins
                invariant
                    b <= bins,
                    m < frames,
                    len == mags@.len(),
                    mags@.len() == bins * frames,
                    s == (Spectrum { mags: mags@, bins: bins as int, frames: frames as int }),
                    self.pure(),
                    sum == self.frame_power(s, m as int, b as int),
                decreases bins - b,
            {
                proof {
                    lemma_cells_differ(
                        b as int,
                        m as int,
                        b as int,
                        m as int,
                        frames as int,
                        bins as int,
                    );
                    assert(0 <= b * frames) by (nonlinear_arith);
                }
                let p: E = (self.power)(mags[b * frames + m]);
                sum = (self.plus)(sum, p);
                b = b + 1;
            }
            r.push(sum);
            m = m + 1;
            assert(r@ =~= self.powers(s).take(m as int));
        }
        assert(r@ =~= self.powers(s));
        r
    }

    fn frame_whistles(&self, mags: &[T], bins: usize, frames: usize, m: usize, total: E) -> (r: bool)
        requires
            self.pure(),
            mags@.len() == bins * frames,
            m < frames,
            bins > 0,
            total == self.frame_power(
                Spectrum { mags: mags@, bins: bins as int, frames: frames as int },
                m as int,
                bins as int,
            ),
        ensures
            r == self.whistling_at(
                Spectrum { mags: mags@, bins: bins as int, frames: frames as int },
                m as int,
            ),
    {
        let ghost s = Spectrum { mags: mags@, bins: bins as int, frames: frames as int };
        let len: usize = mags.len();
        let mut keys: Vec<u64> = Vec::new();
        let mut b: usize = 0;
        while b < bins
            invariant
                b <= bins,
                m < frames,
                len == mags@.len(),
                mags@.len() == bins * frames,
                s == (Spectrum { mags: mags@, bins: bins as int, frames: frames as int }),
                self.pure(),
                keys@ == self.frame_keys(s, m as int).take(b as int),
            decreases bins - b,
        {
            proof {
                lemma_cells_differ(b as int, m as int, b as int, m as int, frames as int, bins as int);
                assert(0 <= b * frames) by (nonlinear_arith);
            }
            let p: E = (self.power)(mags[b * frames + m]);
            let key: u64 = (self.bits)(p);
            keys.push(key);
            b = b + 1;
            assert(keys@ =~= self.frame_keys(s, m as int).take(b as int));
        }
        assert(keys@ =~= self.frame_keys(s, m as int));
        let top: usize = first_peak(keys.as_slice());
        proof {
            lemma_cells_differ(top as int, m as int, top as int, m as int, frames as int, bins as int);
            assert(0 <= top * frames) by (nonlinear_arith);
        }
        let p: E = (self.power)(mags[top * frames + m]);
        (self.whistles)(p, total, top)
    }

    /// Listens to the active frames: the power from bin `from` to bin `to`, the power
    /// from bin `low` up, and how many frames whistle.
    fn listen(
        &self,
        mags: &[T],
        bins: usize,
        frames: usize,
        powers: &[E],
        act: &[usize],
        low: usize,
        from: usize,
        to: usize,
    ) -> (r: (E, E, usize))
        requires
            self.pure(),
            bins > 0,
            mags@.len() == bins * frames,
            powers@ == self.powers(
                Spectrum { mags: mags@, bins: bins as int, frames: frames as int },
            ),
            forall|i: int| 0 <= i < act@.len() ==> #[trigger] act@[i] < frames,
            act@.len() * bins <= usize::MAX,
        ensures
            ({
                let s = Spectrum { mags: mags@, bins: bins as int, frames: frames as int };
                let n = act@.len() * bins;
                let harsh = if low < from {
                    from as int
                } else {
                    low as int
                };
                &&& r.0 == self.band(s, act@, harsh, to as int, n)
                &&& r.1 == self.band(s, act@, low as int, bins - 1, n)
                &&& r.2 == self.whistling(s, act@, act@.len() as int)
            }),
    {
        let ghost s = Spectrum { mags: mags@, bins: bins as int, frames: frames as int };
        let harsh_from: usize = if low < from {
            from
        } else {
            low
        };
        let harsh: E = self.band_power(mags, bins, frames, act, harsh_from, to);
        let full: E = self.band_power(mags, bins, frames, act, low, bins - 1);
        let mut count: usize = 0;
        let mut k: usize = 0;
        while k < act.len()
            invariant
                k <= act@.len(),
                count <= k,
                bins > 0,
                mags@.len() == bins * frames,
                s == (Spectrum { mags: mags@, bins: bins as int, frames: frames as int }),
                powers@ == self.powers(s),
                forall|i: int| 0 <= i < act@.len() ==> #[trigger] act@[i] < frames,
                self.pure(),
                count == self.whistling(s, act@, k as int),
            decreases act@.len() - k,
        {
            let m: usize = act[k];
            if self.frame_whistles(mags, bins, frames, m, powers[m]) {
                count = count + 1;
            }
            k = k + 1;
        }
        (harsh, full, count)
    }
}

// ---- the whole of it ------------------------------------------------------------------------

/// How long the frames are that a sound is listened to in, and how far apart.
pub const VET_NFFT: usize = 1024;

pub const VET_HOP: usize = 256;

/// The arithmetic of vetting. Samples are of type `T`, magnitudes of type `M`, powers
/// of type `E`, and the subsonic filter's memory of type `S`.
pub struct Critic<T, M, S, E, P, A, B, W, F, G, L, H, C, D, K, R, O, Q> {
    pub zero: T,
    pub silence: M,
    /// The magnitudes of a frame.
    pub spectrum: F,
    pub ear: Ear<M, E, P, A, B, W>,
    /// An energy and that of one more sample.
    pub energy: G,
    /// The level of so many samples with this energy, as bits.
    pub level: L,
    /// A sample can be heard.
    pub audible: H,
    /// The share of so many samples in so many, as bits.
    pub share: C,
    /// The seconds that so many samples last, as bits.
    pub secs: D,
    pub start: S,
    /// The subsonic filter: its memory after one more sample.
    pub sink: K,
    /// The share of subsonic energy, as bits.
    pub rumble: R,
    /// The power above which a frame is active, as bits, from that of the strongest.
    pub floor: O,
    /// The share of fizz, as bits, from its power and the whole.
    pub fizz: Q,
}

impl<
    T: Copy,
    M: Copy,
    S: Copy,
    E: Copy,
    P: Fn(M) -> E,
    A: Fn(E, E) -> E,
    B: Fn(E) -> u64,
    W: Fn(E, E, usize) -> bool,
    F: Fn(&[T]) -> Vec<M>,
    G: Fn(T, T) -> T,
    L: Fn(T, usize) -> u64,
    H: Fn(T) -> bool,
    C: Fn(usize, usize) -> u64,
    D: Fn(usize) -> u64,
    K: Fn(S, T) -> S,
    R: Fn(S) -> u64,
    O: Fn(E) -> u64,
    Q: Fn(E, E) -> u64,
> Critic<T, M, S, E, P, A, B, W, F, G, L, H, C, D, K, R, O, Q> {
    pub open spec fn pure(&self) -> bool {
        &&& pure_list(self.spectrum, VET_NFFT as int, VET_NFFT / 2 + 1)
        &&& self.ear.pure()
        &&& pure2(self.energy)
        &&& pure2(self.level)
        &&& pure1(self.audible)
        &&& pure2(self.share)
        &&& pure1(self.secs)
        &&& pure2(self.sink)
        &&& pure1(self.rumble)
        &&& pure1(self.floor)
        &&& pure2(self.fizz)
    }

    /// The energy of the first `n` samples.
    pub open spec fn energy_of(&self, x: Seq<T>, n: int) -> T
        decreases n,
    {
        if n <= 0 {
            self.zero
        } else {
            of2(self.energy, self.energy_of(x, n - 1), x[n - 1])
        }
    }

    /// How many of the first `n` samples can be heard.
    pub open spec fn heard(&self, x: Seq<T>, n: int) -> int
        decreases n,
    {
        if n <= 0 {
            0
        } else {
            self.heard(x, n - 1) + if of1(self.audible, x[n - 1]) {
                1int
            } else {
                0
            }
        }
    }

    /// The subsonic filter's memory after the first `n` samples.
    pub open spec fn sunk(&self, x: Seq<T>, n: int) -> S
        decreases n,
    {
        if n <= 0 {
            self.start
        } else {
            of2(self.sink, self.sunk(x, n - 1), x[n - 1])
        }
    }

    pub open spec fn spectrum_of(&self, x: Seq<T>) -> Spectrum<M> {
        Spectrum {
            mags: stft(self.spectrum, x, VET_NFFT as int, VET_HOP as int),
            bins: VET_NFFT / 2 + 1,
            frames: frame_count(x.len() as int, VET_HOP as int),
        }
    }

    /// The active frames: those with more than a small part of the power of the
    /// strongest.
    pub open spec fn active(&self, s: Spectrum<M>) -> Seq<usize> {
        let keys = self.ear.power_keys(s);
        let floor = of1(self.floor, self.ear.powers(s)[peak_at(keys)]);
        loud_frames(keys, floor, keys.len() as int)
    }

    /// What is measured of a sound, where `low` is the lowest bin that counts and fizz
    /// stands from bin `from` to bin `to`.
    pub open spec fn measured(&self, x: Seq<T>, low: int, from: int, to: int) -> Measures {
        let n = x.len() as int;
        let s = self.spectrum_of(x);
        let act = self.active(s);
        let cells = act.len() * s.bins;
        let fizzy = if low < from {
            from
        } else {
            low
        };
        Measures {
            len: n as usize,
            rms: of2(self.level, self.energy_of(x, n), n as usize),
            active_share: of2(self.share, self.heard(x, n) as usize, n as usize),
            active_secs: of1(self.secs, self.heard(x, n) as usize),
            rumble_share: of1(self.rumble, self.sunk(x, n)),
            harsh_share: if act.len() == 0 {
                0
            } else {
                of2(
                    self.fizz,
                    self.ear.band(s, act, fizzy, to, cells),
                    self.ear.band(s, act, low, s.bins - 1, cells),
                )
            },
            active_frames: act.len() as usize,
            whistling: self.ear.whistling(s, act, act.len() as int) as usize,
        }
    }

    /// What is measured of a sound is measured of all of it: where `e`, `c` and `f` are the
    /// energy, how many samples could be heard and the subsonic filter's memory before each
    /// sample, level, shares and seconds are made of the last of them. The frames are 1024
    /// samples long and 256 apart; those are active whose power is above the floor that the
    /// strongest sets, where `top` is that frame; fizz is what lies from `from` to `to`, but
    /// not below `low`, in proportion to all that lies from `low` up.
    pub proof fn law_all_of_a_sound_is_measured(
        &self,
        x: Seq<T>,
        low: int,
        from: int,
        to: int,
        e: Seq<T>,
        c: Seq<int>,
        f: Seq<S>,
        s: Spectrum<M>,
        top: int,
        act: Seq<usize>,
        fizzy: int,
    )
        requires
            e.len() == x.len() + 1,
            c.len() == x.len() + 1,
            f.len() == x.len() + 1,
            e[0] == self.zero,
            c[0] == 0,
            f[0] == self.start,
            forall|k: int|
                0 <= k < x.len() ==> e[k + 1] == of2(self.energy, #[trigger] e[k], x[k]),
            forall|k: int|
                0 <= k < x.len() ==> c[k + 1] == if of1(self.audible, x[k]) {
                    #[trigger] c[k] + 1
                } else {
                    c[k]
                },
            forall|k: int| 0 <= k < x.len() ==> f[k + 1] == of2(self.sink, #[trigger] f[k], x[k]),
            s.mags == stft(self.spectrum, x, 1024, 256),
            s.bins == 513,
            s.frames == x.len() as int / 256 + 1,
            0 <= top < s.frames,
            forall|m: int|
                0 <= m < top ==> #[trigger] self.ear.power_keys(s)[m] < self.ear.power_keys(
                    s,
                )[top],
            forall|m: int|
                top <= m < s.frames ==> #[trigger] self.ear.power_keys(s)[m]
                    <= self.ear.power_keys(s)[top],
            act == loud_frames(
                self.ear.power_keys(s),
                of1(self.floor, self.ear.powers(s)[top]),
                s.frames,
            ),
            fizzy == if from < low {
                low
            } else {
                from
            },
        ensures
            ({
                let n = x.len() as int;
                let m = self.measured(x, low, from, to);
                &&& m.len == n as usize
                &&& m.rms == of2(self.level, e[n], n as usize)
                &&& m.active_share == of2(self.share, c[n] as usize, n as usize)
                &&& m.active_secs == of1(self.secs, c[n] as usize)
                &&& m.rumble_share == of1(self.rumble, f[n])
                &&& m.active_frames == act.len() as usize
                &&& m.whistling == self.ear.whistling(s, act, act.len() as int) as usize
                &&& act.len() == 0 ==> m.harsh_share == 0
                &&& act.len() > 0 ==> m.harsh_share == of2(
                    self.fizz,
                    self.ear.band(s, act, fizzy, to, act.len() as int * 513),
                    self.ear.band(s, act, low, 512, act.len() as int * 513),
                )
            }),
    {
        self.lemma_sample_runs(x, e, c, f, x.len() as int);
        assert(s == self.spectrum_of(x));
        let keys = self.ear.power_keys(s);
        if forall|k: int| 0 <= k < keys.len() ==> #[trigger] keys[k] == 0 {
            if top > 0 {
                assert(keys[0] < keys[top]);
            }
        }
        assert(is_first_peak(keys, top));
        law_the_first_of_the_largest(keys, top, top);
        assert(act == self.active(s));
    }

    proof fn lemma_sample_runs(&self, x: Seq<T>, e: Seq<T>, c: Seq<int>, f: Seq<S>, n: int)
        requires
            0 <= n <= x.len(),
            e.len() == x.len() + 1,
            c.len() == x.len() + 1,
            f.len() == x.len() + 1,
            e[0] == self.zero,
            c[0] == 0,
            f[0] == self.start,
            forall|k: int|
                0 <= k < x.len() ==> e[k + 1] == of2(self.energy, #[trigger] e[k], x[k]),
            forall|k: int|
                0 <= k < x.len() ==> c[k + 1] == if of1(self.audible, x[k]) {
                    #[trigger] c[k] + 1
                } else {
                    c[k]
                },
            forall|k: int| 0 <= k < x.len() ==> f[k + 1] == of2(self.sink, #[trigger] f[k], x[k]),
        ensures
            self.energy_of(x, n) == e[n],
            self.heard(x, n) == c[n],
            self.sunk(x, n) == f[n],
        decreases n,
    {
        if n > 0 {
            self.lemma_sample_runs(x, e, c, f, n - 1);
            assert(e[n - 1 + 1] == of2(self.energy, e[n - 1], x[n - 1]));
            assert(c[n - 1 + 1] == if of1(self.audible, x[n - 1]) {
                c[n - 1] + 1
            } else {
                c[n - 1]
            });
            assert(f[n - 1 + 1] == of2(self.sink, f[n - 1], x[n - 1]));
        }
    }

    /// Listens to a sound and judges it.
    pub fn vet(&self, x: &[T], low: usize, from: usize, to: usize) -> (v: Vet)
        requires
            self.pure(),
            x@.len() > 0 ==> can_cut(x@.len() as int, VET_NFFT as int, VET_HOP as int),
        ensures
            v == if x@.len() == 0 {
                Vet { dud: true, tick: false, harsh: false, screech: false, rumble: false }
            } else {
                verdict(self.measured(x@, low as int, from as int, to as int))
            },
    {
        let n: usize = x.len();
        if n == 0 {
            return Vet { dud: true, tick: false, harsh: false, screech: false, rumble: false };
        }
        let mut energy: T = self.zero;
        let mut heard: usize = 0;
        let mut sunk: S = self.start;
        let mut i: usize = 0;
        while i < n
            invariant
                i <= n,
                n == x@.len(),
                self.pure(),
                heard <= i,
                energy == self.energy_of(x@, i as int),
                heard == self.heard(x@, i as int),
                sunk == self.sunk(x@, i as int),
            decreases n - i,
        {
            energy = (self.energy)(energy, x[i]);
            if (self.audible)(x[i]) {
                heard = heard + 1;
            }
            sunk = (self.sink)(sunk, x[i]);
            i = i + 1;
        }
        let rms: u64 = (self.level)(energy, n);
        let active_share: u64 = (self.share)(heard, n);
        let active_secs: u64 = (self.secs)(heard);
        let rumble_share: u64 = (self.rumble)(sunk);

        let (mags, bins, frames) = stft_mag(x, VET_NFFT, VET_HOP, self.silence, &self.spectrum);
        let ghost s = self.spectrum_of(x@);
        let powers: Vec<E> = self.ear.measure_frames(mags.as_slice(), bins, frames);
        let ghost all = self.ear.power_keys(s);
        let mut keys: Vec<u64> = Vec::new();
        let mut k: usize = 0;
        while k < powers.len()
            invariant
                k <= powers@.len(),
                self.pure(),
                powers@ == self.ear.powers(s),
                all == self.ear.power_keys(s),
                keys@ == all.take(k as int),
            decreases powers@.len() - k,
        {
            let key: u64 = (self.ear.bits)(powers[k]);
            keys.push(key);
            k = k + 1;
            assert(keys@ =~= all.take(k as int));
        }
        assert(keys@ =~= all);
        let top: usize = first_peak(keys.as_slice());
        let floor: u64 = (self.floor)(powers[top]);
        let act: Vec<usize> = active_frames(keys.as_slice(), floor);
        proof {
            lemma_loud_frames(all, floor, all.len() as int);
            assert(act@.len() * bins <= bins * frames) by (nonlinear_arith)
                requires
                    act@.len() <= frames,
                    bins >= 0,
            ;
        }
        let (harsh, full, whistling) = self.ear.listen(
            mags.as_slice(),
            bins,
            frames,
            powers.as_slice(),
            act.as_slice(),
            low,
            from,
            to,
        );
        let harsh_share: u64 = if act.len() == 0 {
            0
        } else {
            (self.fizz)(harsh, full)
        };
        let m = Measures {
            len: n,
            rms,
            active_share,
            active_secs,
            rumble_share,
            harsh_share,
            active_frames: act.len(),
            whistling,
        };
        assert(m == self.measured(x@, low as int, from as int, to as int));
        grade(&m)
    }
}

proof fn lemma_loud_frames(powers: Seq<u64>, floor: u64, n: int)
    requires
        0 <= n <= powers.len() <= usize::MAX,
    ensures
        loud_frames(powers, floor, n).len() <= n,
        forall|i: int|
            0 <= i < loud_frames(powers, floor, n).len() ==> #[trigger] loud_frames(
                powers,
                floor,
                n,
            )[i] < n,
    decreases n,
{
    if n > 0 {
        lemma_loud_frames(powers, floor, n - 1);
    }
}

} // verus!
