//! The synth engine: two oscillators of up to `MAX_HARM` harmonics, a sub, noise, an
//! envelope and a drive, in the order in which they sound.

use crate::func::{of1, of2, pure1, pure2};
use vstd::prelude::*;

verus! {

/// Harmonics of an oscillator.
pub const MAX_HARM: usize = 72;

/// Harmonics of both oscillators.
pub const N_TONES: usize = 144;

/// The arithmetic of the engine. Samples are of type `T`, and what the tones of a
/// harmonic are made from of type `H`.
pub struct Engine<T, O, N, P, U, A, L, D, V> {
    pub zero: T,
    /// The harmonic `k` (from 1) of the first or the second oscillator (0 or 1), if it
    /// is loud enough to be heard.
    pub partial: O,
    /// A harmonic's sample.
    pub tone: N,
    pub plus: P,
    /// The sub's sample.
    pub sub: U,
    /// A sample under the envelope.
    pub amp: A,
    /// The larger of a peak and the size of a sample.
    pub louder: L,
    /// A sample, driven, in a sound with that peak.
    pub drive: D,
    /// A sample, brought to the engine's level, in a sound with that peak.
    pub level: V,
}

impl<
    T: Copy,
    H: Copy,
    O: Fn(usize, usize) -> Option<H>,
    N: Fn(H, usize) -> T,
    P: Fn(T, T) -> T,
    U: Fn(usize) -> T,
    A: Fn(T, usize) -> T,
    L: Fn(T, T) -> T,
    D: Fn(T, T) -> T,
    V: Fn(T, T) -> T,
> Engine<T, O, N, P, U, A, L, D, V> {
    pub open spec fn pure(&self) -> bool {
        &&& pure2(self.partial)
        &&& pure2(self.tone)
        &&& pure2(self.plus)
        &&& pure1(self.sub)
        &&& pure2(self.amp)
        &&& pure2(self.louder)
        &&& pure2(self.drive)
        &&& pure2(self.level)
    }

    /// The `i`th sample of the first `t` harmonics: all of the first oscillator, then
    /// those of the second.
    pub open spec fn tones(&self, i: int, t: int) -> T
        decreases t,
    {
        if t <= 0 {
            self.zero
        } else {
            let sum = self.tones(i, t - 1);
            match of2(
                self.partial,
                ((t - 1) / MAX_HARM as int) as usize,
                ((t - 1) % MAX_HARM as int + 1) as usize,
            ) {
                Some(h) => of2(self.plus, sum, of2(self.tone, h, i as usize)),
                None => sum,
            }
        }
    }

    /// The `i`th sample of everything that sounds, under the envelope.
    pub open spec fn voiced(&self, i: int, noise: Seq<T>) -> T {
        let osc = of2(self.plus, self.tones(i, N_TONES as int), of1(self.sub, i as usize));
        let all = if noise.len() == 0 {
            osc
        } else {
            of2(self.plus, osc, noise[i])
        };
        of2(self.amp, all, i as usize)
    }

    /// The peak of the first `n` samples.
    pub open spec fn peak(&self, x: Seq<T>, n: int) -> T
        decreases n,
    {
        if n <= 0 {
            self.zero
        } else {
            of2(self.louder, self.peak(x, n - 1), x[n - 1])
        }
    }

    /// Every sample, driven.
    pub open spec fn driven(&self, x: Seq<T>) -> Seq<T> {
        let p = self.peak(x, x.len() as int);
        x.map_values(|v: T| of2(self.drive, v, p))
    }

    /// Every sample, at the engine's level.
    pub open spec fn levelled(&self, x: Seq<T>) -> Seq<T> {
        let p = self.peak(x, x.len() as int);
        x.map_values(|v: T| of2(self.level, v, p))
    }

    /// A note of `n` samples.
    pub open spec fn rendered(&self, n: int, noise: Seq<T>) -> Seq<T> {
        self.levelled(self.driven(Seq::new(n as nat, |i: int| self.voiced(i, noise))))
    }

    /// Both oscillators sound, and then the sub and the noise: where `first` is what sounds
    /// before each harmonic of the first oscillator, from the 1st to the 72nd, and `second`
    /// what sounds before each of the second's, of which the first goes on where `first`
    /// ends, every harmonic that is heard adds its tone, and the sample that goes under the
    /// envelope is the last of all with the sub's and the noise's.
    pub proof fn law_both_oscillators_sound(
        &self,
        i: int,
        noise: Seq<T>,
        first: Seq<T>,
        second: Seq<T>,
    )
        requires
            first.len() == 73,
            second.len() == 73,
            first[0] == self.zero,
            second[0] == first[72],
            forall|k: int|
                0 <= k < 72 ==> first[k + 1] == match of2(self.partial, 0, (k + 1) as usize) {
                    Some(h) => of2(self.plus, #[trigger] first[k], of2(self.tone, h, i as usize)),
                    None => first[k],
                },
            forall|k: int|
                0 <= k < 72 ==> second[k + 1] == match of2(self.partial, 1, (k + 1) as usize) {
                    Some(h) => of2(self.plus, #[trigger] second[k], of2(self.tone, h, i as usize)),
                    None => second[k],
                },
        ensures
            MAX_HARM == 72,
            noise.len() == 0 ==> self.voiced(i, noise) == of2(
                self.amp,
                of2(self.plus, second[72], of1(self.sub, i as usize)),
                i as usize,
            ),
            noise.len() > 0 ==> self.voiced(i, noise) == of2(
                self.amp,
                of2(self.plus, of2(self.plus, second[72], of1(self.sub, i as usize)), noise[i]),
                i as usize,
            ),
    {
        self.lemma_first_oscillator(i, first, 72);
        self.lemma_second_oscillator(i, first, second, 72);
    }

    proof fn lemma_first_oscillator(&self, i: int, first: Seq<T>, t: int)
        requires
            0 <= t <= 72,
            first.len() == 73,
            first[0] == self.zero,
            forall|k: int|
                0 <= k < 72 ==> first[k + 1] == match of2(self.partial, 0, (k + 1) as usize) {
                    Some(h) => of2(self.plus, #[trigger] first[k], of2(self.tone, h, i as usize)),
                    None => first[k],
                },
        ensures
            self.tones(i, t) == first[t],
        decreases t,
    {
        if t > 0 {
            self.lemma_first_oscillator(i, first, t - 1);
            assert(first[t - 1 + 1] == match of2(self.partial, 0, t as usize) {
                Some(h) => of2(self.plus, first[t - 1], of2(self.tone, h, i as usize)),
                None => first[t - 1],
            });
        }
    }

    proof fn lemma_second_oscillator(&self, i: int, first: Seq<T>, second: Seq<T>, t: int)
        requires
            0 <= t <= 72,
            second.len() == 73,
            second[0] == first[72],
            self.tones(i, 72) == first[72],
            forall|k: int|
                0 <= k < 72 ==> second[k + 1] == match of2(self.partial, 1, (k + 1) as usize) {
                    Some(h) => of2(self.plus, #[trigger] second[k], of2(self.tone, h, i as usize)),
                    None => second[k],
                },
        ensures
            self.tones(i, 72 + t) == second[t],
        decreases t,
    {
        if t > 0 {
            self.lemma_second_oscillator(i, first, second, t - 1);
            assert(second[t - 1 + 1] == match of2(self.partial, 1, t as usize) {
                Some(h) => of2(self.plus, second[t - 1], of2(self.tone, h, i as usize)),
                None => second[t - 1],
            });
            assert((72 + t - 1) / 72 == 1 && (72 + t - 1) % 72 + 1 == t);
        }
    }

    /// A harmonic that is heard alone is what sounds: where of all harmonics of both
    /// oscillators only the `k`th of oscillator `o` is heard, the sample that goes under the
    /// envelope is its tone, with the sub's and the noise's, whichever it is; and where none
    /// is heard it is the sub's and the noise's alone.
    pub proof fn law_every_harmonic_can_be_heard(
        &self,
        i: int,
        noise: Seq<T>,
        o: int,
        k: int,
    )
        requires
            o == 0 || o == 1,
            1 <= k <= 72,
            forall|p: int, q: int|
                0 <= p <= 1 && 1 <= q <= 72 && !(p == o && q == k) ==> #[trigger] of2(
                    self.partial,
                    p as usize,
                    q as usize,
                ) is None,
        ensures
            ({
                let heard = match of2(self.partial, o as usize, k as usize) {
                    Some(h) => of2(self.plus, self.zero, of2(self.tone, h, i as usize)),
                    None => self.zero,
                };
                let low = of2(self.plus, heard, of1(self.sub, i as usize));
                &&& noise.len() == 0 ==> self.voiced(i, noise) == of2(self.amp, low, i as usize)
                &&& noise.len() > 0 ==> self.voiced(i, noise) == of2(
                    self.amp,
                    of2(self.plus, low, noise[i]),
                    i as usize,
                )
            }),
    {
        let heard = match of2(self.partial, o as usize, k as usize) {
            Some(h) => of2(self.plus, self.zero, of2(self.tone, h, i as usize)),
            None => self.zero,
        };
        let first = Seq::new(
            73,
            |j: int|
                if o == 0 && j >= k {
                    heard
                } else {
                    self.zero
                },
        );
        let second = Seq::new(
            73,
            |j: int|
                if o == 0 || j >= k {
                    heard
                } else {
                    self.zero
                },
        );
        assert forall|j: int| 0 <= j < 72 implies first[j + 1] == match of2(
            self.partial,
            0,
            (j + 1) as usize,
        ) {
            Some(h) => of2(self.plus, #[trigger] first[j], of2(self.tone, h, i as usize)),
            None => first[j],
        } by {
            if !(o == 0 && j + 1 == k) {
                assert(of2(self.partial, 0int as usize, (j + 1) as usize) is None);
            }
        }
        assert forall|j: int| 0 <= j < 72 implies second[j + 1] == match of2(
            self.partial,
            1,
            (j + 1) as usize,
        ) {
            Some(h) => of2(self.plus, #[trigger] second[j], of2(self.tone, h, i as usize)),
            None => second[j],
        } by {
            if !(o == 1 && j + 1 == k) {
                assert(of2(self.partial, 1int as usize, (j + 1) as usize) is None);
            }
        }
        self.law_both_oscillators_sound(i, noise, first, second);
    }

    /// What sounds is driven and then brought to its level, each by the peak of all of it:
    /// where `top` is the peak before each sample that goes into the drive, and `high` the
    /// peak before each that comes out, every sample of a note is made of the one that
    /// sounds there and of the last of both.
    pub proof fn law_notes_are_driven_and_level(
        &self,
        n: int,
        noise: Seq<T>,
        x: Seq<T>,
        top: Seq<T>,
        y: Seq<T>,
        high: Seq<T>,
        i: int,
    )
        requires
            0 <= i < n,
            x.len() == n,
            y.len() == n,
            top.len() == n + 1,
            high.len() == n + 1,
            forall|k: int| 0 <= k < n ==> #[trigger] x[k] == self.voiced(k, noise),
            top[0] == self.zero,
            forall|k: int| 0 <= k < n ==> top[k + 1] == of2(self.louder, #[trigger] top[k], x[k]),
            forall|k: int| 0 <= k < n ==> #[trigger] y[k] == of2(self.drive, x[k], top[n]),
            high[0] == self.zero,
            forall|k: int| 0 <= k < n ==> high[k + 1] == of2(self.louder, #[trigger] high[k], y[k]),
        ensures
            self.rendered(n, noise).len() == n,
            self.rendered(n, noise)[i] == of2(self.level, y[i], high[n]),
    {
        assert(x =~= Seq::new(n as nat, |i: int| self.voiced(i, noise)));
        self.lemma_peak_run(x, top, n);
        assert(y =~= self.driven(x));
        self.lemma_peak_run(y, high, n);
    }

    proof fn lemma_peak_run(&self, x: Seq<T>, top: Seq<T>, n: int)
        requires
            0 <= n <= x.len(),
            top.len() == x.len() + 1,
            top[0] == self.zero,
            forall|k: int|
                0 <= k < x.len() ==> top[k + 1] == of2(self.louder, #[trigger] top[k], x[k]),
        ensures
            self.peak(x, n) == top[n],
        decreases n,
    {
        if n > 0 {
            self.lemma_peak_run(x, top, n - 1);
            assert(top[n - 1 + 1] == of2(self.louder, top[n - 1], x[n - 1]));
        }
    }

    fn peak_of(&self, x: &Vec<T>) -> (p: T)
        requires
            self.pure(),
        ensures
            p == self.peak(x@, x@.len() as int),
    {
        let mut p: T = self.zero;
        let mut i: usize = 0;
        while i < x.len()
            invariant
                i <= x@.len(),
                self.pure(),
                p == self.peak(x@, i as int),
            decreases x@.len() - i,
        {
            p = (self.louder)(p, x[i]);
            i = i + 1;
        }
        p
    }

    /// Renders a note of `n` samples. `noise` is empty where there is none.
    pub fn render(&self, n: usize, noise: &[T]) -> (r: Vec<T>)
        requires
            self.pure(),
            noise@.len() == 0 || noise@.len() >= n,
        ensures
            r@ == self.rendered(n as int, noise@),
            r@.len() == n,
    {
        let mut x: Vec<T> = Vec::new();
        let mut i: usize = 0;
        while i < n
            invariant
                i <= n,
                x@ == Seq::new(i as nat, |j: int| self.tones(j, 0)),
            decreases n - i,
        {
            x.push(self.zero);
            i = i + 1;
            assert(x@ =~= Seq::new(i as nat, |j: int| self.tones(j, 0)));
        }
        let mut t: usize = 0;
        while t < N_TONES
            invariant
                t <= N_TONES,
                self.pure(),
                x@ == Seq::new(n as nat, |j: int| self.tones(j, t as int)),
            decreases N_TONES - t,
        {
            let p: Option<H> = (self.partial)(t / MAX_HARM, t % MAX_HARM + 1);
            let ghost x0 = x@;
            let ghost next = Seq::new(n as nat, |j: int| self.tones(j, t + 1));
            match p {
                Some(h) => {
                    let mut i: usize = 0;
                    while i < n
                        invariant
                            i <= n,
                            n == x@.len(),
                            t < N_TONES,
                            self.pure(),
                            p == Some(h),
                            p == of2(
                                self.partial,
                                (t as int / MAX_HARM as int) as usize,
                                (t as int % MAX_HARM as int + 1) as usize,
                            ),
                            x0 == Seq::new(n as nat, |j: int| self.tones(j, t as int)),
                            next == Seq::new(n as nat, |j: int| self.tones(j, t + 1)),
                            x@ == next.take(i as int) + x0.skip(i as int),
                        decreases n - i,
                    {
                        let v: T = (self.tone)(h, i);
                        let sum: T = (self.plus)(x[i], v);
                        x.set(i, sum);
                        i = i + 1;
                        assert(x@ =~= next.take(i as int) + x0.skip(i as int));
                    }
                    assert(x@ =~= next);
                },
                None => {
                    assert(x@ =~= next);
                },
            }
            t = t + 1;
        }
        let ghost x0 = x@;
        let ghost all = Seq::new(n as nat, |i: int| self.voiced(i, noise@));
        let mut i: usize = 0;
        while i < n
            invariant
                i <= n,
                n == x@.len(),
                self.pure(),
                noise@.len() == 0 || noise@.len() >= n,
                x0 == Seq::new(n as nat, |j: int| self.tones(j, N_TONES as int)),
                all == Seq::new(n as nat, |i: int| self.voiced(i, noise@)),
                x@ == all.take(i as int) + x0.skip(i as int),
            decreases n - i,
        {
            let s: T = (self.sub)(i);
            let mut v: T = (self.plus)(x[i], s);
            if noise.len() > 0 {
                v = (self.plus)(v, noise[i]);
            }
            let e: T = (self.amp)(v, i);
            x.set(i, e);
            i = i + 1;
            assert(x@ =~= all.take(i as int) + x0.skip(i as int));
        }
        assert(x@ =~= all);
        let p: T = self.peak_of(&x);
        let mut y: Vec<T> = Vec::new();
        let mut i: usize = 0;
        while i < n
            invariant
                i <= n,
                n == x@.len(),
                self.pure(),
                p == self.peak(x@, x@.len() as int),
                y@ == self.driven(x@).take(i as int),
            decreases n - i,
        {
            let v: T = (self.drive)(x[i], p);
            y.push(v);
            i = i + 1;
            assert(y@ =~= self.driven(x@).take(i as int));
        }
        assert(y@ =~= self.driven(x@));
        let q: T = self.peak_of(&y);
        let mut r: Vec<T> = Vec::new();
        let mut i: usize = 0;
        while i < n
            invariant
                i <= n,
                n == y@.len(),
                self.pure(),
                q == self.peak(y@, y@.len() as int),
                r@ == self.levelled(y@).take(i as int),
            decreases n - i,
        {
            let v: T = (self.level)(y[i], q);
            r.push(v);
            i = i + 1;
            assert(r@ =~= self.levelled(y@).take(i as int));
        }
        assert(r@ =~= self.levelled(y@));
        r
    }
}

/// An envelope of `n` samples: while the key is held, for the first `off` but not to
/// the very end, `on` tells the level; from there on `release` does, from the level at
/// which the key was let go and how long ago that was.
pub fn adsr<T: Copy, O: Fn(usize) -> T, R: Fn(T, usize) -> T>(n: usize, off: usize, on: O, release: R) -> (r:
    Vec<T>)
    requires
        n > 0,
        pure1(on),
        pure2(release),
    ensures
        r@.len() == n,
        ({
            let o = if off < n - 1 {
                off as int
            } else {
                n - 1
            };
            forall|i: int|
                0 <= i < n ==> #[trigger] r@[i] == if i < o {
                    of1(on, i as usize)
                } else {
                    of2(release, of1(on, o as usize), (i - o) as usize)
                }
        }),
        ({
            let o = if off < n - 1 {
                off as int
            } else {
                n - 1
            };
            &&& call_ensures(on, (o as usize,), of1(on, o as usize))
            &&& forall|i: int|
                0 <= i < n ==> if i < o {
                    call_ensures(on, (i as usize,), #[trigger] r@[i])
                } else {
                    call_ensures(release, (of1(on, o as usize), (i - o) as usize), r@[i])
                }
        }),
{
    let o: usize = if off < n - 1 {
        off
    } else {
        n - 1
    };
    let level: T = on(o);
    let mut r: Vec<T> = Vec::new();
    let mut i: usize = 0;
    while i < n
        invariant
            i <= n,
            o < n,
            pure1(on),
            pure2(release),
            level == of1(on, o),
            r@.len() == i,
            forall|k: int|
                0 <= k < i ==> #[trigger] r@[k] == if k < o {
                    of1(on, k as usize)
                } else {
                    of2(release, of1(on, o), (k - o) as usize)
                },
            call_ensures(on, (o,), level),
            forall|k: int|
                0 <= k < i ==> if k < o {
                    call_ensures(on, (k as usize,), #[trigger] r@[k])
                } else {
                    call_ensures(release, (level, (k - o) as usize), r@[k])
                },
        decreases n - i,
    {
        if i < o {
            let v: T = on(i);
            r.push(v);
        } else {
            let v: T = release(level, i - o);
            r.push(v);
        }
        i = i + 1;
    }
    r
}

} // verus!
