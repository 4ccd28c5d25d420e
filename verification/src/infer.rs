//! Running the network: from log-mel features to a genome.
//!
//! Four blocks of two 3x3 convolutions and a 2x2 pooling, an average over what is
//! left of the plane, and two dense layers. Planes are laid out channel by
//! channel, row by row. The arithmetic comes in as functions.

use crate::func::{of1, of2, of3, pure1, pure2, pure3};
use crate::genome::{Genome, N_PARAMS};
use crate::net::{Entry, Net, Tensor};
use vstd::prelude::*;

verus! {

/// The arithmetic on values. `bias` and `mac` read weights, which are the bits of
/// singles: the value a weight stands for, and a sum plus a value times a weight.
pub struct Ops<T, B, M, A, X, P, D, S> {
    pub zero: T,
    pub bias: B,
    pub mac: M,
    /// What every hidden value goes through.
    pub act: A,
    /// The larger of two values.
    pub max: X,
    pub plus: P,
    /// A sum divided by a count.
    pub mean: D,
    /// What every output goes through.
    pub squash: S,
}

/// The size of a plane.
pub struct Dims {
    pub ch: int,
    pub h: int,
    pub w: int,
}

/// The channel, row and column of the `i`th cell of planes of `h` rows of `w`.
pub open spec fn channel_of(i: int, h: int, w: int) -> int {
    i / (h * w)
}

pub open spec fn row_of(i: int, h: int, w: int) -> int {
    (i / w) % h
}

pub open spec fn column_of(i: int, w: int) -> int {
    i % w
}

/// The `i`th cell stands where its channel, row and column say, and no other does.
pub proof fn law_cells(c: int, y: int, x: int, h: int, w: int)
    requires
        0 <= c,
        0 <= y < h,
        0 <= x < w,
    ensures
        channel_of((c * h + y) * w + x, h, w) == c,
        row_of((c * h + y) * w + x, h, w) == y,
        column_of((c * h + y) * w + x, w) == x,
{
    let i = (c * h + y) * w + x;
    vstd::arithmetic::div_mod::lemma_fundamental_div_mod_converse(i, w, c * h + y, x);
    vstd::arithmetic::div_mod::lemma_fundamental_div_mod_converse(c * h + y, h, c, y);
    assert(0 <= y * w + x < h * w) by (nonlinear_arith)
        requires
            0 <= y,
            y + 1 <= h,
            0 <= x < w,
    ;
    assert(i == c * (h * w) + (y * w + x)) by (nonlinear_arith)
        requires
            i == (c * h + y) * w + x,
    ;
    vstd::arithmetic::div_mod::lemma_fundamental_div_mod_converse(i, h * w, c, y * w + x);
}

/// The parts of a cell's place are in range.
proof fn lemma_place(i: int, n: int, h: int, w: int)
    requires
        0 <= i < n * h * w,
        0 <= n,
        0 <= h,
        0 <= w,
    ensures
        0 < h,
        0 < w,
        0 < h * w,
        0 <= channel_of(i, h, w) < n,
        0 <= row_of(i, h, w) < h,
        0 <= column_of(i, w) < w,
        i == (channel_of(i, h, w) * h + row_of(i, h, w)) * w + column_of(i, w),
{
    assert(0 < h && 0 < w && 0 < h * w) by (nonlinear_arith)
        requires
            0 < n * h * w,
            0 <= n,
            0 <= h,
            0 <= w,
    ;
    let q = i / w;
    assert(n * h * w == n * (h * w)) by (nonlinear_arith);
    vstd::arithmetic::div_mod::lemma_fundamental_div_mod(i, w);
    vstd::arithmetic::div_mod::lemma_fundamental_div_mod(q, h);
    vstd::arithmetic::div_mod::lemma_div_denominator(i, w, h);
    assert(w * h == h * w) by (nonlinear_arith);
    assert(q / h == channel_of(i, h, w));
    let c = channel_of(i, h, w);
    vstd::arithmetic::div_mod::lemma_fundamental_div_mod(i, h * w);
    assert(0 <= c < n) by (nonlinear_arith)
        requires
            i == (h * w) * c + i % (h * w),
            0 <= i % (h * w) < h * w,
            0 <= i < n * (h * w),
            0 < h * w,
    ;
    assert(i == (c * h + row_of(i, h, w)) * w + column_of(i, w)) by (nonlinear_arith)
        requires
            i == w * q + column_of(i, w),
            q == h * c + row_of(i, h, w),
    ;
}

/// A cell of a plane is inside it.
proof fn lemma_inside(c: int, y: int, x: int, n: int, h: int, w: int)
    requires
        0 <= c < n,
        0 <= y < h,
        0 <= x < w,
    ensures
        0 <= (c * h + y) * w + x < n * h * w,
        0 <= c * h + y,
        0 <= (c * h + y) * w,
{
    assert(0 <= c * h + y < n * h) by (nonlinear_arith)
        requires
            0 <= c,
            c + 1 <= n,
            0 <= y < h,
    ;
    assert(0 <= (c * h + y) * w && (c * h + y) * w + x < n * h * w) by (nonlinear_arith)
        requires
            0 <= c * h + y,
            c * h + y + 1 <= n * h,
            0 <= x < w,
    ;
}

/// The `t`th tap of a 3x3 kernel that is centred on a cell reads this row (or
/// column) of the plane.
pub open spec fn tap_row(oy: int, t: int) -> int {
    oy + (t % 9) / 3 - 1
}

pub open spec fn tap_column(ox: int, t: int) -> int {
    ox + t % 3 - 1
}

impl<
    T: Copy,
    B: Fn(u32) -> T,
    M: Fn(T, T, u32) -> T,
    A: Fn(T) -> T,
    X: Fn(T, T) -> T,
    P: Fn(T, T) -> T,
    D: Fn(T, usize) -> T,
    S: Fn(T) -> T,
> Ops<T, B, M, A, X, P, D, S> {
    pub open spec fn pure(&self) -> bool {
        &&& pure1(self.bias)
        &&& pure3(self.mac)
        &&& pure1(self.act)
        &&& pure2(self.max)
        &&& pure2(self.plus)
        &&& pure2(self.mean)
        &&& pure1(self.squash)
    }

    // ---- convolution ------------------------------------------------------------------------

    /// The sum at a cell after `t` taps: it starts from the bias, and takes in the
    /// taps channel by channel, row by row. Taps beyond the edge are left out.
    pub open spec fn conv_sum(
        &self,
        x: Seq<T>,
        d: Dims,
        wt: Seq<u32>,
        b: Seq<u32>,
        oc: int,
        oy: int,
        ox: int,
        t: int,
    ) -> T
        decreases t,
    {
        if t <= 0 {
            of1(self.bias, b[oc])
        } else {
            let sum = self.conv_sum(x, d, wt, b, oc, oy, ox, t - 1);
            let iy = tap_row(oy, t - 1);
            let ix = tap_column(ox, t - 1);
            if 0 <= iy < d.h && 0 <= ix < d.w {
                of3(
                    self.mac,
                    sum,
                    x[(((t - 1) / 9) * d.h + iy) * d.w + ix],
                    wt[oc * d.ch * 9 + t - 1],
                )
            } else {
                sum
            }
        }
    }

    /// A 3x3 convolution to `co` channels: same height and width.
    pub open spec fn conv(&self, x: Seq<T>, d: Dims, wt: Seq<u32>, b: Seq<u32>, co: int) -> Seq<T> {
        Seq::new(
            (co * d.h * d.w) as nat,
            |i: int|
                self.conv_sum(
                    x,
                    d,
                    wt,
                    b,
                    channel_of(i, d.h, d.w),
                    row_of(i, d.h, d.w),
                    column_of(i, d.w),
                    9 * d.ch,
                ),
        )
    }

    /// A cell of a convolution hears its neighbours in every channel: where `e(c, y, x)` is
    /// the sum before the tap of row `y` and column `x` of channel `c`, it starts from the
    /// bias, goes through the taps channel by channel, row by row and column by column, and
    /// takes in each that lies inside the plane by the weight of its own.
    pub proof fn law_cells_hear_their_neighbours(
        &self,
        x: Seq<T>,
        d: Dims,
        wt: Seq<u32>,
        b: Seq<u32>,
        co: int,
        oc: int,
        oy: int,
        ox: int,
        e: spec_fn(int, int, int) -> T,
    )
        requires
            0 <= d.ch,
            0 <= oc < co,
            0 <= oy < d.h,
            0 <= ox < d.w,
            e(0, 0, 0) == of1(self.bias, b[oc]),
            forall|c: int, ky: int, kx: int|
                0 <= c < d.ch && 0 <= ky < 3 && 0 <= kx < 3 ==> e(c, ky, kx + 1) == {
                    let iy = oy + ky - 1;
                    let ix = ox + kx - 1;
                    if 0 <= iy && iy < d.h && 0 <= ix && ix < d.w {
                        of3(
                            self.mac,
                            #[trigger] e(c, ky, kx),
                            x[(c * d.h + iy) * d.w + ix],
                            wt[(oc * d.ch + c) * 9 + ky * 3 + kx],
                        )
                    } else {
                        e(c, ky, kx)
                    }
                },
            forall|c: int, ky: int|
                0 <= c < d.ch && 0 <= ky < 3 ==> #[trigger] e(c, ky + 1, 0) == e(c, ky, 3),
            forall|c: int| 0 <= c < d.ch ==> #[trigger] e(c + 1, 0, 0) == e(c, 3, 0),
        ensures
            self.conv(x, d, wt, b, co).len() == co * d.h * d.w,
            self.conv(x, d, wt, b, co)[(oc * d.h + oy) * d.w + ox] == e(d.ch, 0, 0),
    {
        law_cells(oc, oy, ox, d.h, d.w);
        lemma_inside(oc, oy, ox, co, d.h, d.w);
        self.lemma_taps(x, d, wt, b, oc, oy, ox, e, d.ch, 0, 0);
    }

    proof fn lemma_taps(
        &self,
        x: Seq<T>,
        d: Dims,
        wt: Seq<u32>,
        b: Seq<u32>,
        oc: int,
        oy: int,
        ox: int,
        e: spec_fn(int, int, int) -> T,
        c: int,
        ky: int,
        kx: int,
    )
        requires
            0 <= c <= d.ch,
            0 <= ky <= 3,
            0 <= kx <= 3,
            c == d.ch ==> ky == 0,
            ky == 3 || c == d.ch ==> kx == 0,
            e(0, 0, 0) == of1(self.bias, b[oc]),
            forall|c: int, ky: int, kx: int|
                0 <= c < d.ch && 0 <= ky < 3 && 0 <= kx < 3 ==> e(c, ky, kx + 1) == {
                    let iy = oy + ky - 1;
                    let ix = ox + kx - 1;
                    if 0 <= iy && iy < d.h && 0 <= ix && ix < d.w {
                        of3(
                            self.mac,
                            #[trigger] e(c, ky, kx),
                            x[(c * d.h + iy) * d.w + ix],
                            wt[(oc * d.ch + c) * 9 + ky * 3 + kx],
                        )
                    } else {
                        e(c, ky, kx)
                    }
                },
            forall|c: int, ky: int|
                0 <= c < d.ch && 0 <= ky < 3 ==> #[trigger] e(c, ky + 1, 0) == e(c, ky, 3),
            forall|c: int| 0 <= c < d.ch ==> #[trigger] e(c + 1, 0, 0) == e(c, 3, 0),
        ensures
            self.conv_sum(x, d, wt, b, oc, oy, ox, 9 * c + 3 * ky + kx) == e(c, ky, kx),
        decreases c, ky, kx,
    {
        let t = 9 * c + 3 * ky + kx;
        if kx > 0 {
            self.lemma_taps(x, d, wt, b, oc, oy, ox, e, c, ky, kx - 1);
            assert((t - 1) / 9 == c && (t - 1) % 9 == 3 * ky + kx - 1);
            assert((3 * ky + kx - 1) / 3 == ky && (t - 1) % 3 == kx - 1);
            assert((oc * d.ch + c) * 9 == oc * d.ch * 9 + 9 * c) by (nonlinear_arith);
            let iy = oy + ky - 1;
            let ix = ox + (kx - 1) - 1;
            assert(e(c, ky, kx - 1 + 1) == if 0 <= iy && iy < d.h && 0 <= ix && ix < d.w {
                of3(
                    self.mac,
                    e(c, ky, kx - 1),
                    x[(c * d.h + iy) * d.w + ix],
                    wt[(oc * d.ch + c) * 9 + ky * 3 + (kx - 1)],
                )
            } else {
                e(c, ky, kx - 1)
            });
        } else if ky > 0 {
            self.lemma_taps(x, d, wt, b, oc, oy, ox, e, c, ky - 1, 3);
            assert(e(c, ky - 1 + 1, 0) == e(c, ky - 1, 3));
        } else if c > 0 {
            self.lemma_taps(x, d, wt, b, oc, oy, ox, e, c - 1, 3, 0);
            assert(e(c - 1 + 1, 0, 0) == e(c - 1, 3, 0));
        }
    }

    fn conv_cell(
        &self,
        x: &Vec<T>,
        ch: usize,
        h: usize,
        w: usize,
        wt: &Tensor,
        b: &Tensor,
        oc: usize,
        oy: usize,
        ox: usize,
    ) -> (r: T)
        requires
            self.pure(),
            x@.len() >= ch * h * w,
            oc < b.data@.len(),
            wt.data@.len() >= (oc + 1) * ch * 9,
            oy < h,
            ox < w,
        ensures
            r == self.conv_sum(
                x@,
                Dims { ch: ch as int, h: h as int, w: w as int },
                wt.data@,
                b.data@,
                oc as int,
                oy as int,
                ox as int,
                9 * ch as int,
            ),
    {
        let ghost d = Dims { ch: ch as int, h: h as int, w: w as int };
        let n: usize = wt.data.len();
        proof {
            assert((oc + 1) * ch * 9 == oc * ch * 9 + ch * 9) by (nonlinear_arith);
            assert(0 <= oc * ch * 9) by (nonlinear_arith);
            assert(0 <= oc * ch <= oc * ch * 9) by (nonlinear_arith);
        }
        let base: usize = oc * ch * 9;
        let taps: usize = ch * 9;
        let mut sum: T = (self.bias)(b.data[oc]);
        let mut t: usize = 0;
        while t < taps
            invariant
                t <= taps,
                taps == ch * 9,
                base == oc * ch * 9,
                base + taps <= n,
                n == wt.data@.len(),
                d == (Dims { ch: ch as int, h: h as int, w: w as int }),
                self.pure(),
                x@.len() >= ch * h * w,
                oy < h,
                ox < w,
                sum == self.conv_sum(
                    x@,
                    d,
                    wt.data@,
                    b.data@,
                    oc as int,
                    oy as int,
                    ox as int,
                    t as int,
                ),
            decreases taps - t,
        {
            let ic: usize = t / 9;
            let ky: usize = (t % 9) / 3;
            let kx: usize = t % 3;
            let in_y: bool = if ky == 0 {
                oy > 0
            } else {
                ky - 1 < h - oy
            };
            let in_x: bool = if kx == 0 {
                ox > 0
            } else {
                kx - 1 < w - ox
            };
            if in_y && in_x {
                let iy: usize = if ky == 0 {
                    oy - 1
                } else {
                    oy + (ky - 1)
                };
                let ix: usize = if kx == 0 {
                    ox - 1
                } else {
                    ox + (kx - 1)
                };
                proof {
                    lemma_inside(ic as int, iy as int, ix as int, ch as int, h as int, w as int);
                    assert(0 <= ic * h <= ic * h + iy) by (nonlinear_arith);
                    assert(ic * h + iy <= (ic * h + iy) * w) by (nonlinear_arith)
                        requires
                            w >= 1,
                            0 <= ic * h + iy,
                    ;
                }
                assert(x@.len() == x.len());
                sum = (self.mac)(sum, x[(ic * h + iy) * w + ix], wt.data[base + t]);
            }
            t = t + 1;
        }
        sum
    }

    /// A 3x3 convolution: stride 1, padded so that the size stays.
    fn conv3x3(
        &self,
        x: &Vec<T>,
        ch: usize,
        h: usize,
        w: usize,
        wt: &Tensor,
        b: &Tensor,
        co: usize,
    ) -> (r: Vec<T>)
        requires
            self.pure(),
            x@.len() >= ch * h * w,
            b.data@.len() >= co,
            wt.data@.len() >= co * ch * 9,
            co * h * w <= usize::MAX,
        ensures
            r@ == self.conv(
                x@,
                Dims { ch: ch as int, h: h as int, w: w as int },
                wt.data@,
                b.data@,
                co as int,
            ),
    {
        let ghost d = Dims { ch: ch as int, h: h as int, w: w as int };
        let mut r: Vec<T> = Vec::new();
        if co == 0 || h == 0 || w == 0 {
            assert(co * h * w == 0) by (nonlinear_arith)
                requires
                    co == 0 || h == 0 || w == 0,
            ;
            assert(r@ =~= self.conv(x@, d, wt.data@, b.data@, co as int));
            return r;
        }
        proof {
            assert(0 <= co * h <= co * h * w && 0 <= h * w <= co * h * w) by (nonlinear_arith)
                requires
                    co >= 1,
                    h >= 1,
                    w >= 1,
            ;
        }
        let n: usize = co * h * w;
        let mut i: usize = 0;
        while i < n
            invariant
                i <= n,
                n == co * h * w,
                h * w <= usize::MAX,
                d == (Dims { ch: ch as int, h: h as int, w: w as int }),
                self.pure(),
                x@.len() >= ch * h * w,
                b.data@.len() >= co,
                wt.data@.len() >= co * ch * 9,
                r@ == self.conv(x@, d, wt.data@, b.data@, co as int).take(i as int),
            decreases n - i,
        {
            proof {
                lemma_place(i as int, co as int, h as int, w as int);
                assert((channel_of(i as int, h as int, w as int) + 1) * ch * 9 <= co * ch * 9)
                    by (nonlinear_arith)
                    requires
                        channel_of(i as int, h as int, w as int) + 1 <= co,
                ;
            }
            let oc: usize = i / (h * w);
            let oy: usize = (i / w) % h;
            let ox: usize = i % w;
            let v: T = self.conv_cell(x, ch, h, w, wt, b, oc, oy, ox);
            r.push(v);
            i = i + 1;
            assert(r@ =~= self.conv(x@, d, wt.data@, b.data@, co as int).take(i as int));
        }
        assert(r@ =~= self.conv(x@, d, wt.data@, b.data@, co as int));
        r
    }

    // ---- element by element -----------------------------------------------------------------

    pub open spec fn activated(&self, x: Seq<T>) -> Seq<T> {
        Seq::new(x.len(), |i: int| of1(self.act, x[i]))
    }

    fn activate(&self, x: Vec<T>) -> (r: Vec<T>)
        requires
            self.pure(),
        ensures
            r@ == self.activated(x@),
    {
        let mut r: Vec<T> = Vec::new();
        let mut i: usize = 0;
        while i < x.len()
            invariant
                i <= x@.len(),
                self.pure(),
                r@ == self.activated(x@).take(i as int),
            decreases x@.len() - i,
        {
            let v: T = (self.act)(x[i]);
            r.push(v);
            i = i + 1;
            assert(r@ =~= self.activated(x@).take(i as int));
        }
        assert(r@ =~= self.activated(x@));
        r
    }

    // ---- pooling ------------------------------------------------------------------------------

    /// The largest of the four cells from row `y` and column `x` of a channel.
    pub open spec fn largest(&self, a: Seq<T>, d: Dims, c: int, y: int, x: int) -> T {
        let up = (c * d.h + y) * d.w + x;
        let down = (c * d.h + y + 1) * d.w + x;
        of2(self.max, of2(self.max, of2(self.max, a[up], a[up + 1]), a[down]), a[down + 1])
    }

    /// A 2x2 pooling: half the height and width, odd edges dropped.
    pub open spec fn pooled(&self, x: Seq<T>, d: Dims) -> Seq<T> {
        let h = d.h / 2;
        let w = d.w / 2;
        Seq::new(
            (d.ch * h * w) as nat,
            |i: int|
                self.largest(
                    x,
                    d,
                    channel_of(i, h, w),
                    2 * row_of(i, h, w),
                    2 * column_of(i, w),
                ),
        )
    }

    /// A cell of a pooling is the largest of four: of two neighbours in one row and of those
    /// below them, in the same channel, twice as far down and to the right.
    pub proof fn law_pooling_keeps_the_largest_of_four(
        &self,
        x: Seq<T>,
        d: Dims,
        c: int,
        y: int,
        z: int,
    )
        requires
            0 <= c < d.ch,
            0 <= y < d.h / 2,
            0 <= z < d.w / 2,
        ensures
            self.pooled(x, d).len() == d.ch * (d.h / 2) * (d.w / 2),
            self.pooled(x, d)[(c * (d.h / 2) + y) * (d.w / 2) + z] == of2(
                self.max,
                of2(
                    self.max,
                    of2(
                        self.max,
                        x[(c * d.h + 2 * y) * d.w + 2 * z],
                        x[(c * d.h + 2 * y) * d.w + 2 * z + 1],
                    ),
                    x[(c * d.h + 2 * y + 1) * d.w + 2 * z],
                ),
                x[(c * d.h + 2 * y + 1) * d.w + 2 * z + 1],
            ),
    {
        law_cells(c, y, z, d.h / 2, d.w / 2);
        lemma_inside(c, y, z, d.ch, d.h / 2, d.w / 2);
    }

    fn maxpool2(&self, x: &Vec<T>, ch: usize, h: usize, w: usize) -> (r: Vec<T>)
        requires
            self.pure(),
            x@.len() == ch * h * w,
        ensures
            r@ == self.pooled(x@, Dims { ch: ch as int, h: h as int, w: w as int }),
    {
        let ghost d = Dims { ch: ch as int, h: h as int, w: w as int };
        let len: usize = x.len();
        let oh: usize = h / 2;
        let ow: usize = w / 2;
        let mut r: Vec<T> = Vec::new();
        if ch == 0 || oh == 0 || ow == 0 {
            assert(ch * oh * ow == 0) by (nonlinear_arith)
                requires
                    ch == 0 || oh == 0 || ow == 0,
            ;
            assert(r@ =~= self.pooled(x@, d));
            return r;
        }
        proof {
            assert(0 <= ch * oh <= ch * oh * ow && 0 <= oh * ow <= ch * oh * ow && ch * oh * ow
                <= ch * h * w) by (nonlinear_arith)
                requires
                    ch >= 1,
                    1 <= oh <= h,
                    1 <= ow <= w,
            ;
        }
        let n: usize = ch * oh * ow;
        let mut i: usize = 0;
        while i < n
            invariant
                i <= n,
                n == ch * oh * ow,
                oh == h / 2,
                ow == w / 2,
                oh * ow <= usize::MAX,
                len == x@.len(),
                x@.len() == ch * h * w,
                d == (Dims { ch: ch as int, h: h as int, w: w as int }),
                self.pure(),
                r@ == self.pooled(x@, d).take(i as int),
            decreases n - i,
        {
            proof {
                lemma_place(i as int, ch as int, oh as int, ow as int);
            }
            let c: usize = i / (oh * ow);
            let y: usize = ((i / ow) % oh) * 2;
            let a: usize = (i % ow) * 2;
            proof {
                lemma_inside(c as int, y as int, a as int, ch as int, h as int, w as int);
                lemma_inside(c as int, y + 1, a + 1, ch as int, h as int, w as int);
                assert(0 <= c * h <= c * h + y) by (nonlinear_arith);
                assert(c * h + y + 1 <= (c * h + y + 1) * w) by (nonlinear_arith)
                    requires
                        w >= 1,
                        0 <= c * h + y,
                ;
                assert((c * h + y + 1) * w == (c * h + y) * w + w) by (nonlinear_arith);
            }
            let up: usize = (c * h + y) * w + a;
            let down: usize = (c * h + y + 1) * w + a;
            let m1: T = (self.max)(x[up], x[up + 1]);
            let m2: T = (self.max)(m1, x[down]);
            let m3: T = (self.max)(m2, x[down + 1]);
            r.push(m3);
            i = i + 1;
            assert(r@ =~= self.pooled(x@, d).take(i as int));
        }
        assert(r@ =~= self.pooled(x@, d));
        r
    }

    // ---- averages -------------------------------------------------------------------------------

    pub open spec fn total(&self, x: Seq<T>, from: int, n: int) -> T
        decreases n,
    {
        if n <= 0 {
            self.zero
        } else {
            of2(self.plus, self.total(x, from, n - 1), x[from + n - 1])
        }
    }

    /// The average of every channel.
    pub open spec fn averages(&self, x: Seq<T>, d: Dims) -> Seq<T> {
        let hw = d.h * d.w;
        Seq::new(
            d.ch as nat,
            |c: int| of2(self.mean, self.total(x, c * hw, hw), hw as usize),
        )
    }

    /// An average takes in every cell of its channel: where `e` is the sum before each, it is
    /// the last by as many as there are.
    pub proof fn law_averages_take_in_every_cell(&self, x: Seq<T>, d: Dims, c: int, e: Seq<T>)
        requires
            0 <= c < d.ch,
            0 <= d.h * d.w,
            e.len() == d.h * d.w + 1,
            e[0] == self.zero,
            forall|k: int|
                0 <= k < d.h * d.w ==> e[k + 1] == of2(
                    self.plus,
                    #[trigger] e[k],
                    x[c * (d.h * d.w) + k],
                ),
        ensures
            self.averages(x, d).len() == d.ch,
            self.averages(x, d)[c] == of2(self.mean, e[d.h * d.w], (d.h * d.w) as usize),
    {
        self.lemma_total_run(x, c * (d.h * d.w), e, d.h * d.w);
    }

    proof fn lemma_total_run(&self, x: Seq<T>, from: int, e: Seq<T>, n: int)
        requires
            0 <= n < e.len(),
            e[0] == self.zero,
            forall|k: int|
                0 <= k < e.len() - 1 ==> e[k + 1] == of2(self.plus, #[trigger] e[k], x[from + k]),
        ensures
            self.total(x, from, n) == e[n],
        decreases n,
    {
        if n > 0 {
            self.lemma_total_run(x, from, e, n - 1);
            assert(e[n - 1 + 1] == of2(self.plus, e[n - 1], x[from + (n - 1)]));
        }
    }

    fn average(&self, x: &Vec<T>, ch: usize, h: usize, w: usize) -> (r: Vec<T>)
        requires
            self.pure(),
            x@.len() == ch * h * w,
            h * w <= usize::MAX,
        ensures
            r@ == self.averages(x@, Dims { ch: ch as int, h: h as int, w: w as int }),
    {
        let ghost d = Dims { ch: ch as int, h: h as int, w: w as int };
        let len: usize = x.len();
        let hw: usize = h * w;
        let mut r: Vec<T> = Vec::new();
        let mut c: usize = 0;
        while c < ch
            invariant
                c <= ch,
                hw == h * w,
                len == x@.len(),
                x@.len() == ch * h * w,
                d == (Dims { ch: ch as int, h: h as int, w: w as int }),
                self.pure(),
                r@ == self.averages(x@, d).take(c as int),
            decreases ch - c,
        {
            proof {
                assert(0 <= c * hw && c * hw + hw <= ch * hw) by (nonlinear_arith)
                    requires
                        c + 1 <= ch,
                ;
                assert(ch * hw == ch * h * w) by (nonlinear_arith)
                    requires
                        hw == h * w,
                ;
            }
            let from: usize = c * hw;
            let mut sum: T = self.zero;
            let mut k: usize = 0;
            while k < hw
                invariant
                    k <= hw,
                    from + hw <= len,
                    len == x@.len(),
                    self.pure(),
                    sum == self.total(x@, from as int, k as int),
                decreases hw - k,
            {
                sum = (self.plus)(sum, x[from + k]);
                k = k + 1;
            }
            let v: T = (self.mean)(sum, hw);
            r.push(v);
            c = c + 1;
            assert(r@ =~= self.averages(x@, d).take(c as int));
        }
        assert(r@ =~= self.averages(x@, d));
        r
    }

    // ---- dense layers -----------------------------------------------------------------------------

    pub open spec fn dot(&self, x: Seq<T>, wt: Seq<u32>, from: int, n: int) -> T
        decreases n,
    {
        if n <= 0 {
            self.zero
        } else {
            of3(self.mac, self.dot(x, wt, from, n - 1), x[n - 1], wt[from + n - 1])
        }
    }

    /// A dense layer to `out` values: a row of weights for each.
    pub open spec fn dense(&self, x: Seq<T>, wt: Seq<u32>, b: Seq<u32>, out: int) -> Seq<T> {
        Seq::new(
            out as nat,
            |o: int|
                of2(
                    self.plus,
                    of1(self.bias, b[o]),
                    self.dot(x, wt, o * x.len(), x.len() as int),
                ),
        )
    }

    /// An output of a dense layer takes in every input by a weight of its own: where `e` is
    /// the sum before each, it is the last, with the output's bias.
    pub proof fn law_outputs_take_in_every_input(
        &self,
        x: Seq<T>,
        wt: Seq<u32>,
        b: Seq<u32>,
        out: int,
        o: int,
        e: Seq<T>,
    )
        requires
            0 <= o < out,
            e.len() == x.len() + 1,
            e[0] == self.zero,
            forall|k: int|
                0 <= k < x.len() ==> e[k + 1] == of3(
                    self.mac,
                    #[trigger] e[k],
                    x[k],
                    wt[o * x.len() + k],
                ),
        ensures
            self.dense(x, wt, b, out).len() == out,
            self.dense(x, wt, b, out)[o] == of2(
                self.plus,
                of1(self.bias, b[o]),
                e[x.len() as int],
            ),
    {
        self.lemma_dot_run(x, wt, o * x.len(), e, x.len() as int);
    }

    proof fn lemma_dot_run(&self, x: Seq<T>, wt: Seq<u32>, from: int, e: Seq<T>, n: int)
        requires
            0 <= n <= x.len(),
            e.len() == x.len() + 1,
            e[0] == self.zero,
            forall|k: int|
                0 <= k < x.len() ==> e[k + 1] == of3(
                    self.mac,
                    #[trigger] e[k],
                    x[k],
                    wt[from + k],
                ),
        ensures
            self.dot(x, wt, from, n) == e[n],
        decreases n,
    {
        if n > 0 {
            self.lemma_dot_run(x, wt, from, e, n - 1);
            assert(e[n - 1 + 1] == of3(self.mac, e[n - 1], x[n - 1], wt[from + (n - 1)]));
        }
    }

    fn linear(&self, x: &Vec<T>, wt: &Tensor, b: &Tensor, out: usize) -> (r: Vec<T>)
        requires
            self.pure(),
            wt.data@.len() >= out * x@.len(),
            b.data@.len() >= out,
        ensures
            r@ == self.dense(x@, wt.data@, b.data@, out as int),
    {
        let n: usize = x.len();
        let len: usize = wt.data.len();
        let mut r: Vec<T> = Vec::new();
        let mut o: usize = 0;
        while o < out
            invariant
                o <= out,
                n == x@.len(),
                len == wt.data@.len(),
                len >= out * n,
                b.data@.len() >= out,
                self.pure(),
                r@ == self.dense(x@, wt.data@, b.data@, out as int).take(o as int),
            decreases out - o,
        {
            proof {
                assert(0 <= o * n && o * n + n <= out * n) by (nonlinear_arith)
                    requires
                        o + 1 <= out,
                ;
            }
            let from: usize = o * n;
            let mut sum: T = self.zero;
            let mut k: usize = 0;
            while k < n
                invariant
                    k <= n,
                    n == x@.len(),
                    from + n <= len,
                    len == wt.data@.len(),
                    self.pure(),
                    sum == self.dot(x@, wt.data@, from as int, k as int),
                decreases n - k,
            {
                sum = (self.mac)(sum, x[k], wt.data[from + k]);
                k = k + 1;
            }
            let bias: T = (self.bias)(b.data[o]);
            let v: T = (self.plus)(bias, sum);
            r.push(v);
            o = o + 1;
            assert(r@ =~= self.dense(x@, wt.data@, b.data@, out as int).take(o as int));
        }
        assert(r@ =~= self.dense(x@, wt.data@, b.data@, out as int));
        r
    }
}

// ---- the network ------------------------------------------------------------------------------------

/// The weights and the biases of the convolutions. Every second one is followed by
/// a pooling.
pub const LAYERS: [(&'static str, &'static str); 8] = [
    ("b0c1w", "b0c1b"),
    ("b0c2w", "b0c2b"),
    ("b1c1w", "b1c1b"),
    ("b1c2w", "b1c2b"),
    ("b2c1w", "b2c1b"),
    ("b2c2w", "b2c2b"),
    ("b3c1w", "b3c1b"),
    ("b3c2w", "b3c2b"),
];

pub const N_LAYERS: usize = 8;

/// How far an input gets: to a plane of this size; not past a tensor that is
/// missing; not past one whose shape does not fit.
pub enum Reach {
    At(Dims),
    Missing(Seq<char>),
    Misfit,
}

/// The weights and biases of a convolution fit a plane.
pub open spec fn conv_fits(d: Dims, wt: Entry, b: Entry) -> bool {
    &&& wt.shape.len() >= 2
    &&& wt.shape[1] == d.ch
    &&& wt.data.len() >= wt.shape[0] * d.ch * 9
    &&& b.data.len() >= wt.shape[0]
    &&& wt.shape[0] * d.h * d.w <= usize::MAX
}

/// The plane after the `l`th convolution.
pub open spec fn layer_reach(net: Net, d: Dims, l: int) -> Reach {
    match (net.tensor(LAYERS@[l].0@), net.tensor(LAYERS@[l].1@)) {
        (None, _) => Reach::Missing(LAYERS@[l].0@),
        (Some(_), None) => Reach::Missing(LAYERS@[l].1@),
        (Some(wt), Some(b)) => if !conv_fits(d, wt, b) {
            Reach::Misfit
        } else if l % 2 == 1 {
            Reach::At(Dims { ch: wt.shape[0] as int, h: d.h / 2, w: d.w / 2 })
        } else {
            Reach::At(Dims { ch: wt.shape[0] as int, h: d.h, w: d.w })
        },
    }
}

/// The plane after the first `l` convolutions.
pub open spec fn trunk_reach(net: Net, h: int, w: int, l: int) -> Reach
    decreases l,
{
    if l <= 0 {
        Reach::At(Dims { ch: 1, h, w })
    } else {
        match trunk_reach(net, h, w, l - 1) {
            Reach::At(d) => layer_reach(net, d, l - 1),
            r => r,
        }
    }
}

/// What a dense layer makes of `n` values: this many values, or why it cannot.
pub enum DenseReach {
    At(int),
    Missing(Seq<char>),
    Misfit,
}

pub open spec fn dense_reach(net: Net, n: int, wt: Seq<char>, b: Seq<char>) -> DenseReach {
    match (net.tensor(wt), net.tensor(b)) {
        (None, _) => DenseReach::Missing(wt),
        (Some(_), None) => DenseReach::Missing(b),
        (Some(wt), Some(b)) => if wt.shape.len() >= 2 && wt.shape[1] == n && wt.data.len()
            >= wt.shape[0] * n && b.data.len() >= wt.shape[0] {
            DenseReach::At(wt.shape[0] as int)
        } else {
            DenseReach::Misfit
        },
    }
}

/// Whether `len` values, as a plane of `h` rows of `w`, go through the network.
pub enum Fit {
    Fits,
    Missing(Seq<char>),
    Misfit,
}

pub open spec fn fit(net: Net, len: int, h: int, w: int) -> Fit {
    if len < h * w {
        Fit::Misfit
    } else {
        match trunk_reach(net, h, w, N_LAYERS as int) {
            Reach::Misfit => Fit::Misfit,
            Reach::Missing(s) => Fit::Missing(s),
            Reach::At(d) => match dense_reach(net, d.ch, "fc1w"@, "fc1b"@) {
                DenseReach::Misfit => Fit::Misfit,
                DenseReach::Missing(s) => Fit::Missing(s),
                DenseReach::At(n) => match dense_reach(net, n, "fc2w"@, "fc2b"@) {
                    DenseReach::Misfit => Fit::Misfit,
                    DenseReach::Missing(s) => Fit::Missing(s),
                    DenseReach::At(m) => if m <= N_PARAMS {
                        Fit::Fits
                    } else {
                        Fit::Misfit
                    },
                },
            },
        }
    }
}

impl<
    T: Copy,
    B: Fn(u32) -> T,
    M: Fn(T, T, u32) -> T,
    A: Fn(T) -> T,
    X: Fn(T, T) -> T,
    P: Fn(T, T) -> T,
    D: Fn(T, usize) -> T,
    S: Fn(T) -> T,
> Ops<T, B, M, A, X, P, D, S> {
    /// What the `l`th convolution, and the pooling behind it, make of a plane.
    pub open spec fn layer(&self, net: Net, x: Seq<T>, d: Dims, l: int) -> Seq<T> {
        let wt = net.tensor(LAYERS@[l].0@)->0;
        let b = net.tensor(LAYERS@[l].1@)->0;
        let y = self.activated(self.conv(x, d, wt.data, b.data, wt.shape[0] as int));
        if l % 2 == 1 {
            self.pooled(y, Dims { ch: wt.shape[0] as int, h: d.h, w: d.w })
        } else {
            y
        }
    }

    /// The plane after the first `l` convolutions.
    pub open spec fn trunk(&self, net: Net, mel: Seq<T>, h: int, w: int, l: int) -> Seq<T>
        decreases l,
    {
        if l <= 0 {
            mel
        } else {
            self.layer(
                net,
                self.trunk(net, mel, h, w, l - 1),
                trunk_reach(net, h, w, l - 1)->At_0,
                l - 1,
            )
        }
    }

    /// A dense layer.
    pub open spec fn dense_layer(&self, net: Net, x: Seq<T>, wt: Seq<char>, b: Seq<char>) -> Seq<T> {
        let wt = net.tensor(wt)->0;
        self.dense(x, wt.data, net.tensor(b)->0.data, wt.shape[0] as int)
    }

    /// The outputs of the network.
    pub open spec fn outputs(&self, net: Net, mel: Seq<T>, h: int, w: int) -> Seq<T> {
        let x = self.trunk(net, mel, h, w, N_LAYERS as int);
        let feat = self.averages(x, trunk_reach(net, h, w, N_LAYERS as int)->At_0);
        let y = self.activated(self.dense_layer(net, feat, "fc1w"@, "fc1b"@));
        self.dense_layer(net, y, "fc2w"@, "fc2b"@)
    }

    /// The genome that the network hears: an output for each knob, and zero for
    /// the knobs beyond the last output.
    pub open spec fn heard(&self, net: Net, mel: Seq<T>, h: int, w: int) -> Seq<T> {
        let y = self.outputs(net, mel, h, w);
        Seq::new(
            N_PARAMS as nat,
            |i: int|
                if i < y.len() {
                    of1(self.squash, y[i])
                } else {
                    self.zero
                },
        )
    }

    /// The network runs from its first layer to its last: where `x` is the plane before each
    /// of the eight convolutions and `d` its size, each is convolved by the tensors of its own
    /// layer and goes through the activation, every second one is pooled, what is left of
    /// every channel is averaged, and the two dense layers follow, an activation between them.
    /// Every output becomes a knob; knobs without one are zero.
    pub proof fn law_the_network_runs_through(
        &self,
        net: Net,
        mel: Seq<T>,
        h: int,
        w: int,
        wt: Seq<Entry>,
        b: Seq<Entry>,
        d: Seq<Dims>,
        x: Seq<Seq<T>>,
        f1: (Entry, Entry),
        f2: (Entry, Entry),
        i: int,
    )
        requires
            wt.len() == 8,
            b.len() == 8,
            net.tensor("b0c1w"@) == Some(wt[0]) && net.tensor("b0c1b"@) == Some(b[0]),
            net.tensor("b0c2w"@) == Some(wt[1]) && net.tensor("b0c2b"@) == Some(b[1]),
            net.tensor("b1c1w"@) == Some(wt[2]) && net.tensor("b1c1b"@) == Some(b[2]),
            net.tensor("b1c2w"@) == Some(wt[3]) && net.tensor("b1c2b"@) == Some(b[3]),
            net.tensor("b2c1w"@) == Some(wt[4]) && net.tensor("b2c1b"@) == Some(b[4]),
            net.tensor("b2c2w"@) == Some(wt[5]) && net.tensor("b2c2b"@) == Some(b[5]),
            net.tensor("b3c1w"@) == Some(wt[6]) && net.tensor("b3c1b"@) == Some(b[6]),
            net.tensor("b3c2w"@) == Some(wt[7]) && net.tensor("b3c2b"@) == Some(b[7]),
            net.tensor("fc1w"@) == Some(f1.0) && net.tensor("fc1b"@) == Some(f1.1),
            net.tensor("fc2w"@) == Some(f2.0) && net.tensor("fc2b"@) == Some(f2.1),
            fit(net, mel.len() as int, h, w) == Fit::Fits,
            d.len() == 9,
            x.len() == 9,
            d[0] == (Dims { ch: 1, h, w }),
            x[0] == mel,
            forall|l: int|
                0 <= l < 8 ==> {
                    let e = #[trigger] wt[l];
                    let y = self.activated(self.conv(x[l], d[l], e.data, b[l].data, e.shape[0] as int));
                    let same = Dims { ch: e.shape[0] as int, h: d[l].h, w: d[l].w };
                    if l == 1 || l == 3 || l == 5 || l == 7 {
                        &&& d[l + 1] == (Dims {
                            ch: e.shape[0] as int,
                            h: d[l].h / 2,
                            w: d[l].w / 2,
                        })
                        &&& x[l + 1] == self.pooled(y, same)
                    } else {
                        d[l + 1] == same && x[l + 1] == y
                    }
                },
            0 <= i < 16,
        ensures
            ({
                let feat = self.averages(x[8], d[8]);
                let hidden = self.activated(
                    self.dense(feat, f1.0.data, f1.1.data, f1.0.shape[0] as int),
                );
                let out = self.dense(hidden, f2.0.data, f2.1.data, f2.0.shape[0] as int);
                &&& self.heard(net, mel, h, w).len() == 16
                &&& i < out.len() ==> self.heard(net, mel, h, w)[i] == of1(self.squash, out[i])
                &&& i >= out.len() ==> self.heard(net, mel, h, w)[i] == self.zero
            }),
    {
        assert forall|l: int| 0 <= l < 8 implies net.tensor(#[trigger] LAYERS@[l].0@) == Some(wt[l])
            && net.tensor(LAYERS@[l].1@) == Some(b[l]) by {}
        self.lemma_planes(net, mel, h, w, wt, b, d, x, 8);
    }

    proof fn lemma_planes(
        &self,
        net: Net,
        mel: Seq<T>,
        h: int,
        w: int,
        wt: Seq<Entry>,
        b: Seq<Entry>,
        d: Seq<Dims>,
        x: Seq<Seq<T>>,
        n: int,
    )
        requires
            0 <= n <= 8,
            wt.len() == 8,
            b.len() == 8,
            forall|l: int|
                0 <= l < 8 ==> net.tensor(#[trigger] LAYERS@[l].0@) == Some(wt[l]) && net.tensor(
                    LAYERS@[l].1@,
                ) == Some(b[l]),
            trunk_reach(net, h, w, n) is At,
            d.len() == 9,
            x.len() == 9,
            d[0] == (Dims { ch: 1, h, w }),
            x[0] == mel,
            forall|l: int|
                0 <= l < 8 ==> {
                    let e = #[trigger] wt[l];
                    let y = self.activated(self.conv(x[l], d[l], e.data, b[l].data, e.shape[0] as int));
                    let same = Dims { ch: e.shape[0] as int, h: d[l].h, w: d[l].w };
                    if l == 1 || l == 3 || l == 5 || l == 7 {
                        &&& d[l + 1] == (Dims {
                            ch: e.shape[0] as int,
                            h: d[l].h / 2,
                            w: d[l].w / 2,
                        })
                        &&& x[l + 1] == self.pooled(y, same)
                    } else {
                        d[l + 1] == same && x[l + 1] == y
                    }
                },
        ensures
            trunk_reach(net, h, w, n) == Reach::At(d[n]),
            self.trunk(net, mel, h, w, n) == x[n],
        decreases n,
    {
        if n > 0 {
            self.lemma_planes(net, mel, h, w, wt, b, d, x, n - 1);
            let l = n - 1;
            assert(net.tensor(LAYERS@[l].0@) == Some(wt[l]));
            let e = wt[l];
            assert(d[l + 1] == d[n] && x[l + 1] == x[n]);
        }
    }

    /// What goes through the activation goes through it value by value.
    pub proof fn law_values_are_activated_one_by_one(&self, x: Seq<T>, i: int)
        requires
            0 <= i < x.len(),
        ensures
            self.activated(x).len() == x.len(),
            self.activated(x)[i] == of1(self.act, x[i]),
    {
    }

    /// Runs the first convolutions.
    fn run_trunk(&self, net: &Net, mel: &[T], h: usize, w: usize) -> (r: Result<
        (Vec<T>, usize, usize, usize),
        String,
    >)
        requires
            self.pure(),
            mel@.len() >= h * w,
            trunk_reach(*net, h as int, w as int, N_LAYERS as int) != Reach::Misfit,
        ensures
            match r {
                Ok((x, ch, hh, ww)) => {
                    &&& trunk_reach(*net, h as int, w as int, N_LAYERS as int) == Reach::At(
                        Dims { ch: ch as int, h: hh as int, w: ww as int },
                    )
                    &&& x@ == self.trunk(*net, mel@, h as int, w as int, N_LAYERS as int)
                    &&& x@.len() == ch * hh * ww
                    &&& hh * ww <= usize::MAX
                },
                Err(s) => trunk_reach(*net, h as int, w as int, N_LAYERS as int) == Reach::Missing(
                    s@,
                ),
            },
    {
        let len: usize = mel.len();
        let mut x: Vec<T> = Vec::new();
        let mut i: usize = 0;
        while i < mel.len()
            invariant
                i <= mel@.len(),
                x@ == mel@.take(i as int),
            decreases mel@.len() - i,
        {
            x.push(mel[i]);
            i = i + 1;
        }
        assert(x@ =~= mel@);
        let mut ch: usize = 1;
        let mut hh: usize = h;
        let mut ww: usize = w;
        let mut l: usize = 0;
        while l < N_LAYERS
            invariant
                l <= N_LAYERS,
                self.pure(),
                hh * ww <= usize::MAX,
                x@.len() >= ch * hh * ww,
                l > 0 ==> x@.len() == ch * hh * ww,
                trunk_reach(*net, h as int, w as int, N_LAYERS as int) != Reach::Misfit,
                trunk_reach(*net, h as int, w as int, l as int) == Reach::At(
                    Dims { ch: ch as int, h: hh as int, w: ww as int },
                ),
                x@ == self.trunk(*net, mel@, h as int, w as int, l as int),
            decreases N_LAYERS - l,
        {
            let ghost d = Dims { ch: ch as int, h: hh as int, w: ww as int };
            proof {
                lemma_stop_stays(*net, h as int, w as int, l + 1, N_LAYERS as int);
            }
            let (w_name, b_name) = LAYERS[l];
            let wt: &Tensor = match net.get(w_name) {
                Err(s) => {
                    return Err(s);
                },
                Ok(t) => t,
            };
            let b: &Tensor = match net.get(b_name) {
                Err(s) => {
                    return Err(s);
                },
                Ok(t) => t,
            };
            assert(conv_fits(d, net.tensor(w_name@)->0, net.tensor(b_name@)->0));
            let co: usize = wt.shape[0];
            let y: Vec<T> = self.conv3x3(&x, ch, hh, ww, wt, b, co);
            let z: Vec<T> = self.activate(y);
            assert(co * hh * ww >= 0) by (nonlinear_arith);
            if l % 2 == 1 {
                x = self.maxpool2(&z, co, hh, ww);
                proof {
                    assert(0 <= co * (hh / 2) * (ww / 2) && (hh / 2) * (ww / 2) <= hh * ww)
                        by (nonlinear_arith);
                }
                hh = hh / 2;
                ww = ww / 2;
            } else {
                x = z;
            }
            ch = co;
            l = l + 1;
        }
        Ok((x, ch, hh, ww))
    }
}

/// Where an input stops, it stays.
proof fn lemma_stop_stays(net: Net, h: int, w: int, k: int, n: int)
    requires
        0 <= k <= n,
    ensures
        !(trunk_reach(net, h, w, k) is At) ==> trunk_reach(net, h, w, n) == trunk_reach(
            net,
            h,
            w,
            k,
        ),
    decreases n,
{
    if k < n {
        lemma_stop_stays(net, h, w, k, n - 1);
    }
}

impl Net {
    /// Runs the network on log-mel features, a plane of `h` rows of `w`. Where a
    /// tensor is missing its name comes back.
    pub fn forward<
        T: Copy,
        B: Fn(u32) -> T,
        M: Fn(T, T, u32) -> T,
        A: Fn(T) -> T,
        X: Fn(T, T) -> T,
        P: Fn(T, T) -> T,
        D: Fn(T, usize) -> T,
        S: Fn(T) -> T,
    >(&self, ops: &Ops<T, B, M, A, X, P, D, S>, mel: &[T], h: usize, w: usize) -> (r: Result<
        Genome<T>,
        String,
    >)
        requires
            ops.pure(),
            fit(*self, mel@.len() as int, h as int, w as int) != Fit::Misfit,
        ensures
            match r {
                Ok(g) => {
                    &&& fit(*self, mel@.len() as int, h as int, w as int) == Fit::Fits
                    &&& g@ == ops.heard(*self, mel@, h as int, w as int)
                },
                Err(s) => fit(*self, mel@.len() as int, h as int, w as int) == Fit::Missing(s@),
            },
    {
        let (x, ch, hh, ww) = match ops.run_trunk(self, mel, h, w) {
            Err(s) => {
                return Err(s);
            },
            Ok(p) => p,
        };
        let feat: Vec<T> = ops.average(&x, ch, hh, ww);
        let w1: &Tensor = match self.get("fc1w") {
            Err(s) => {
                return Err(s);
            },
            Ok(t) => t,
        };
        let b1: &Tensor = match self.get("fc1b") {
            Err(s) => {
                return Err(s);
            },
            Ok(t) => t,
        };
        let n1: usize = w1.shape[0];
        let y: Vec<T> = ops.activate(ops.linear(&feat, w1, b1, n1));
        let w2: &Tensor = match self.get("fc2w") {
            Err(s) => {
                return Err(s);
            },
            Ok(t) => t,
        };
        let b2: &Tensor = match self.get("fc2b") {
            Err(s) => {
                return Err(s);
            },
            Ok(t) => t,
        };
        let n2: usize = w2.shape[0];
        let out: Vec<T> = ops.linear(&y, w2, b2, n2);
        let mut g: Genome<T> = [ops.zero; 16];
        let mut i: usize = 0;
        while i < out.len()
            invariant
                i <= out@.len() <= N_PARAMS,
                ops.pure(),
                g@.len() == N_PARAMS,
                forall|k: int| 0 <= k < i ==> #[trigger] g@[k] == of1(ops.squash, out@[k]),
                forall|k: int| i <= k < N_PARAMS ==> #[trigger] g@[k] == ops.zero,
            decreases out@.len() - i,
        {
            let v: T = (ops.squash)(out[i]);
            g[i] = v;
            i = i + 1;
        }
        assert(g@ =~= ops.heard(*self, mel@, h as int, w as int));
        Ok(g)
    }

    /// Whether the features go as far as the network does, or as far as its first
    /// missing tensor.
    pub fn fits(&self, len: usize, h: usize, w: usize) -> (r: bool)
        ensures
            r == (fit(*self, len as int, h as int, w as int) != Fit::Misfit),
    {
        if !within(h, w, 1, len) {
            return false;
        }
        assert(h * w * 1 == h * w);
        let mut ch: usize = 1;
        let mut hh: usize = h;
        let mut ww: usize = w;
        let mut l: usize = 0;
        while l < N_LAYERS
            invariant
                l <= N_LAYERS,
                h * w <= len,
                trunk_reach(*self, h as int, w as int, l as int) == Reach::At(
                    Dims { ch: ch as int, h: hh as int, w: ww as int },
                ),
            decreases N_LAYERS - l,
        {
            proof {
                lemma_stop_stays(*self, h as int, w as int, l + 1, N_LAYERS as int);
            }
            let (w_name, b_name) = LAYERS[l];
            let wt: &Tensor = match self.get(w_name) {
                Err(_) => {
                    return true;
                },
                Ok(t) => t,
            };
            let b: &Tensor = match self.get(b_name) {
                Err(_) => {
                    return true;
                },
                Ok(t) => t,
            };
            if wt.shape.len() < 2 || wt.shape[1] != ch {
                return false;
            }
            let co: usize = wt.shape[0];
            if b.data.len() < co || !within(co, ch, 9, wt.data.len()) || !within(
                co,
                hh,
                ww,
                usize::MAX,
            ) {
                return false;
            }
            if l % 2 == 1 {
                hh = hh / 2;
                ww = ww / 2;
            }
            ch = co;
            l = l + 1;
        }
        match self.dense_count(ch, "fc1w", "fc1b") {
            Ok(Some(n)) => match self.dense_count(n, "fc2w", "fc2b") {
                Ok(Some(m)) => m <= N_PARAMS,
                Ok(None) => true,
                Err(()) => false,
            },
            Ok(None) => true,
            Err(()) => false,
        }
    }

    /// How many values a dense layer makes of `n`; none if a tensor is missing; an
    /// error if one does not fit.
    fn dense_count(&self, n: usize, wt: &str, b: &str) -> (r: Result<Option<usize>, ()>)
        ensures
            match r {
                Ok(Some(m)) => dense_reach(*self, n as int, wt@, b@) == DenseReach::At(m as int),
                Ok(None) => dense_reach(*self, n as int, wt@, b@) is Missing,
                Err(_) => dense_reach(*self, n as int, wt@, b@) is Misfit,
            },
    {
        let t: &Tensor = match self.get(wt) {
            Err(_) => {
                return Ok(None);
            },
            Ok(t) => t,
        };
        let u: &Tensor = match self.get(b) {
            Err(_) => {
                return Ok(None);
            },
            Ok(u) => u,
        };
        if t.shape.len() < 2 || t.shape[1] != n || u.data.len() < t.shape[0] {
            return Err(());
        }
        if !within(t.shape[0], n, 1, t.data.len()) {
            return Err(());
        }
        Ok(Some(t.shape[0]))
    }
}

/// Whether the product is at most `limit`.
fn within(a: usize, b: usize, c: usize, limit: usize) -> (r: bool)
    ensures
        r == (a * b * c <= limit),
{
    match a.checked_mul(b) {
        None => {
            if c == 0 {
                assert(a * b * c == 0) by (nonlinear_arith)
                    requires
                        c == 0,
                ;
                return true;
            }
            assert(a * b * c >= a * b) by (nonlinear_arith)
                requires
                    c >= 1,
            ;
            false
        },
        Some(p) => match p.checked_mul(c) {
            None => false,
            Some(q) => q <= limit,
        },
    }
}

// ---- which networks fit ----------------------------------------------------------------------

/// The tensors of a convolution fit a plane: the weights are for as many channels as it has,
/// nine for each of them and each that comes out, there is a bias for each that comes out,
/// and a machine can hold what comes out.
pub open spec fn can_convolve(d: Dims, wt: Entry, b: Entry) -> bool {
    &&& wt.shape.len() >= 2
    &&& wt.shape[1] == d.ch
    &&& wt.data.len() >= wt.shape[0] * d.ch * 9
    &&& b.data.len() >= wt.shape[0]
    &&& wt.shape[0] * d.h * d.w <= usize::MAX
}

/// The first `n` convolutions can be gone through: `wt` and `b` are their tensors, and `d` is
/// the size of the plane before each, which has as many channels as came out and is half as
/// high and wide behind every second.
pub open spec fn passes(
    net: Net,
    h: int,
    w: int,
    wt: Seq<Entry>,
    b: Seq<Entry>,
    d: Seq<Dims>,
    n: int,
) -> bool {
    &&& 0 <= n <= 8
    &&& d[0] == (Dims { ch: 1, h, w })
    &&& forall|l: int|
        0 <= l < n ==> {
            &&& net.tensor(LAYERS@[l].0@) == Some(#[trigger] wt[l])
            &&& net.tensor(LAYERS@[l].1@) == Some(b[l])
            &&& can_convolve(d[l], wt[l], b[l])
            &&& d[l + 1].ch == wt[l].shape[0]
            &&& l == 0 || l == 2 || l == 4 || l == 6 ==> d[l + 1].h == d[l].h && d[l + 1].w == d[l].w
            &&& l == 1 || l == 3 || l == 5 || l == 7 ==> d[l + 1].h == d[l].h / 2 && d[l + 1].w
                == d[l].w / 2
        }
}

proof fn lemma_passes(
    net: Net,
    h: int,
    w: int,
    wt: Seq<Entry>,
    b: Seq<Entry>,
    d: Seq<Dims>,
    n: int,
    k: int,
)
    requires
        passes(net, h, w, wt, b, d, n),
        0 <= k <= n,
    ensures
        trunk_reach(net, h, w, k) == Reach::At(d[k]),
    decreases k,
{
    if k > 0 {
        lemma_passes(net, h, w, wt, b, d, n, k - 1);
        let l = k - 1;
        assert(net.tensor(LAYERS@[l].0@) == Some(wt[l]));
        assert(d[l + 1].ch == wt[l].shape[0]);
    }
}

/// What stops an input stops it for good.
proof fn lemma_stopped(net: Net, h: int, w: int, k: int, n: int)
    requires
        0 <= k <= n,
        !(trunk_reach(net, h, w, k) is At),
    ensures
        trunk_reach(net, h, w, n) == trunk_reach(net, h, w, k),
    decreases n,
{
    if k < n {
        lemma_stopped(net, h, w, k, n - 1);
    }
}

/// A network is tried part by part: behind the convolutions that can be gone through, the
/// first tensor that is not there is the one that is told, weights before biases, and the
/// first that does not fit makes the network a misfit. It fits where all eight convolutions
/// can be gone through, both dense layers take in what is before them, and no more than
/// sixteen values come out.
pub proof fn law_networks_are_tried_part_by_part(
    net: Net,
    len: int,
    h: int,
    w: int,
    wt: Seq<Entry>,
    b: Seq<Entry>,
    d: Seq<Dims>,
    n: int,
)
    requires
        passes(net, h, w, wt, b, d, n),
        h * w <= len,
    ensures
        n < 8 ==> match (net.tensor(LAYERS@[n].0@), net.tensor(LAYERS@[n].1@)) {
            (None, _) => fit(net, len, h, w) == Fit::Missing(LAYERS@[n].0@),
            (Some(_), None) => fit(net, len, h, w) == Fit::Missing(LAYERS@[n].1@),
            (Some(e), Some(f)) => !can_convolve(d[n], e, f) ==> fit(net, len, h, w) is Misfit,
        },
        n == 8 ==> match (net.tensor("fc1w"@), net.tensor("fc1b"@)) {
            (None, _) => fit(net, len, h, w) == Fit::Missing("fc1w"@),
            (Some(_), None) => fit(net, len, h, w) == Fit::Missing("fc1b"@),
            (Some(e), Some(f)) => if e.shape.len() < 2 || e.shape[1] != d[8].ch || e.data.len()
                < e.shape[0] * d[8].ch || f.data.len() < e.shape[0] {
                fit(net, len, h, w) is Misfit
            } else {
                match (net.tensor("fc2w"@), net.tensor("fc2b"@)) {
                    (None, _) => fit(net, len, h, w) == Fit::Missing("fc2w"@),
                    (Some(_), None) => fit(net, len, h, w) == Fit::Missing("fc2b"@),
                    (Some(p), Some(q)) => if p.shape.len() < 2 || p.shape[1] != e.shape[0]
                        || p.data.len() < p.shape[0] * e.shape[0] || q.data.len() < p.shape[0]
                        || p.shape[0] > 16 {
                        fit(net, len, h, w) is Misfit
                    } else {
                        fit(net, len, h, w) is Fits
                    },
                }
            },
        },
{
    lemma_passes(net, h, w, wt, b, d, n, n);
    if n < 8 {
        let r = trunk_reach(net, h, w, n + 1);
        assert(r == layer_reach(net, d[n], n));
        if !(r is At) {
            lemma_stopped(net, h, w, n + 1, 8);
        }
    }
}

/// An input that is too short for its plane fits no network, and what is told to be missing
/// is.
pub proof fn law_what_is_told_to_be_missing_is(net: Net, len: int, h: int, w: int)
    ensures
        len < h * w ==> fit(net, len, h, w) is Misfit,
        fit(net, len, h, w) matches Fit::Missing(s) ==> net.tensor(s) is None,
{
    lemma_missing_is(net, h, w, 8);
}

proof fn lemma_missing_is(net: Net, h: int, w: int, n: int)
    requires
        0 <= n <= 8,
    ensures
        trunk_reach(net, h, w, n) matches Reach::Missing(s) ==> net.tensor(s) is None,
    decreases n,
{
    if n > 0 {
        lemma_missing_is(net, h, w, n - 1);
    }
}

} // verus!
