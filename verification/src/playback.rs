//! Where playback stands: what the meter shows, how a loop is swapped in place,
//! and how a waveform is cut into columns.

use vstd::prelude::*;

verus! {

/// How many samples the meter looks at.
pub const METER_WINDOW: usize = 1200;

/// The samples that the meter looks at after `idx` samples of a sound of `len`
/// have been played: up to `METER_WINDOW` from where it stands. A sound that does
/// not loop has none once it is over, an empty one never has.
pub fn meter_window(idx: usize, len: usize, looping: bool) -> (r: Option<(usize, usize)>)
    ensures
        match r {
            None => len == 0 || (!looping && idx >= len),
            Some((from, to)) => {
                &&& len > 0
                &&& looping || idx < len
                &&& from == idx % len
                &&& from < to <= len
                &&& to == from + METER_WINDOW || (to == len && len < from + METER_WINDOW)
            },
        },
{
    if len == 0 || (!looping && idx >= len) {
        return None;
    }
    let from: usize = idx % len;
    if idx < len {
        assert(from == idx) by (nonlinear_arith)
            requires
                from == idx % len,
                idx < len,
        ;
    }
    let to: usize = if len - from >= METER_WINDOW {
        from + METER_WINDOW
    } else {
        len
    };
    Some((from, to))
}

/// Where a loop of `len` samples stands after `idx` samples; at its start if
/// nothing loops.
pub fn loop_position(idx: usize, len: usize, looping: bool) -> (r: usize)
    ensures
        looping && len > 0 ==> r == idx % len && r < len,
        !looping || len == 0 ==> r == 0,
{
    if !looping || len == 0 {
        0
    } else {
        idx % len
    }
}

/// The loop, picked up at `cut`.
pub open spec fn rotated<T>(a: Seq<T>, cut: int) -> Seq<T> {
    a.skip(cut) + a.take(cut)
}

/// Picks a loop up at `cut`.
pub fn rotate<T: Copy>(a: &[T], cut: usize) -> (r: Vec<T>)
    requires
        cut <= a@.len(),
    ensures
        r@ == rotated(a@, cut as int),
{
    let n: usize = a.len();
    let mut r: Vec<T> = Vec::new();
    let mut i: usize = cut;
    while i < n
        invariant
            cut <= i <= n,
            n == a@.len(),
            r@ == a@.subrange(cut as int, i as int),
        decreases n - i,
    {
        r.push(a[i]);
        i = i + 1;
        assert(r@ =~= a@.subrange(cut as int, i as int));
    }
    let mut k: usize = 0;
    while k < cut
        invariant
            k <= cut <= a@.len(),
            r@ == a@.skip(cut as int) + a@.take(k as int),
        decreases cut - k,
    {
        r.push(a[k]);
        k = k + 1;
        assert(r@ =~= a@.skip(cut as int) + a@.take(k as int));
    }
    r
}

/// Rotating a seamless loop stays seamless: what is heard from the cut on, round
/// and round, is what the loop sounds like from there.
pub proof fn law_rotated_loop_goes_on<T>(a: Seq<T>, cut: int, i: int)
    requires
        0 <= cut < a.len(),
        0 <= i,
    ensures
        rotated(a, cut).len() == a.len(),
        rotated(a, cut)[i % a.len() as int] == a[(cut + i) % a.len() as int],
{
    let n = a.len() as int;
    let k = i % n;
    vstd::arithmetic::div_mod::lemma_add_mod_noop(cut, i, n);
    vstd::arithmetic::div_mod::lemma_small_mod(cut as nat, n as nat);
    assert((cut + i) % n == (cut + k) % n);
    if cut + k < n {
        vstd::arithmetic::div_mod::lemma_small_mod((cut + k) as nat, n as nat);
    } else {
        vstd::arithmetic::div_mod::lemma_mod_sub_multiples_vanish(cut + k, n);
        vstd::arithmetic::div_mod::lemma_small_mod((cut + k - n) as nat, n as nat);
    }
}

// ---- waveforms ------------------------------------------------------------------------------

/// How many samples stand in a column of a waveform of `len` samples.
pub open spec fn column_width(len: int, cols: int) -> int {
    let per = if cols < 1 {
        len
    } else {
        len / cols
    };
    if per < 1 {
        1
    } else {
        per
    }
}

/// The samples of the `x`th column.
pub open spec fn column(len: int, cols: int, x: int) -> (usize, usize) {
    let per = column_width(len, cols);
    let to = if (x + 1) * per < len {
        (x + 1) * per
    } else {
        len
    };
    ((x * per) as usize, to as usize)
}

/// Cuts a waveform of `len` samples into at most `cols` columns, each with the
/// samples from its first number up to its second. Short waveforms have fewer.
pub fn columns(len: usize, cols: usize) -> (r: Vec<(usize, usize)>)
    ensures
        r@.len() <= cols,
        r@.len() == cols || r@.len() * column_width(len as int, cols as int) >= len,
        forall|x: int|
            0 <= x < r@.len() ==> #[trigger] r@[x] == column(len as int, cols as int, x) && x
                * column_width(len as int, cols as int) < len,
{
    let whole: usize = if cols < 1 {
        len
    } else {
        len / cols
    };
    let per: usize = if whole < 1 {
        1
    } else {
        whole
    };
    let mut r: Vec<(usize, usize)> = Vec::new();
    let mut x: usize = 0;
    let mut from: usize = 0;
    while x < cols && from < len
        invariant
            x <= cols,
            r@.len() == x,
            per == column_width(len as int, cols as int),
            per >= 1,
            from <= len,
            x * per >= from,
            from < len ==> from == x * per,
            forall|k: int|
                0 <= k < x ==> #[trigger] r@[k] == column(len as int, cols as int, k) && k * per
                    < len,
        decreases cols - x,
    {
        let to: usize = if len - from > per {
            from + per
        } else {
            len
        };
        assert((x + 1) * per == x * per + per) by (nonlinear_arith);
        r.push((from, to));
        from = to;
        x = x + 1;
    }
    assert forall|k: int| 0 <= k < r@.len() implies #[trigger] r@[k] == column(
        len as int,
        cols as int,
        k,
    ) && k * column_width(len as int, cols as int) < len by {
        let c = r@[k];
        assert(c == column(len as int, cols as int, k) && k * per < len);
    }
    r
}

/// The columns of a waveform follow each other from its start and leave nothing
/// out between them.
pub proof fn law_columns_are_adjacent(len: int, cols: int, x: int)
    requires
        0 <= x,
        0 <= cols,
        0 <= len <= usize::MAX,
        (x + 1) * column_width(len, cols) < len,
    ensures
        column(len, cols, 0).0 == 0,
        column(len, cols, x).0 < column(len, cols, x).1,
        column(len, cols, x).1 == column(len, cols, x + 1).0,
{
    let per = column_width(len, cols);
    assert((x + 1) * per == x * per + per) by (nonlinear_arith);
    assert(0 <= x * per) by (nonlinear_arith)
        requires
            0 <= x,
            1 <= per,
    ;
    assert(0 * per == 0) by (nonlinear_arith);
}

/// Columns share a waveform out as evenly as they can: as many samples stand in each as
/// leave it no column short, and where there are more columns than samples each has one.
pub proof fn law_columns_share_the_waveform(len: int, cols: int)
    requires
        0 <= len,
        0 < cols,
    ensures
        ({
            let per = column_width(len, cols);
            &&& per >= 1
            &&& len >= cols ==> per * cols <= len < (per + 1) * cols
            &&& len < cols ==> per == 1
        }),
{
    let per = len / cols;
    vstd::arithmetic::div_mod::lemma_fundamental_div_mod(len, cols);
    vstd::arithmetic::div_mod::lemma_mod_bound(len, cols);
    assert(per * cols == cols * per) by (nonlinear_arith);
    assert((per + 1) * cols == per * cols + cols) by (nonlinear_arith);
    if len >= cols {
        assert(per >= 1) by (nonlinear_arith)
            requires
                len < per * cols + cols,
                len >= cols,
                cols > 0,
        ;
    } else {
        vstd::arithmetic::div_mod::lemma_small_mod(len as nat, cols as nat);
        assert(per < 1) by (nonlinear_arith)
            requires
                per * cols <= len,
                len < cols,
                cols > 0,
        ;
    }
}

} // verus!
