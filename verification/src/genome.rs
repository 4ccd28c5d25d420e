//! The genome: 16 normalized knobs, their table, and how they are written down.
//!
//! Only real values are made from what a knob's value is, from its bits as a single.
//! Everything else is generic over the values' type `T`; reading and showing a single
//! number is handed in as a function.

use crate::func::{of3, pure3};
pub use crate::notes::{midi_to_name, note_to_midi, NoteError};
use crate::single::{clamp, clamped, in_unit, is_number, law_clamping, less, same_value, HALF, ONE};
use crate::text::{
    chars_of, decimal_i32, find, find_from, int_text, int_to_string, is_digit, is_space,
    law_decimal_round_trip, law_text_is_split_at_its_separators, law_trimming_cuts_blanks_alone,
    lemma_nat_text, lemma_pieces_extend, lemma_pieces_nonempty, lemma_trim_plain, nat_text, only,
    parse_i32, pieces, split, string_of, texts, trim, trimmed, white,
};
use vstd::prelude::*;
use vstd::slice::slice_subrange;

verus! {

/// How many knobs a genome has.
pub const N_PARAMS: usize = 16;

/// Where the drive knob stands.
pub const DRIVE_IDX: usize = 6;

/// How many knobs a genome of the first engine had: all but the drive.
pub const N_LEGACY: usize = 15;

/// The knobs: name, lowest and highest real value in thousandths, and whether
/// the way between them is exponential.
pub const PARAMS: [(&'static str, i32, i32, bool); 16] = [
    ("osc1_wt", 0, 1000, false),
    ("osc2_wt", 0, 1000, false),
    ("osc2_detune", -50000, 50000, false),
    ("osc_mix", 0, 1000, false),
    ("sub_level", 0, 1000, false),
    ("noise_level", 0, 600, false),
    ("drive", 0, 1000, false),
    ("cutoff", 60000, 10000000, true),
    ("reso", 600, 9000, false),
    ("filt_env", 0, 1000, false),
    ("filt_a", 1, 400, true),
    ("filt_d", 20, 700, true),
    ("amp_a", 1, 400, true),
    ("amp_d", 20, 700, true),
    ("amp_s", 0, 1000, false),
    ("amp_r", 20, 700, true),
];

/// One value per knob, in the order of `PARAMS`.
pub type Genome<T> = [T; N_PARAMS];

/// Why a text is not a genome.
#[derive(Debug)]
pub enum PatchError {
    /// A field that is not a number.
    BadValue(String),
    /// A number of values that no engine had.
    WrongCount(usize),
}

// ---- upgrading -----------------------------------------------------------------------

/// The genome that a list of values stands for: the values themselves, or, for a
/// list of the first engine, the values with a neutral drive put in.
pub open spec fn upgraded<T>(vals: Seq<T>, zero: T) -> Option<Seq<T>> {
    if vals.len() == N_PARAMS {
        Some(vals)
    } else if vals.len() == N_LEGACY {
        Some(vals.insert(DRIVE_IDX as int, zero))
    } else {
        None
    }
}

/// The genome of a list of values; 15 values get a neutral drive.
pub fn upgrade<T: Copy>(vals: &[T], zero: T) -> (r: Result<Genome<T>, PatchError>)
    ensures
        match r {
            Ok(g) => upgraded(vals@, zero) == Some(g@),
            Err(e) => upgraded(vals@, zero) is None && e == PatchError::WrongCount(vals.len()),
        },
{
    let n: usize = vals.len();
    if n != N_PARAMS && n != N_LEGACY {
        return Err(PatchError::WrongCount(n));
    }
    let mut g: Genome<T> = [zero; N_PARAMS];
    let ghost want = upgraded(vals@, zero)->0;
    let mut i: usize = 0;
    while i < N_PARAMS
        invariant
            i <= N_PARAMS,
            n == vals@.len(),
            n == N_PARAMS || n == N_LEGACY,
            upgraded(vals@, zero) == Some(want),
            want.len() == N_PARAMS,
            forall|k: int| 0 <= k < i ==> g@[k] == want[k],
        decreases N_PARAMS - i,
    {
        if n == N_PARAMS || i < DRIVE_IDX {
            g[i] = vals[i];
        } else if i == DRIVE_IDX {
            g[i] = zero;
        } else {
            g[i] = vals[i - 1];
        }
        i = i + 1;
    }
    assert(g@ =~= want);
    Ok(g)
}

/// Upgrading a list of the first engine loses nothing: the new knob is neutral,
/// and without it the list is as it was.
pub proof fn law_upgrade_keeps_values<T>(vals: Seq<T>, zero: T)
    requires
        vals.len() == N_LEGACY,
    ensures
        upgraded(vals, zero) is Some,
        upgraded(vals, zero)->0.len() == N_PARAMS,
        upgraded(vals, zero)->0[DRIVE_IDX as int] == zero,
        upgraded(vals, zero)->0.remove(DRIVE_IDX as int) == vals,
{
    let g = vals.insert(DRIVE_IDX as int, zero);
    assert(g.remove(DRIVE_IDX as int) =~= vals);
}

// ---- real values -----------------------------------------------------------------------

/// The real value that a knob stands for: held in its range, exponentially or evenly
/// between its lowest and its highest.
pub open spec fn real_value<T, E: Fn(u32, i32, i32) -> T, L: Fn(u32, i32, i32) -> T>(
    exponential: E,
    even: L,
    i: int,
    v: u32,
) -> T {
    let (_, lo, hi, log) = PARAMS@[i];
    if log {
        of3(exponential, clamped(v), lo, hi)
    } else {
        of3(even, clamped(v), lo, hi)
    }
}

/// The real values of a genome, whose knobs are the bits of singles. `exponential` and
/// `even` take a knob's value and its lowest and highest real value in thousandths.
pub fn denorm<T: Copy, E: Fn(u32, i32, i32) -> T, L: Fn(u32, i32, i32) -> T>(
    g: &Genome<u32>,
    zero: T,
    exponential: E,
    even: L,
) -> (r: Genome<T>)
    requires
        pure3(exponential),
        pure3(even),
    ensures
        forall|i: int|
            0 <= i < N_PARAMS ==> #[trigger] r@[i] == real_value(exponential, even, i, g@[i]),
        forall|i: int|
            0 <= i < N_PARAMS ==> ({
                let (_, lo, hi, log) = PARAMS@[i];
                if log {
                    call_ensures(exponential, (clamped(g@[i]), lo, hi), #[trigger] r@[i])
                } else {
                    call_ensures(even, (clamped(g@[i]), lo, hi), r@[i])
                }
            }),
{
    let mut r: Genome<T> = [zero; 16];
    let mut i: usize = 0;
    while i < N_PARAMS
        invariant
            i <= N_PARAMS,
            pure3(exponential),
            pure3(even),
            forall|k: int|
                0 <= k < i ==> #[trigger] r@[k] == real_value(exponential, even, k, g@[k]),
            forall|k: int|
                0 <= k < i ==> ({
                    let (_, lo, hi, log) = PARAMS@[k];
                    if log {
                        call_ensures(exponential, (clamped(g@[k]), lo, hi), #[trigger] r@[k])
                    } else {
                        call_ensures(even, (clamped(g@[k]), lo, hi), r@[k])
                    }
                }),
        decreases N_PARAMS - i,
    {
        let (_, lo, hi, log) = PARAMS[i];
        let knob: u32 = clamp(g[i]);
        let v: T = if log {
            exponential(knob, lo, hi)
        } else {
            even(knob, lo, hi)
        };
        r[i] = v;
        i = i + 1;
    }
    r
}

/// Every knob has a way to go; the cutoff and the times of the envelopes go it
/// exponentially, and stay above zero.
pub proof fn law_params_are_ranges(i: int)
    requires
        0 <= i < N_PARAMS,
    ensures
        PARAMS@[i].1 < PARAMS@[i].2,
        PARAMS@[i].3 <==> i == 7 || 10 <= i <= 13 || i == 15,
        PARAMS@[i].3 ==> PARAMS@[i].1 > 0,
{
}

/// A knob's real value lies between its lowest and its highest wherever the knob is
/// turned, and does not fall as it is turned up, where between 0 and 1 both ways of going
/// from the one to the other are so.
pub proof fn law_knobs_keep_to_their_ways<
    T,
    E: Fn(u32, i32, i32) -> T,
    L: Fn(u32, i32, i32) -> T,
>(
    exponential: E,
    even: L,
    i: int,
    v: u32,
    w: u32,
    within: spec_fn(T, i32, i32) -> bool,
    up_to: spec_fn(T, T) -> bool,
)
    requires
        0 <= i < N_PARAMS,
        is_number(v),
        is_number(w),
        forall|v: u32, lo: i32, hi: i32|
            in_unit(v) && lo < hi ==> #[trigger] within(of3(even, v, lo, hi), lo, hi),
        forall|v: u32, lo: i32, hi: i32|
            in_unit(v) && 0 < lo < hi ==> #[trigger] within(of3(exponential, v, lo, hi), lo, hi),
        forall|v: u32, w: u32, lo: i32, hi: i32|
            in_unit(v) && in_unit(w) && !less(w, v) && lo < hi ==> #[trigger] up_to(
                of3(even, v, lo, hi),
                of3(even, w, lo, hi),
            ),
        forall|v: u32, w: u32, lo: i32, hi: i32|
            in_unit(v) && in_unit(w) && !less(w, v) && 0 < lo < hi ==> #[trigger] up_to(
                of3(exponential, v, lo, hi),
                of3(exponential, w, lo, hi),
            ),
    ensures
        within(real_value(exponential, even, i, v), PARAMS@[i].1, PARAMS@[i].2),
        !less(w, v) ==> up_to(
            real_value(exponential, even, i, v),
            real_value(exponential, even, i, w),
        ),
{
    law_params_are_ranges(i);
    law_clamping(v, w);
    law_clamping(w, v);
}

/// A knob at or below 0 gives what its way gives at its lower end, one at or above 1 what
/// it gives at its upper end, and one at one half what it gives halfway. `equals` tells
/// that a value is so many thousandths, `mean` and `root` that it lies evenly or
/// exponentially halfway between two.
pub proof fn law_knobs_reach_their_ends<T, E: Fn(u32, i32, i32) -> T, L: Fn(u32, i32, i32) -> T>(
    exponential: E,
    even: L,
    i: int,
    v: u32,
    equals: spec_fn(T, i32) -> bool,
    mean: spec_fn(T, i32, i32) -> bool,
    root: spec_fn(T, i32, i32) -> bool,
)
    requires
        0 <= i < N_PARAMS,
        is_number(v),
        forall|v: u32, lo: i32, hi: i32|
            lo < hi ==> {
                let r = #[trigger] of3(even, v, lo, hi);
                &&& same_value(v, 0) ==> equals(r, lo)
                &&& same_value(v, ONE) ==> equals(r, hi)
                &&& same_value(v, HALF) ==> mean(r, lo, hi)
            },
        forall|v: u32, lo: i32, hi: i32|
            0 < lo < hi ==> {
                let r = #[trigger] of3(exponential, v, lo, hi);
                &&& same_value(v, 0) ==> equals(r, lo)
                &&& same_value(v, ONE) ==> equals(r, hi)
                &&& same_value(v, HALF) ==> root(r, lo, hi)
            },
    ensures
        ({
            let (_, lo, hi, log) = PARAMS@[i];
            let r = real_value(exponential, even, i, v);
            &&& !less(0, v) ==> equals(r, lo)
            &&& !less(v, ONE) ==> equals(r, hi)
            &&& same_value(v, HALF) && log ==> root(r, lo, hi)
            &&& same_value(v, HALF) && !log ==> mean(r, lo, hi)
        }),
{
    law_params_are_ranges(i);
}

// ---- reading a patch ---------------------------------------------------------------------

/// What a patch text holds: its fields in order, and its note if it tells one.
pub struct PatchText {
    pub values: Seq<Seq<char>>,
    pub note: Option<i32>,
}

/// White space and commas stand between fields.
pub open spec fn field_break() -> spec_fn(char) -> bool {
    |c: char| is_space(c) || c == ','
}

/// The fields of a line: its nonempty pieces.
pub open spec fn fields(line: Seq<char>) -> Seq<Seq<char>> {
    pieces(line, field_break()).filter(|p: Seq<char>| p.len() > 0)
}

/// The text that announces the note in a comment.
pub open spec fn note_mark() -> Seq<char> {
    seq!['n', 'o', 't', 'e', '=']
}

/// The text between the first note mark and the next one, if there is a mark.
pub open spec fn after_mark(s: Seq<char>) -> Option<Seq<char>> {
    match find_from(s, note_mark(), 0) {
        None => None,
        Some(i) => {
            let rest = s.skip(i + 5);
            match find_from(rest, note_mark(), 0) {
                None => Some(rest),
                Some(j) => Some(rest.take(j)),
            }
        },
    }
}

/// What one more line adds: a comment may set the note (or, if what it tells is
/// no number, unset it), any other line adds its fields.
pub open spec fn read_line(p: PatchText, line: Seq<char>) -> PatchText {
    let l = trimmed(line);
    if l.len() > 0 && l[0] == '#' {
        match after_mark(l.drop_first()) {
            Some(n) => PatchText { values: p.values, note: decimal_i32(trimmed(n)) },
            None => p,
        }
    } else {
        PatchText { values: p.values + fields(l), note: p.note }
    }
}

/// What a list of lines holds.
pub open spec fn read_lines(lines: Seq<Seq<char>>) -> PatchText
    decreases lines.len(),
{
    if lines.len() == 0 {
        PatchText { values: Seq::empty(), note: None }
    } else {
        read_line(read_lines(lines.drop_last()), lines.last())
    }
}

/// What a patch text holds.
pub open spec fn patch_text(text: Seq<char>) -> PatchText {
    read_lines(pieces(text, only('\n')))
}

fn note_mark_chars() -> (v: Vec<char>)
    ensures
        v@ == note_mark(),
{
    let mut v: Vec<char> = Vec::new();
    v.push('n');
    v.push('o');
    v.push('t');
    v.push('e');
    v.push('=');
    assert(v@ =~= note_mark());
    v
}

/// Appends the fields of a line to a list.
fn push_fields(line: &[char], out: &mut Vec<String>)
    ensures
        texts(final(out)@) == texts(old(out)@) + fields(line@),
{
    let ghost nonempty = |p: Seq<char>| p.len() > 0;
    let ghost start = texts(out@);
    let ghost mut done: Seq<Seq<char>> = Seq::empty();
    let mut cur: Vec<char> = Vec::new();
    let mut i: usize = 0;
    assert(pieces(line@.take(0), field_break()) =~= done.push(cur@));
    assert(done.filter(nonempty) =~= Seq::<Seq<char>>::empty()) by {
        reveal(Seq::filter);
    }
    assert(texts(out@) =~= start + done.filter(nonempty));
    while i < line.len()
        invariant
            i <= line@.len(),
            pieces(line@.take(i as int), field_break()) == done.push(cur@),
            nonempty == (|p: Seq<char>| p.len() > 0),
            texts(out@) == start + done.filter(nonempty),
        decreases line@.len() - i,
    {
        let c: char = line[i];
        assert(line@.take(i + 1).drop_last() =~= line@.take(i as int));
        assert(done.push(cur@).drop_last() =~= done);
        if white(c) || c == ',' {
            let ghost before = texts(out@);
            proof {
                reveal(Seq::filter);
                done = done.push(cur@);
            }
            assert(done.drop_last() =~= pieces(line@.take(i as int), field_break()).drop_last());
            if cur.len() > 0 {
                out.push(string_of(cur.as_slice()));
                assert(texts(out@) =~= before.push(cur@));
            }
            assert(texts(out@) =~= start + done.filter(nonempty));
            cur = Vec::new();
        } else {
            cur.push(c);
        }
        i = i + 1;
    }
    assert(line@.take(line@.len() as int) =~= line@);
    let ghost before = texts(out@);
    proof {
        reveal(Seq::filter);
    }
    assert(done.push(cur@).drop_last() =~= done);
    if cur.len() > 0 {
        out.push(string_of(cur.as_slice()));
        assert(texts(out@) =~= before.push(cur@));
    }
    assert(texts(out@) =~= start + done.push(cur@).filter(nonempty));
}

/// The note that a comment tells, if it has a mark: the number after the mark,
/// or nothing where that is no number.
fn comment_note(rest: &[char]) -> (r: Option<Option<i32>>)
    ensures
        r == (match after_mark(rest@) {
            Some(n) => Some(decimal_i32(trimmed(n))),
            None => None,
        }),
{
    let mark = note_mark_chars();
    let n: usize = rest.len();
    assert(mark@.len() == 5);
    match find(rest, mark.as_slice()) {
        None => None,
        Some(i) => {
            let tail = slice_subrange(rest, i + 5, n);
            assert(tail@ =~= rest@.skip(i + 5));
            match find(tail, mark.as_slice()) {
                None => Some(parse_i32(trim(tail))),
                Some(j) => {
                    let head = slice_subrange(tail, 0, j);
                    assert(head@ =~= tail@.take(j as int));
                    Some(parse_i32(trim(head)))
                },
            }
        },
    }
}

/// The fields of a patch text and its note.
pub fn patch_fields(text: &str) -> (r: (Vec<String>, Option<i32>))
    ensures
        texts(r.0@) == patch_text(text@).values,
        r.1 == patch_text(text@).note,
{
    let all = chars_of(text);
    let lines = split(all.as_slice(), '\n');
    let ghost ls = pieces(text@, only('\n'));
    let mut values: Vec<String> = Vec::new();
    let mut note: Option<i32> = None;
    let mut i: usize = 0;
    assert(texts(values@) =~= read_lines(ls.take(0)).values);
    while i < lines.len()
        invariant
            i <= lines@.len(),
            lines@.map_values(|v: Vec<char>| v@) == ls,
            texts(values@) == read_lines(ls.take(i as int)).values,
            note == read_lines(ls.take(i as int)).note,
        decreases lines@.len() - i,
    {
        assert(ls.take(i + 1).drop_last() =~= ls.take(i as int));
        assert(ls[i as int] == lines@[i as int]@);
        let line = trim(lines[i].as_slice());
        if line.len() > 0 && line[0] == '#' {
            let rest = slice_subrange(line, 1, line.len());
            assert(rest@ =~= line@.drop_first());
            match comment_note(rest) {
                Some(n) => {
                    note = n;
                },
                None => {},
            }
        } else {
            push_fields(line, &mut values);
        }
        i = i + 1;
    }
    assert(ls.take(ls.len() as int) =~= ls);
    (values, note)
}

// ---- loading -------------------------------------------------------------------------------

/// `parse` may read the field `f` as `v`.
pub open spec fn reads<T, F: Fn(&str) -> Option<T>>(parse: F, f: Seq<char>, v: Option<T>) -> bool {
    exists|s: &str| s@ == f && #[trigger] call_ensures(parse, (s,), v)
}

/// `g` is the genome of the numbers that `parse` reads in the fields.
pub open spec fn loads<T, F: Fn(&str) -> Option<T>>(
    parse: F,
    zero: T,
    fs: Seq<Seq<char>>,
    g: Seq<T>,
) -> bool {
    exists|vals: Seq<T>|
        {
            &&& vals.len() == fs.len()
            &&& forall|i: int| 0 <= i < vals.len() ==> reads(parse, fs[i], Some(#[trigger] vals[i]))
            &&& #[trigger] upgraded(vals, zero) == Some(g)
        }
}

/// `parse` may read a number in the field `f`.
pub open spec fn reads_number<T, F: Fn(&str) -> Option<T>>(parse: F, f: Seq<char>) -> bool {
    exists|v: T| reads(parse, f, Some(v))
}

/// `parse` reads a number in every field before the `n`th.
pub open spec fn numbers<T, F: Fn(&str) -> Option<T>>(parse: F, fs: Seq<Seq<char>>, n: int) -> bool {
    forall|i: int| 0 <= i < n ==> reads_number(parse, #[trigger] fs[i])
}

/// `f` is the first field in which `parse` reads no number.
pub open spec fn stumbles<T, F: Fn(&str) -> Option<T>>(
    parse: F,
    fs: Seq<Seq<char>>,
    f: Seq<char>,
) -> bool {
    exists|k: int|
        {
            &&& 0 <= k < fs.len()
            &&& f == #[trigger] fs[k]
            &&& reads(parse, fs[k], None::<T>)
            &&& numbers(parse, fs, k)
        }
}

/// What becomes of a patch text: the genome and the note, or why there is none. The
/// first field that is no number is reported before a wrong count.
pub open spec fn patch_loaded<T, F: Fn(&str) -> Option<T>>(
    parse: F,
    zero: T,
    text: Seq<char>,
    r: Result<(Genome<T>, Option<i32>), PatchError>,
) -> bool {
    let fs = patch_text(text).values;
    match r {
        Ok((g, note)) => loads(parse, zero, fs, g@) && note == patch_text(text).note,
        Err(PatchError::BadValue(f)) => stumbles(parse, fs, f@),
        Err(PatchError::WrongCount(n)) => {
            &&& n == fs.len()
            &&& n != N_PARAMS && n != N_LEGACY
            &&& numbers(parse, fs, n as int)
        },
    }
}

/// The genome and the note of a patch text, `parse` reading one field as a number.
pub fn load_with_note<T: Copy, F: Fn(&str) -> Option<T>>(text: &str, parse: F, zero: T) -> (r:
    Result<(Genome<T>, Option<i32>), PatchError>)
    requires
        forall|s: &str| call_requires(parse, (s,)),
    ensures
        patch_loaded(parse, zero, text@, r),
{
    let (parts, note) = patch_fields(text);
    let ghost want = patch_text(text@).values;
    let mut vals: Vec<T> = Vec::new();
    let mut i: usize = 0;
    while i < parts.len()
        invariant
            i <= parts@.len(),
            texts(parts@) == want,
            want == patch_text(text@).values,
            vals@.len() == i,
            forall|s: &str| call_requires(parse, (s,)),
            forall|k: int| 0 <= k < i ==> reads(parse, want[k], Some(#[trigger] vals@[k])),
        decreases parts@.len() - i,
    {
        assert(want[i as int] == parts@[i as int]@);
        let part = parts[i].as_str();
        let v = parse(part);
        assert(reads(parse, want[i as int], v));
        match v {
            Some(x) => {
                vals.push(x);
            },
            None => {
                let bad = string_of(chars_of(part).as_slice());
                assert(numbers(parse, want, i as int)) by {
                    assert forall|k: int| 0 <= k < i implies reads_number(
                        parse,
                        #[trigger] want[k],
                    ) by {
                        assert(reads(parse, want[k], Some(vals@[k])));
                    }
                }
                return Err(PatchError::BadValue(bad));
            },
        }
        i = i + 1;
    }
    assert(numbers(parse, want, i as int)) by {
        assert forall|k: int| 0 <= k < i implies reads_number(
            parse,
            #[trigger] want[k],
        ) by {
            assert(reads(parse, want[k], Some(vals@[k])));
        }
    }
    match upgrade(vals.as_slice(), zero) {
        Ok(g) => {
            assert(upgraded(vals@, zero) == Some(g@));
            Ok((g, note))
        },
        Err(e) => Err(e),
    }
}

/// The genome of a patch text; like `load_with_note`, without the note.
pub fn load<T: Copy, F: Fn(&str) -> Option<T>>(text: &str, parse: F, zero: T) -> (r: Result<
    Genome<T>,
    PatchError,
>)
    requires
        forall|s: &str| call_requires(parse, (s,)),
    ensures
        patch_loaded(
            parse,
            zero,
            text@,
            match r {
                Ok(g) => Ok((g, patch_text(text@).note)),
                Err(e) => Err(e),
            },
        ),
{
    match load_with_note(text, parse, zero) {
        Ok((g, _)) => Ok(g),
        Err(e) => Err(e),
    }
}

/// An inline genome as patch text: commas become spaces.
pub fn inline_text(spec: &str) -> (r: String)
    ensures
        r@ == spec@.map_values(
            |c: char|
                if c == ',' {
                    ' '
                } else {
                    c
                },
        ),
{
    let mut r = String::new();
    let cs = chars_of(spec);
    let mut i: usize = 0;
    while i < cs.len()
        invariant
            i <= cs@.len(),
            cs@ == spec@,
            r@.len() == i,
            forall|k: int|
                0 <= k < i ==> #[trigger] r@[k] == (if cs@[k] == ',' {
                    ' '
                } else {
                    cs@[k]
                }),
        decreases cs@.len() - i,
    {
        if cs[i] == ',' {
            r.push(' ');
        } else {
            r.push(cs[i]);
        }
        i = i + 1;
    }
    r
}

// ---- saving ------------------------------------------------------------------------------------

/// One line per value.
pub open spec fn lines_text(vals: Seq<Seq<char>>) -> Seq<char>
    decreases vals.len(),
{
    if vals.len() == 0 {
        Seq::empty()
    } else {
        lines_text(vals.drop_last()) + vals.last() + seq!['\n']
    }
}

/// The comment line that opens a saved patch and tells its note.
pub open spec fn patch_header(note: int) -> Seq<char> {
    "# synfection patch  note="@ + int_text(note) + seq!['\n']
}

/// `show` may write the value `v` as `s`.
pub open spec fn shows<T, F: Fn(T) -> String>(show: F, v: T, s: Seq<char>) -> bool {
    exists|t: String| t@ == s && #[trigger] call_ensures(show, (v,), t)
}

/// `text` is `head` and then, each on its line, what `show` writes for the values of
/// a genome.
pub open spec fn saved<T, F: Fn(T) -> String>(
    show: F,
    g: Seq<T>,
    head: Seq<char>,
    text: Seq<char>,
) -> bool {
    exists|vals: Seq<Seq<char>>|
        {
            &&& vals.len() == N_PARAMS
            &&& forall|i: int| 0 <= i < N_PARAMS ==> shows(show, g[i], #[trigger] vals[i])
            &&& text == head + #[trigger] lines_text(vals)
        }
}

/// The text of a genome: one value per line, `show` writing one value.
pub fn save<T: Copy, F: Fn(T) -> String>(g: &Genome<T>, show: F) -> (r: String)
    requires
        forall|v: T| call_requires(show, (v,)),
    ensures
        saved(show, g@, Seq::empty(), r@),
{
    let mut r = String::new();
    let ghost mut vals: Seq<Seq<char>> = Seq::empty();
    let mut i: usize = 0;
    while i < N_PARAMS
        invariant
            i <= N_PARAMS,
            forall|v: T| call_requires(show, (v,)),
            vals.len() == i,
            forall|k: int| 0 <= k < i ==> shows(show, g@[k], #[trigger] vals[k]),
            r@ == lines_text(vals),
        decreases N_PARAMS - i,
    {
        let line = show(g[i]);
        assert(shows(show, g@[i as int], line@));
        r.append(line.as_str());
        r.push('\n');
        proof {
            let before = vals;
            vals = vals.push(line@);
            assert(vals.drop_last() =~= before);
            assert(r@ =~= lines_text(vals));
        }
        i = i + 1;
    }
    assert(Seq::<char>::empty() + lines_text(vals) =~= r@);
    r
}

/// The text of a patch: a comment line with the note, then the genome.
pub fn save_patch<T: Copy, F: Fn(T) -> String>(g: &Genome<T>, note: i32, show: F) -> (r: String)
    requires
        forall|v: T| call_requires(show, (v,)),
    ensures
        saved(show, g@, patch_header(note as int), r@),
{
    let mut r = String::new();
    r.append("# synfection patch  note=");
    let n = int_to_string(note);
    r.append(n.as_str());
    r.push('\n');
    assert(r@ =~= patch_header(note as int));
    let body = save(g, show);
    r.append(body.as_str());
    proof {
        let vals = choose|vals: Seq<Seq<char>>|
            {
                &&& vals.len() == N_PARAMS
                &&& forall|i: int| 0 <= i < N_PARAMS ==> shows(show, g@[i], #[trigger] vals[i])
                &&& body@ == Seq::<char>::empty() + #[trigger] lines_text(vals)
            };
        assert(body@ =~= lines_text(vals));
        assert(r@ =~= patch_header(note as int) + lines_text(vals));
    }
    r
}

// ---- what is saved is what is loaded -------------------------------------------------------------

/// A field that stands on a line of its own: not empty, no separator in it, and
/// no comment mark in front.
pub open spec fn plain_field(f: Seq<char>) -> bool {
    &&& f.len() > 0
    &&& f[0] != '#'
    &&& forall|i: int| 0 <= i < f.len() ==> !is_space(#[trigger] f[i]) && f[i] != ','
}

proof fn lemma_fields_plain(f: Seq<char>)
    requires
        plain_field(f),
    ensures
        trimmed(f) == f,
        fields(f) == seq![f],
{
    assert(!is_space(f[0]) && !is_space(f[f.len() - 1]));
    lemma_trim_plain(f);
    let nothing = Seq::<char>::empty();
    assert forall|i: int| 0 <= i < f.len() implies !field_break()(#[trigger] f[i]) by {}
    lemma_pieces_extend(nothing, f, field_break());
    assert(nothing + f =~= f);
    let p = pieces(nothing, field_break());
    assert(p =~= seq![nothing]);
    assert(p.last() + f =~= f);
    assert(pieces(f, field_break()) =~= seq![f]);
    reveal(Seq::filter);
    assert(seq![f].drop_last() =~= Seq::<Seq<char>>::empty());
    assert(fields(f) =~= seq![f]);
}

proof fn lemma_fields_empty()
    ensures
        fields(Seq::<char>::empty()) == Seq::<Seq<char>>::empty(),
{
    let nothing = Seq::<char>::empty();
    let none = Seq::<Seq<char>>::empty();
    let nonempty = |p: Seq<char>| p.len() > 0;
    reveal(Seq::filter);
    let p = pieces(nothing, field_break());
    assert(p.len() == 1 && p[0].len() == 0);
    assert(p.drop_last() =~= none);
    assert(none.filter(nonempty) =~= none);
    assert(p.filter(nonempty) =~= none);
}

/// Lines written behind text that ends a line are split off one by one.
proof fn lemma_split_lines(pre: Seq<char>, head: Seq<Seq<char>>, vals: Seq<Seq<char>>)
    requires
        pieces(pre, only('\n')) == head.push(Seq::<char>::empty()),
        forall|i: int| 0 <= i < vals.len() ==> plain_field(#[trigger] vals[i]),
    ensures
        pieces(pre + lines_text(vals), only('\n')) == (head + vals).push(Seq::<char>::empty()),
    decreases vals.len(),
{
    let nothing = Seq::<char>::empty();
    if vals.len() == 0 {
        assert(pre + lines_text(vals) =~= pre);
        assert(head + vals =~= head);
    } else {
        let front = vals.drop_last();
        let v = vals.last();
        assert forall|i: int| 0 <= i < front.len() implies plain_field(#[trigger] front[i]) by {
            assert(front[i] == vals[i]);
        }
        lemma_split_lines(pre, head, front);
        let t = pre + lines_text(front);
        assert(plain_field(vals[vals.len() - 1]));
        assert forall|i: int| 0 <= i < v.len() implies !only('\n')(#[trigger] v[i]) by {
            assert(!is_space(v[i]));
        }
        lemma_pieces_extend(t, v, only('\n'));
        let q = (head + front).push(nothing);
        assert(q.drop_last() =~= head + front);
        assert(q.last() + v =~= v);
        let whole = pre + lines_text(vals);
        assert(whole.drop_last() =~= t + v);
        assert(whole.last() == '\n');
        assert((head + front).push(v) =~= head + vals);
    }
}

/// Lines of plain fields add those fields, and an empty last line adds nothing.
proof fn lemma_read_values(head: Seq<Seq<char>>, vals: Seq<Seq<char>>)
    requires
        forall|i: int| 0 <= i < vals.len() ==> plain_field(#[trigger] vals[i]),
    ensures
        read_lines(head + vals).values == read_lines(head).values + vals,
        read_lines(head + vals).note == read_lines(head).note,
    decreases vals.len(),
{
    if vals.len() == 0 {
        assert(head + vals =~= head);
        assert(read_lines(head).values + vals =~= read_lines(head).values);
    } else {
        let front = vals.drop_last();
        assert forall|i: int| 0 <= i < front.len() implies plain_field(#[trigger] front[i]) by {
            assert(front[i] == vals[i]);
        }
        lemma_read_values(head, front);
        assert((head + vals).drop_last() =~= head + front);
        assert(plain_field(vals[vals.len() - 1]));
        lemma_fields_plain(vals.last());
        assert(read_lines(head).values + front + seq![vals.last()] =~= read_lines(head).values
            + vals);
    }
}

proof fn lemma_find_mark(s: Seq<char>, from: int, at: int)
    requires
        0 <= from <= at,
        at + 5 <= s.len(),
        s.subrange(at, at + 5) == note_mark(),
        forall|i: int| from <= i < at ==> #[trigger] s[i + 4] != '=',
    ensures
        find_from(s, note_mark(), from) == Some(at),
    decreases at - from,
{
    if from < at {
        assert(s.subrange(from, from + 5)[4] == s[from + 4]);
        assert(note_mark()[4] == '=');
        lemma_find_mark(s, from + 1, at);
    }
}

proof fn lemma_find_no_mark(s: Seq<char>, from: int)
    requires
        0 <= from,
        forall|i: int| from <= i < s.len() ==> #[trigger] s[i] != '=',
    ensures
        find_from(s, note_mark(), from) is None,
    decreases s.len() - from,
{
    if from + 5 <= s.len() {
        assert(s.subrange(from, from + 5)[4] == s[from + 4]);
        assert(note_mark()[4] == '=');
        lemma_find_no_mark(s, from + 1);
    }
}

/// The text of a number holds digits and at most a minus sign, so no space, no
/// line end and no `=`.
proof fn lemma_int_text_chars(n: int)
    ensures
        int_text(n).len() > 0,
        forall|i: int|
            0 <= i < int_text(n).len() ==> is_digit(#[trigger] int_text(n)[i]) || int_text(n)[i]
                == '-',
{
    if n < 0 {
        lemma_nat_text((-n) as nat);
        let d = nat_text((-n) as nat);
        assert forall|i: int| 0 <= i < int_text(n).len() implies is_digit(#[trigger] int_text(n)[i])
            || int_text(n)[i] == '-' by {
            if i > 0 {
                assert(int_text(n)[i] == d[i - 1]);
            }
        }
    } else {
        lemma_nat_text(n as nat);
    }
}

proof fn lemma_read_header(note: i32)
    ensures
        pieces(patch_header(note as int), only('\n')) == seq![
            patch_header(note as int).drop_last(),
            Seq::<char>::empty(),
        ],
        read_lines(seq![patch_header(note as int).drop_last()]) == (PatchText {
            values: Seq::<Seq<char>>::empty(),
            note: Some(note),
        }),
{
    reveal_strlit("# synfection patch  note=");
    let lead = "# synfection patch  note="@;
    let num = int_text(note as int);
    let h = lead + num;
    let nothing = Seq::<char>::empty();
    lemma_int_text_chars(note as int);
    assert(patch_header(note as int).drop_last() =~= h);
    // no line end in the comment
    assert forall|i: int| 0 <= i < h.len() implies !only('\n')(#[trigger] h[i]) by {
        if i >= 25 {
            assert(h[i] == num[i - 25]);
        }
    }
    lemma_pieces_extend(nothing, h, only('\n'));
    assert(nothing + h =~= h);
    assert(pieces(nothing, only('\n')) =~= seq![nothing]);
    assert(nothing + h =~= h);
    assert(pieces(h, only('\n')) =~= seq![h]);
    assert(seq![h].push(nothing) =~= seq![h, nothing]);
    // the comment's note
    assert(h[0] == '#');
    assert(h.last() == num.last());
    assert(is_digit(num[num.len() - 1]) || num[num.len() - 1] == '-');
    lemma_trim_plain(h);
    let rest = h.drop_first();
    assert(rest.subrange(19, 24) =~= note_mark());
    assert forall|i: int| 0 <= i < 19 implies #[trigger] rest[i + 4] != '=' by {
        assert(rest[i + 4] == lead[i + 5]);
    }
    lemma_find_mark(rest, 0, 19);
    assert(rest.skip(24) =~= num);
    assert forall|i: int| 0 <= i < num.len() implies #[trigger] num[i] != '=' by {
        assert(is_digit(num[i]) || num[i] == '-');
    }
    lemma_find_no_mark(num, 0);
    assert(is_digit(num[0]) || num[0] == '-');
    lemma_trim_plain(num);
    law_decimal_round_trip(note);
    let one = seq![h];
    let none = Seq::<Seq<char>>::empty();
    assert(one.drop_last() =~= none);
    assert(read_lines(none) == (PatchText { values: none, note: None }));
    assert(trimmed(one.last()) == h);
    assert(after_mark(rest) == Some(num));
}

/// A saved patch reads back as it was: the same fields in the same order, and
/// the same note.
pub proof fn law_patch_round_trip(note: i32, vals: Seq<Seq<char>>)
    requires
        forall|i: int| 0 <= i < vals.len() ==> plain_field(#[trigger] vals[i]),
    ensures
        patch_text(patch_header(note as int) + lines_text(vals)) == (PatchText {
            values: vals,
            note: Some(note),
        }),
{
    let pre = patch_header(note as int);
    let h = seq![pre.drop_last()];
    let nothing = Seq::<char>::empty();
    lemma_read_header(note);
    assert(h.push(nothing) =~= seq![pre.drop_last(), nothing]);
    lemma_split_lines(pre, h, vals);
    lemma_read_values(h, vals);
    lemma_fields_empty();
    let all = (h + vals).push(nothing);
    assert(all.drop_last() =~= h + vals);
    assert(trimmed(nothing) =~= nothing);
    assert(Seq::<Seq<char>>::empty() + vals =~= vals);
    assert(vals + Seq::<Seq<char>>::empty() =~= vals);
}

/// A genome saved without a note reads back as it was, without a note.
pub proof fn law_genome_round_trip(vals: Seq<Seq<char>>)
    requires
        forall|i: int| 0 <= i < vals.len() ==> plain_field(#[trigger] vals[i]),
    ensures
        patch_text(lines_text(vals)) == (PatchText { values: vals, note: None }),
{
    let nothing = Seq::<char>::empty();
    let none = Seq::<Seq<char>>::empty();
    assert(pieces(nothing, only('\n')) =~= none.push(nothing));
    lemma_split_lines(nothing, none, vals);
    assert(nothing + lines_text(vals) =~= lines_text(vals));
    lemma_read_values(none, vals);
    lemma_fields_empty();
    let all = (none + vals).push(nothing);
    assert(all.drop_last() =~= none + vals);
    assert(trimmed(nothing) =~= nothing);
    assert(none + vals =~= vals);
    assert(vals + none =~= vals);
}

/// Every knob of the one is close to that of the other.
pub open spec fn all_close<T>(close: spec_fn(T, T) -> bool, g: Seq<T>, h: Seq<T>) -> bool {
    &&& g.len() == h.len()
    &&& forall|i: int| 0 <= i < g.len() ==> close(g[i], #[trigger] h[i])
}

/// Where `show` writes plain fields, in which `parse` reads a number close to what was
/// shown, a saved patch loads back: every knob close to what it was, and the note.
pub proof fn law_saved_patch_loads_back<T, P: Fn(&str) -> Option<T>, S: Fn(T) -> String>(
    parse: P,
    show: S,
    close: spec_fn(T, T) -> bool,
    zero: T,
    g: Genome<T>,
    note: i32,
    text: Seq<char>,
    r: Result<(Genome<T>, Option<i32>), PatchError>,
)
    requires
        forall|v: T, s: Seq<char>| #[trigger] shows(show, v, s) ==> plain_field(s),
        forall|v: T, s: Seq<char>, x: Option<T>|
            #[trigger] shows(show, v, s) && #[trigger] reads(parse, s, x) ==> (x matches Some(w)
                && close(v, w)),
        saved(show, g@, patch_header(note as int), text),
        patch_loaded(parse, zero, text, r),
    ensures
        r matches Ok((h, n)) && n == Some(note) && all_close(close, g@, h@),
{
    let vals = choose|vals: Seq<Seq<char>>|
        {
            &&& vals.len() == N_PARAMS
            &&& forall|i: int| 0 <= i < N_PARAMS ==> shows(show, g@[i], #[trigger] vals[i])
            &&& text == patch_header(note as int) + #[trigger] lines_text(vals)
        };
    law_patch_round_trip(note, vals);
    lemma_shown_values_load(parse, show, close, zero, g, text, vals, r);
}

/// Under the same conditions a genome saved without a note loads back without one.
pub proof fn law_saved_genome_loads_back<T, P: Fn(&str) -> Option<T>, S: Fn(T) -> String>(
    parse: P,
    show: S,
    close: spec_fn(T, T) -> bool,
    zero: T,
    g: Genome<T>,
    text: Seq<char>,
    r: Result<(Genome<T>, Option<i32>), PatchError>,
)
    requires
        forall|v: T, s: Seq<char>| #[trigger] shows(show, v, s) ==> plain_field(s),
        forall|v: T, s: Seq<char>, x: Option<T>|
            #[trigger] shows(show, v, s) && #[trigger] reads(parse, s, x) ==> (x matches Some(w)
                && close(v, w)),
        saved(show, g@, Seq::empty(), text),
        patch_loaded(parse, zero, text, r),
    ensures
        r matches Ok((h, n)) && n is None && all_close(close, g@, h@),
{
    let vals = choose|vals: Seq<Seq<char>>|
        {
            &&& vals.len() == N_PARAMS
            &&& forall|i: int| 0 <= i < N_PARAMS ==> shows(show, g@[i], #[trigger] vals[i])
            &&& text == Seq::<char>::empty() + #[trigger] lines_text(vals)
        };
    assert(text =~= lines_text(vals));
    law_genome_round_trip(vals);
    lemma_shown_values_load(parse, show, close, zero, g, text, vals, r);
}

/// A text that holds just what was shown loads as something close to it.
proof fn lemma_shown_values_load<T, P: Fn(&str) -> Option<T>, S: Fn(T) -> String>(
    parse: P,
    show: S,
    close: spec_fn(T, T) -> bool,
    zero: T,
    g: Genome<T>,
    text: Seq<char>,
    vals: Seq<Seq<char>>,
    r: Result<(Genome<T>, Option<i32>), PatchError>,
)
    requires
        forall|v: T, s: Seq<char>, x: Option<T>|
            #[trigger] shows(show, v, s) && #[trigger] reads(parse, s, x) ==> (x matches Some(w)
                && close(v, w)),
        vals.len() == N_PARAMS,
        forall|i: int| 0 <= i < N_PARAMS ==> shows(show, g@[i], #[trigger] vals[i]),
        patch_text(text).values == vals,
        patch_loaded(parse, zero, text, r),
    ensures
        r matches Ok((h, n)) && n == patch_text(text).note && all_close(close, g@, h@),
{
    match r {
        Ok((h, n)) => {
            let xs = choose|xs: Seq<T>|
                {
                    &&& xs.len() == vals.len()
                    &&& forall|i: int|
                        0 <= i < xs.len() ==> reads(parse, vals[i], Some(#[trigger] xs[i]))
                    &&& #[trigger] upgraded(xs, zero) == Some(h@)
                };
            assert forall|i: int| 0 <= i < N_PARAMS implies close(g@[i], #[trigger] h@[i]) by {
                assert(shows(show, g@[i], vals[i]));
                assert(reads(parse, vals[i], Some(xs[i])));
            }
        },
        Err(PatchError::BadValue(f)) => {
            let k = choose|k: int|
                {
                    &&& 0 <= k < vals.len()
                    &&& f@ == #[trigger] vals[k]
                    &&& reads(parse, vals[k], None::<T>)
                    &&& numbers(parse, vals, k)
                };
            assert(shows(show, g@[k], vals[k]));
            assert(reads(parse, vals[k], None::<T>));
        },
        Err(PatchError::WrongCount(n)) => {},
    }
}

// ---- what the parts come to -----------------------------------------------------------------

/// Only a list of sixteen values or of fifteen is a genome. Of sixteen every value keeps its
/// place; of fifteen those from the seventh on make room for a neutral drive.
pub proof fn law_values_keep_their_places<T>(vals: Seq<T>, zero: T, i: int)
    requires
        0 <= i < 16,
    ensures
        upgraded(vals, zero) is Some <==> vals.len() == 16 || vals.len() == 15,
        upgraded(vals, zero) matches Some(g) ==> {
            &&& g.len() == 16
            &&& vals.len() == 16 ==> g[i] == vals[i]
            &&& vals.len() == 15 && i < 6 ==> g[i] == vals[i]
            &&& vals.len() == 15 && i == 6 ==> g[i] == zero
            &&& vals.len() == 15 && i > 6 ==> g[i] == vals[i - 1]
        },
{
}

/// The cutoff and the times of the envelopes go exponentially, and every other knob evenly,
/// each between its own ends; and what is turned past an end goes no further than that end.
pub proof fn law_knobs_go_their_own_way<
    T,
    E: Fn(u32, i32, i32) -> T,
    L: Fn(u32, i32, i32) -> T,
>(exponential: E, even: L, i: int, v: u32)
    requires
        0 <= i < 16,
        is_number(v),
    ensures
        ({
            let at = if less(v, 0) {
                0
            } else if less(0x3f800000, v) {
                0x3f800000
            } else {
                v
            };
            real_value(exponential, even, i, v) == if i == 7 || 10 <= i <= 13 || i == 15 {
                of3(exponential, at, PARAMS@[i].1, PARAMS@[i].2)
            } else {
                of3(even, at, PARAMS@[i].1, PARAMS@[i].2)
            }
        }),
{
    law_params_are_ranges(i);
}

/// Fields are parted by blanks and commas, however many: those of two pieces of text with
/// one between them are the fields of the first and then those of the second. Text in which
/// none stands is one field, and no field is empty.
pub proof fn law_fields_are_parted_by_blanks_and_commas(a: Seq<char>, c: char, b: Seq<char>)
    requires
        is_space(c) || c == ',',
    ensures
        fields(a + seq![c] + b) == fields(a) + fields(b),
        fields(Seq::empty()) == Seq::<Seq<char>>::empty(),
        a.len() > 0 && (forall|i: int| 0 <= i < a.len() ==> !is_space(#[trigger] a[i]) && a[i] != ',')
            ==> fields(a) == seq![a],
{
    let nonempty = |p: Seq<char>| p.len() > 0;
    law_text_is_split_at_its_separators(a, c, b, field_break());
    Seq::filter_distributes_over_add(
        pieces(a, field_break()),
        pieces(b, field_break()),
        nonempty,
    );
    lemma_fields_empty();
    if a.len() > 0 && forall|i: int| 0 <= i < a.len() ==> !is_space(#[trigger] a[i]) && a[i] != ',' {
        assert forall|i: int| 0 <= i < a.len() implies !field_break()(#[trigger] a[i]) by {}
        assert(pieces(a, field_break()) == seq![a]);
        reveal(Seq::filter);
        assert(seq![a].drop_last() =~= Seq::<Seq<char>>::empty());
        assert(fields(a) =~= seq![a]);
    }
}

/// Text is read line by line: what two texts with a line end between them hold is the fields
/// of the first and then those of the second; and the note that was told last counts.
pub proof fn law_text_is_read_line_by_line(a: Seq<char>, b: Seq<char>)
    ensures
        ({
            let r = patch_text(a + seq!['\n'] + b);
            &&& r.values == patch_text(a).values + patch_text(b).values
            &&& patch_text(b).note is Some ==> r.note == patch_text(b).note
            &&& r.note == patch_text(a).note || r.note == patch_text(b).note
            &&& (forall|i: int| 0 <= i < b.len() ==> #[trigger] b[i] != '#') ==> r.note == patch_text(
                a,
            ).note
        }),
{
    let nl = only('\n');
    law_text_is_split_at_its_separators(a, '\n', b, nl);
    lemma_lines_add(pieces(a, nl), pieces(b, nl));
    if forall|i: int| 0 <= i < b.len() ==> #[trigger] b[i] != '#' {
        lemma_pieces_are_of_the_text(b, nl);
        assert forall|k: int, i: int|
            0 <= k < pieces(b, nl).len() && 0 <= i < pieces(b, nl)[k].len() implies #[trigger] pieces(
            b,
            nl,
        )[k][i] != '#' by {
            let j = choose|j: int| 0 <= j < b.len() && #[trigger] b[j] == pieces(b, nl)[k][i];
        }
        lemma_no_comment_tells_no_note(pieces(a, nl), pieces(b, nl));
    }
}

proof fn lemma_lines_add(p: Seq<Seq<char>>, q: Seq<Seq<char>>)
    ensures
        read_lines(p + q).values == read_lines(p).values + read_lines(q).values,
        read_lines(q).note is Some ==> read_lines(p + q).note == read_lines(q).note,
        read_lines(p + q).note == read_lines(p).note || read_lines(p + q).note == read_lines(q).note,
    decreases q.len(),
{
    if q.len() == 0 {
        assert(p + q =~= p);
        assert(read_lines(p).values + read_lines(q).values =~= read_lines(p).values);
    } else {
        lemma_lines_add(p, q.drop_last());
        assert((p + q).drop_last() =~= p + q.drop_last());
        assert(read_lines(p + q).values =~= read_lines(p).values + read_lines(q).values);
    }
}

/// Every character of a piece is one of the text.
proof fn lemma_pieces_are_of_the_text(s: Seq<char>, sep: spec_fn(char) -> bool)
    ensures
        forall|k: int, i: int|
            0 <= k < pieces(s, sep).len() && 0 <= i < pieces(s, sep)[k].len() ==> exists|j: int|
                0 <= j < s.len() && #[trigger] s[j] == #[trigger] pieces(s, sep)[k][i],
    decreases s.len(),
{
    lemma_pieces_nonempty(s, sep);
    if s.len() > 0 {
        let t = s.drop_last();
        lemma_pieces_are_of_the_text(t, sep);
        lemma_pieces_nonempty(t, sep);
        let q = pieces(t, sep);
        assert forall|k: int, i: int|
            0 <= k < pieces(s, sep).len() && 0 <= i < pieces(s, sep)[k].len() implies exists|j: int|
            0 <= j < s.len() && #[trigger] s[j] == #[trigger] pieces(s, sep)[k][i] by {
            let c = pieces(s, sep)[k][i];
            if k < q.len() && i < q[k].len() {
                assert(q[k][i] == c);
                let j = choose|j: int| 0 <= j < t.len() && #[trigger] t[j] == q[k][i];
                assert(s[j] == c);
            } else {
                assert(s[s.len() - 1] == c);
            }
        }
    }
}

proof fn lemma_no_comment_tells_no_note(p: Seq<Seq<char>>, q: Seq<Seq<char>>)
    requires
        forall|k: int, i: int|
            0 <= k < q.len() && 0 <= i < q[k].len() ==> #[trigger] q[k][i] != '#',
    ensures
        read_lines(p + q).note == read_lines(p).note,
    decreases q.len(),
{
    if q.len() == 0 {
        assert(p + q =~= p);
    } else {
        let front = q.drop_last();
        assert forall|k: int, i: int| 0 <= k < front.len() && 0 <= i < front[k].len() implies
            #[trigger] front[k][i] != '#' by {
            assert(q[k][i] != '#');
        }
        lemma_no_comment_tells_no_note(p, front);
        assert((p + q).drop_last() =~= p + front);
        let l = q.last();
        let cut = law_trimming_cuts_blanks_alone(l);
        if trimmed(l).len() > 0 {
            assert(trimmed(l)[0] == l[cut.0]);
            assert(q[q.len() - 1][cut.0] != '#');
        }
    }
}

/// A comment holds no values, whatever stands in it. Where it tells a note that note counts,
/// and one that tells something else behind its mark tells that there is none.
pub proof fn law_comments_hold_no_values(p: PatchText, rest: Seq<char>, n: Seq<char>)
    requires
        rest.len() > 0,
        !is_space(rest.last()),
    ensures
        read_line(p, seq!['#'] + rest).values == p.values,
        find_from(rest, seq!['n', 'o', 't', 'e', '='], 0) is None ==> read_line(
            p,
            seq!['#'] + rest,
        ).note == p.note,
        (find_from(rest, seq!['n', 'o', 't', 'e', '='], 0) matches Some(i) && find_from(
            rest.skip(i + 5),
            seq!['n', 'o', 't', 'e', '='],
            0,
        ) is None && rest.skip(i + 5) == n) ==> read_line(p, seq!['#'] + rest).note == decimal_i32(
            trimmed(n),
        ),
{
    let line = seq!['#'] + rest;
    assert(line.last() == rest.last());
    lemma_trim_plain(line);
    assert(line.drop_first() =~= rest);
    assert(note_mark() =~= seq!['n', 'o', 't', 'e', '=']);
}

/// Loading tells what it found: where every field is a number and there are fifteen or
/// sixteen of them, those are the genome's values; where there are more or fewer that is what
/// is told; and where a field is no number the first such field is told, however many there
/// are.
pub proof fn law_loading_tells_what_it_found<T, F: Fn(&str) -> Option<T>>(
    parse: F,
    zero: T,
    text: Seq<char>,
    r: Result<(Genome<T>, Option<i32>), PatchError>,
    vals: Seq<T>,
)
    requires
        patch_loaded(parse, zero, text, r),
        forall|f: Seq<char>, x: Option<T>, y: Option<T>| #[trigger]
            reads(parse, f, x) && #[trigger] reads(parse, f, y) ==> x == y,
        vals.len() <= patch_text(text).values.len(),
        forall|i: int|
            0 <= i < vals.len() ==> reads(
                parse,
                patch_text(text).values[i],
                Some(#[trigger] vals[i]),
            ),
        vals.len() < patch_text(text).values.len() ==> reads(
            parse,
            patch_text(text).values[vals.len() as int],
            None::<T>,
        ),
    ensures
        ({
            let fs = patch_text(text).values;
            &&& vals.len() < fs.len() ==> (r matches Err(PatchError::BadValue(f)) && f@
                == fs[vals.len() as int])
            &&& vals.len() == fs.len() && vals.len() != 15 && vals.len() != 16 ==> (r matches Err(
                PatchError::WrongCount(n),
            ) && n == vals.len())
            &&& vals.len() == fs.len() && vals.len() == 16 ==> (r matches Ok((g, note)) && g@ == vals
                && note == patch_text(text).note)
            &&& vals.len() == fs.len() && vals.len() == 15 ==> (r matches Ok((g, note)) && g@
                == vals.take(6).push(zero) + vals.skip(6) && note == patch_text(text).note)
        }),
{
    let fs = patch_text(text).values;
    let n = vals.len() as int;
    match r {
        Ok((g, note)) => {
            let xs = choose|xs: Seq<T>|
                {
                    &&& xs.len() == fs.len()
                    &&& forall|i: int|
                        0 <= i < xs.len() ==> reads(parse, fs[i], Some(#[trigger] xs[i]))
                    &&& #[trigger] upgraded(xs, zero) == Some(g@)
                };
            if n < fs.len() {
                assert(reads(parse, fs[n], Some(xs[n])));
            } else {
                assert forall|i: int| 0 <= i < n implies xs[i] == vals[i] by {
                    assert(reads(parse, fs[i], Some(xs[i])));
                    assert(reads(parse, fs[i], Some(vals[i])));
                }
                assert(xs =~= vals);
                if n == 15 {
                    assert(g@ =~= vals.take(6).push(zero) + vals.skip(6));
                }
            }
        },
        Err(PatchError::BadValue(f)) => {
            let k = choose|k: int|
                {
                    &&& 0 <= k < fs.len()
                    &&& f@ == #[trigger] fs[k]
                    &&& reads(parse, fs[k], None::<T>)
                    &&& numbers(parse, fs, k)
                };
            if k < n {
                assert(reads(parse, fs[k], Some(vals[k])));
            }
            if n < k {
                assert(reads_number(parse, fs[n]));
                let v = choose|v: T| reads(parse, fs[n], Some(v));
                assert(reads(parse, fs[n], Some(v)));
            }
        },
        Err(PatchError::WrongCount(m)) => {
            if n < fs.len() {
                assert(reads_number(parse, fs[n]));
                let v = choose|v: T| reads(parse, fs[n], Some(v));
                assert(reads(parse, fs[n], Some(v)));
            }
        },
    }
}

} // verus!
