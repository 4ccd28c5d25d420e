//! Tempo-locked, seamless bass loops: the patterns, where their notes go, and
//! how a note is laid onto the loop.

use crate::dsp::{law_levels_go_by_the_peak, law_levels_hold, normalise, normalised};
use crate::func::{of2, pure2};
pub use crate::midiio::Ev;
use crate::single::{is_less, less};
use crate::text::{chars_of, same_chars};
use vstd::prelude::*;

verus! {

/// A step of a pattern: semitones above the root, how many steps the note is
/// held, and its gain in hundredths.
pub type Step = (i32, usize, u8);

/// Sixteen steps; a step without a note is a rest.
pub type Pattern = [Option<Step>; 16];

/// How many patterns there are.
pub const N_PATTERNS: usize = 12;

pub const PATTERN_NAMES: [&'static str; 12] = [
    "garage_roll",
    "speed_walk",
    "four_pulse",
    "speed_run",
    "garage_bounce",
    "bassline_seesaw",
    "organ_hop",
    "skippy_ghost",
    "wobble_hold",
    "dnb_roller",
    "house_offbeat",
    "reese_hold",
];

/// A rest, in the table: a note that is not held.
pub const R: (i32, usize, u8) = (0, 0, 0);

/// The usual gain.
pub const G: u8 = 95;

/// The patterns, in the order of `PATTERN_NAMES`.
pub const PATTERN_ROWS: [[(i32, usize, u8); 16]; 12] = [
    // garage_roll: classic UK garage skippy bass — offbeat stabs with a little movement
    [
        (0, 1, G), R, R, (0, 1, G),
        R, (12, 1, G), R, (0, 2, G),
        R, R, (0, 1, G), R,
        (10, 1, G), R, (0, 1, G), R,
    ],
    // speed_walk: rolling bassline with octave + fifth movement (speed garage flavour)
    [
        (0, 1, G), R, (0, 1, G), (12, 1, G),
        R, (0, 1, G), (7, 1, G), R,
        (0, 1, G), R, (0, 1, G), (10, 1, G),
        R, (0, 1, G), (5, 1, G), (7, 1, G),
    ],
    // four_pulse: 4-to-floor root pulse — every beat, tight gate (bass house)
    [
        (0, 2, G), R, R, R,
        (0, 2, G), R, R, R,
        (0, 2, G), R, R, R,
        (0, 2, G), R, R, R,
    ],
    // speed_run: relentless speed-garage roller — near-constant 8ths, octave/fifth flicks
    [
        (0, 1, G), R, (0, 1, G), R,
        (12, 1, G), R, (0, 1, G), (7, 1, G),
        (0, 1, G), R, (10, 1, G), R,
        (12, 1, G), (0, 1, G), (7, 1, G), (5, 1, G),
    ],
    // garage_bounce: 2-step skip with octave pops on the off-16ths
    [
        (0, 2, G), R, R, (12, 1, 70),
        R, R, (0, 1, G), R,
        (0, 2, G), R, (10, 1, 60), R,
        (12, 1, G), R, R, (0, 1, G),
    ],
    // bassline_seesaw: niche / bassline octave seesaw — root vs ghosted octave every 16th
    [
        (0, 1, G), (12, 1, 55), (0, 1, G), (12, 1, 55),
        (0, 1, G), (12, 1, 55), (3, 1, G), (12, 1, 55),
        (0, 1, G), (12, 1, 55), (0, 1, G), (12, 1, 55),
        (5, 1, G), (12, 1, 55), (7, 1, G), (10, 1, 60),
    ],
    // organ_hop: speed-garage organ bass — offbeat octave hops with fifth/b7 turns
    [
        R, (12, 1, G), R, (0, 1, G),
        R, (12, 1, 80), R, (7, 1, G),
        R, (12, 1, G), R, (0, 1, G),
        (5, 1, G), R, (7, 1, G), (10, 1, 80),
    ],
    // skippy_ghost: classic UKG skip with ghost notes for shuffle feel
    [
        (0, 2, G), R, (0, 1, 45), R,
        R, (0, 1, G), R, (0, 1, 50),
        R, (0, 2, G), R, (0, 1, 45),
        (10, 1, 70), R, (0, 1, G), R,
    ],
    // wobble_hold: half-bar growl holds with a minor walk-up turnaround
    [
        (0, 6, G), R, R, R,
        R, R, (0, 2, 80), R,
        (3, 4, G), R, R, R,
        (5, 1, G), R, (7, 1, G), (10, 1, G),
    ],
    // dnb_roller: 174-friendly roller — syncopated, octave flick mid-bar
    [
        (0, 2, G), R, R, (0, 1, G),
        R, R, (12, 1, 70), R,
        R, (0, 2, G), R, R,
        (0, 1, G), R, (7, 1, 70), (10, 1, 70),
    ],
    // house_offbeat: 2-step / house offbeat — bass on the "&"s, fat and simple
    [
        R, R, (0, 2, G), R,
        R, R, (0, 2, G), R,
        R, R, (0, 2, G), R,
        R, R, (0, 2, G), R,
    ],
    // reese_hold: reese / dub hold — long sustained notes, room to growl
    [
        (0, 8, G), R, R, R,
        R, R, R, R,
        (0, 7, G), R, R, R,
        R, R, R, (3, 1, G),
    ],
];

/// A cell of the table as a step.
pub open spec fn step_of(cell: (i32, usize, u8)) -> Option<Step> {
    if cell.1 == 0 {
        None
    } else {
        Some(cell)
    }
}

/// The pattern of a row of the table.
pub open spec fn row_steps(i: int) -> Seq<Option<Step>> {
    Seq::new(16, |j: int| step_of(PATTERN_ROWS@[i]@[j]))
}

/// The first pattern at or after `i` that is called `name`.
pub open spec fn pattern_from(name: Seq<char>, i: int) -> Option<int>
    decreases N_PATTERNS - i,
{
    if i < 0 || i >= N_PATTERNS {
        None
    } else if PATTERN_NAMES@[i]@ == name {
        Some(i)
    } else {
        pattern_from(name, i + 1)
    }
}

/// The pattern of the `i`th row.
pub fn pattern_row(i: usize) -> (r: Pattern)
    requires
        i < N_PATTERNS,
    ensures
        r@ == row_steps(i as int),
{
    let row: [(i32, usize, u8); 16] = PATTERN_ROWS[i];
    let mut p: Pattern = [None; 16];
    let mut j: usize = 0;
    while j < 16
        invariant
            j <= 16,
            i < N_PATTERNS,
            row == PATTERN_ROWS@[i as int],
            forall|k: int| 0 <= k < j ==> #[trigger] p@[k] == step_of(row@[k]),
        decreases 16 - j,
    {
        let cell: (i32, usize, u8) = row[j];
        if cell.1 == 0 {
            p[j] = None;
        } else {
            p[j] = Some(cell);
        }
        j = j + 1;
    }
    assert(p@ =~= row_steps(i as int));
    p
}

/// The pattern of a name.
pub fn pattern(name: &str) -> (r: Option<Pattern>)
    ensures
        match pattern_from(name@, 0) {
            Some(i) => r matches Some(p) && p@ == row_steps(i),
            None => r is None,
        },
{
    let want = chars_of(name);
    let mut i: usize = 0;
    while i < N_PATTERNS
        invariant
            i <= N_PATTERNS,
            want@ == name@,
            pattern_from(name@, 0) == pattern_from(name@, i as int),
        decreases N_PATTERNS - i,
    {
        let table = chars_of(PATTERN_NAMES[i]);
        if same_chars(table.as_slice(), want.as_slice()) {
            return Some(pattern_row(i));
        }
        i = i + 1;
    }
    None
}

/// Every name in the list names a pattern, and it is the one in its row.
pub proof fn law_listed_patterns_exist(i: int)
    requires
        0 <= i < N_PATTERNS,
    ensures
        pattern_from(PATTERN_NAMES@[i]@, 0) == Some(i),
{
    lemma_names_differ();
    lemma_pattern_first(PATTERN_NAMES@[i]@, 0, i);
}

proof fn lemma_pattern_first(name: Seq<char>, from: int, i: int)
    requires
        0 <= from <= i < N_PATTERNS,
        PATTERN_NAMES@[i]@ == name,
        forall|k: int| from <= k < i ==> #[trigger] PATTERN_NAMES@[k]@ != name,
    ensures
        pattern_from(name, from) == Some(i),
    decreases i - from,
{
    if from < i {
        lemma_pattern_first(name, from + 1, i);
    }
}

proof fn lemma_names_differ()
    ensures
        forall|i: int, j: int|
            0 <= i < j < N_PATTERNS ==> #[trigger] PATTERN_NAMES@[i]@ != #[trigger] PATTERN_NAMES@[j]@,
{
    reveal_strlit("garage_roll");
    reveal_strlit("speed_walk");
    reveal_strlit("four_pulse");
    reveal_strlit("speed_run");
    reveal_strlit("garage_bounce");
    reveal_strlit("bassline_seesaw");
    reveal_strlit("organ_hop");
    reveal_strlit("skippy_ghost");
    reveal_strlit("wobble_hold");
    reveal_strlit("dnb_roller");
    reveal_strlit("house_offbeat");
    reveal_strlit("reese_hold");
    assert forall|i: int, j: int| 0 <= i < j < N_PATTERNS implies #[trigger] PATTERN_NAMES@[i]@
        != #[trigger] PATTERN_NAMES@[j]@ by {
        let a = PATTERN_NAMES@[i]@;
        let b = PATTERN_NAMES@[j]@;
        assert(a.len() != b.len() || a[0] != b[0] || a[1] != b[1]);
    }
}

// ---- where the notes go -------------------------------------------------------------------

/// A note of a loop: where it starts, how long its key is held and how many
/// samples are rendered, at which pitch, and its gain in hundredths.
#[derive(Clone, Copy, Debug)]
pub struct Voice {
    pub pos: usize,
    pub midi: i32,
    pub gate_n: usize,
    pub n: usize,
    pub gain: u8,
}

/// What a loop is laid out by: the root, samples per step, by how many samples
/// every odd step is late, and how many samples a note rings on.
#[derive(Clone, Copy, Debug)]
pub struct Grid {
    pub root: i32,
    pub step_n: usize,
    pub swing_n: usize,
    pub tail: usize,
}

/// 0.5, as a single: the most swing there is.
pub const MAX_SWING: u32 = 0x3f000000;

/// A swing (the bits of a single), kept between none and the most there is.
pub open spec fn clamped_swing(swing: u32) -> u32 {
    if less(swing, 0) {
        0
    } else if less(MAX_SWING, swing) {
        MAX_SWING
    } else {
        swing
    }
}

impl Grid {
    /// A grid on which every odd step is late by part of a step: `late` tells by how
    /// many of a step's samples, for a swing that is kept within its bounds.
    pub fn new<F: Fn(u32, usize) -> usize>(
        root: i32,
        step_n: usize,
        swing: u32,
        tail: usize,
        late: F,
    ) -> (g: Grid)
        requires
            pure2(late),
        ensures
            g == (Grid { root, step_n, swing_n: of2(late, clamped_swing(swing), step_n), tail }),
    {
        let kept: u32 = if is_less(swing, 0) {
            0
        } else if is_less(MAX_SWING, swing) {
            MAX_SWING
        } else {
            swing
        };
        Grid { root, step_n, swing_n: late(kept, step_n), tail }
    }
}

/// The note of the `k`th step of a loop, if it has one.
pub open spec fn voice_at(pat: Seq<Option<Step>>, g: Grid, k: int) -> Option<Voice> {
    match pat[k % 16] {
        None => None,
        Some((semi, gate, gain)) => Some(
            Voice {
                pos: (k * g.step_n + if k % 2 == 1 {
                    g.swing_n as int
                } else {
                    0
                }) as usize,
                midi: (g.root + semi) as i32,
                gate_n: (gate * g.step_n) as usize,
                n: (gate * g.step_n + g.tail) as usize,
                gain,
            },
        ),
    }
}

/// The notes of the first `k` steps.
pub open spec fn voices(pat: Seq<Option<Step>>, g: Grid, k: int) -> Seq<Voice>
    decreases k,
{
    if k <= 0 {
        Seq::empty()
    } else {
        match voice_at(pat, g, k - 1) {
            None => voices(pat, g, k - 1),
            Some(v) => voices(pat, g, k - 1).push(v),
        }
    }
}

/// The loop and its notes can be counted in machine integers.
pub open spec fn loop_fits(pat: Seq<Option<Step>>, g: Grid, bars: int) -> bool {
    &&& 16 * bars * g.step_n + g.swing_n <= usize::MAX
    &&& forall|j: int|
        0 <= j < 16 ==> (#[trigger] pat[j] matches Some(s) ==> {
            &&& i32::MIN <= g.root + s.0 <= i32::MAX
            &&& s.1 * g.step_n + g.tail <= usize::MAX
        })
}

/// Whether the loop and its notes can be counted in machine integers.
pub fn can_loop(pat: &Pattern, g: &Grid, bars: usize) -> (r: bool)
    ensures
        r == loop_fits(pat@, *g, bars as int),
{
    let top: u128 = usize::MAX as u128;
    let steps: u128 = 16 * (bars as u128);
    let step_n: u128 = g.step_n as u128;
    proof {
        assert(0 <= steps * step_n <= 16 * 0xffff_ffff_ffff_ffff * 0xffff_ffff_ffff_ffff
            && steps * step_n == 16 * bars * g.step_n) by (nonlinear_arith)
            requires
                0 <= step_n <= 0xffff_ffff_ffff_ffff,
                0 <= steps <= 16 * 0xffff_ffff_ffff_ffff,
                steps == 16 * bars,
                step_n == g.step_n,
        ;
    }
    let all: u128 = match steps.checked_mul(step_n) {
        None => {
            return false;
        },
        Some(p) => p,
    };
    if all > top || all + g.swing_n as u128 > top {
        return false;
    }
    let mut j: usize = 0;
    while j < 16
        invariant
            j <= 16,
            top == usize::MAX,
            step_n == g.step_n,
            16 * bars * g.step_n + g.swing_n <= usize::MAX,
            forall|k: int|
                0 <= k < j ==> (#[trigger] pat@[k] matches Some(s) ==> {
                    &&& i32::MIN <= g.root + s.0 <= i32::MAX
                    &&& s.1 * g.step_n + g.tail <= usize::MAX
                }),
        decreases 16 - j,
    {
        if let Some((semi, gate, _)) = pat[j] {
            let midi: i64 = g.root as i64 + semi as i64;
            let wide: u128 = gate as u128;
            proof {
                assert(0 <= wide * step_n <= 0xffff_ffff_ffff_ffff * 0xffff_ffff_ffff_ffff
                    && wide * step_n == gate * g.step_n) by (nonlinear_arith)
                    requires
                        0 <= wide <= 0xffff_ffff_ffff_ffff,
                        0 <= step_n <= 0xffff_ffff_ffff_ffff,
                        wide == gate,
                        step_n == g.step_n,
                ;
            }
            if midi < i32::MIN as i64 || midi > i32::MAX as i64 || wide * step_n + g.tail as u128
                > top {
                assert(pat@[j as int] is Some);
                return false;
            }
        }
        j = j + 1;
    }
    true
}

/// The length of a loop in samples.
pub fn loop_len(step_n: usize, bars: usize) -> (r: usize)
    requires
        16 * bars * step_n <= usize::MAX,
    ensures
        r == 16 * bars * step_n,
{
    if step_n == 0 || bars == 0 {
        assert(16 * bars * step_n == 0) by (nonlinear_arith)
            requires
                step_n == 0 || bars == 0,
        ;
        return 0;
    }
    assert(16 * bars <= 16 * bars * step_n) by (nonlinear_arith)
        requires
            step_n >= 1,
            bars >= 1,
    ;
    16 * bars * step_n
}

/// The notes of a loop, in the order in which they are laid.
pub fn loop_voices(pat: &Pattern, g: &Grid, bars: usize) -> (r: Vec<Voice>)
    requires
        loop_fits(pat@, *g, bars as int),
    ensures
        r@ == voices(pat@, *g, 16 * bars),
{
    let mut r: Vec<Voice> = Vec::new();
    let mut bar: usize = 0;
    while bar < bars
        invariant
            bar <= bars,
            loop_fits(pat@, *g, bars as int),
            r@ == voices(pat@, *g, 16 * bar),
        decreases bars - bar,
    {
        let mut i: usize = 0;
        while i < 16
            invariant
                i <= 16,
                bar < bars,
                loop_fits(pat@, *g, bars as int),
                r@ == voices(pat@, *g, 16 * bar + i),
            decreases 16 - i,
        {
            let ghost k = 16 * bar + i;
            match pat[i] {
                None => {},
                Some((semi, gate, gain)) => {
                    assert((k + 1) * g.step_n <= 16 * bars * g.step_n) by (nonlinear_arith)
                        requires
                            k + 1 <= 16 * bars,
                            0 <= g.step_n,
                    ;
                    assert((k + 1) * g.step_n == k * g.step_n + g.step_n) by (nonlinear_arith);
                    let pos: usize = if g.step_n == 0 {
                        0
                    } else {
                        assert(k <= k * g.step_n) by (nonlinear_arith)
                            requires
                                g.step_n >= 1,
                                k >= 0,
                        ;
                        assert(16 * bar <= k);
                        (bar * 16 + i) * g.step_n
                    };
                    assert(pos == k * g.step_n) by (nonlinear_arith)
                        requires
                            (g.step_n == 0 && pos == 0) || pos == (bar * 16 + i) * g.step_n,
                            k == 16 * bar + i,
                    ;
                    let late: usize = if i % 2 == 1 {
                        g.swing_n
                    } else {
                        0
                    };
                    let gate_n: usize = gate * g.step_n;
                    r.push(
                        Voice {
                            pos: pos + late,
                            midi: g.root + semi,
                            gate_n,
                            n: gate_n + g.tail,
                            gain,
                        },
                    );
                },
            }
            i = i + 1;
        }
        bar = bar + 1;
    }
    r
}

// ---- where the notes of a groove go ---------------------------------------------------------

/// A note of a groove in samples: its onset from the start of the loop, how long
/// its key is held, and its semitones above the root.
#[derive(Clone, Copy, Debug)]
pub struct Onset {
    pub at: usize,
    pub held: usize,
    pub semi: i32,
}

/// A note as it is rendered: where it starts in the loop, at which pitch, how long
/// its key is held and how many samples are rendered.
#[derive(Clone, Copy, Debug, PartialEq, Eq, Structural)]
pub struct Placed {
    pub pos: usize,
    pub midi: i32,
    pub gate_n: usize,
    pub n: usize,
}

/// How long a key is held that is held for at least `least` samples.
pub open spec fn gate(held: int, least: int) -> int {
    if held < least {
        least
    } else {
        held
    }
}

/// A note can be counted in machine integers.
pub open spec fn onset_fits(o: Onset, root: int, least: int, tail: int) -> bool {
    &&& i32::MIN <= root + o.semi <= i32::MAX
    &&& gate(o.held as int, least) + tail <= usize::MAX
}

/// Where a note of a groove goes in a loop of `loop_n` samples.
pub open spec fn placed(o: Onset, root: int, loop_n: int, least: int, tail: int) -> Placed {
    Placed {
        pos: (o.at as int % loop_n) as usize,
        midi: (root + o.semi) as i32,
        gate_n: gate(o.held as int, least) as usize,
        n: (gate(o.held as int, least) + tail) as usize,
    }
}

/// Whether a note can be counted in machine integers.
pub fn can_place(o: &Onset, root: i32, least: usize, tail: usize) -> (r: bool)
    ensures
        r == onset_fits(*o, root as int, least as int, tail as int),
{
    let gate_n: usize = if o.held < least {
        least
    } else {
        o.held
    };
    root.checked_add(o.semi).is_some() && gate_n.checked_add(tail).is_some()
}

/// Where the notes of a groove go in a loop of `loop_n` samples. An onset behind
/// the end wraps around, a key is held for at least `least` samples, and a note
/// rings on for `tail` more.
pub fn groove_voices(
    onsets: &[Onset],
    root: i32,
    loop_n: usize,
    least: usize,
    tail: usize,
) -> (r: Vec<Placed>)
    requires
        loop_n > 0,
        forall|i: int|
            0 <= i < onsets@.len() ==> onset_fits(
                #[trigger] onsets@[i],
                root as int,
                least as int,
                tail as int,
            ),
    ensures
        r@ == onsets@.map_values(
            |o: Onset| placed(o, root as int, loop_n as int, least as int, tail as int),
        ),
{
    let ghost f = |o: Onset| placed(o, root as int, loop_n as int, least as int, tail as int);
    let mut r: Vec<Placed> = Vec::new();
    let mut i: usize = 0;
    while i < onsets.len()
        invariant
            i <= onsets@.len(),
            loop_n > 0,
            forall|i: int|
                0 <= i < onsets@.len() ==> onset_fits(
                    #[trigger] onsets@[i],
                    root as int,
                    least as int,
                    tail as int,
                ),
            r@.len() == i,
            forall|k: int|
                0 <= k < i ==> #[trigger] r@[k] == placed(
                    onsets@[k],
                    root as int,
                    loop_n as int,
                    least as int,
                    tail as int,
                ),
        decreases onsets@.len() - i,
    {
        let o: Onset = onsets[i];
        let gate_n: usize = if o.held < least {
            least
        } else {
            o.held
        };
        r.push(Placed { pos: o.at % loop_n, midi: root + o.semi, gate_n, n: gate_n + tail });
        i = i + 1;
    }
    assert(r@ =~= onsets@.map_values(f));
    r
}

/// Every note of a groove starts inside the loop, however late its onset is, and
/// rings on behind its key's release.
pub proof fn law_grooves_start_inside(o: Onset, root: int, loop_n: usize, least: int, tail: int)
    requires
        loop_n > 0,
        least >= 0,
        tail >= 0,
        onset_fits(o, root, least, tail),
    ensures
        placed(o, root, loop_n as int, least, tail).pos < loop_n,
        placed(o, root, loop_n as int, least, tail).gate_n >= least,
        placed(o, root, loop_n as int, least, tail).gate_n >= o.held,
        placed(o, root, loop_n as int, least, tail).n == placed(
            o,
            root,
            loop_n as int,
            least,
            tail,
        ).gate_n + tail,
{
}

// ---- laying a note onto the loop -------------------------------------------------------------

/// What becomes of cell `k` of a loop of `n` cells, `start` at first, when the
/// first `j` samples of `a` are laid from `pos` on, wrapping around at the end.
pub open spec fn laid<T, F: Fn(T, T) -> T>(
    mix: F,
    start: T,
    a: Seq<T>,
    pos: int,
    n: int,
    k: int,
    j: int,
) -> T
    decreases j,
{
    if j <= 0 {
        start
    } else {
        let v = laid(mix, start, a, pos, n, k, j - 1);
        if (pos + j - 1) % n == k {
            of2(mix, v, a[j - 1])
        } else {
            v
        }
    }
}

/// A loop with a note laid onto it from `pos` on; what runs over the end is laid
/// onto the head.
pub open spec fn overlaid<T, F: Fn(T, T) -> T>(mix: F, buf: Seq<T>, a: Seq<T>, pos: int) -> Seq<T> {
    Seq::new(
        buf.len(),
        |k: int| laid(mix, buf[k], a, pos, buf.len() as int, k, a.len() as int),
    )
}

/// Lays a note onto a loop.
pub fn overlay<T: Copy, F: Fn(T, T) -> T>(buf: &mut Vec<T>, pos: usize, a: &[T], mix: &F)
    requires
        old(buf)@.len() > 0,
        pos + a@.len() <= usize::MAX,
        pure2(*mix),
    ensures
        final(buf)@ == overlaid(*mix, old(buf)@, a@, pos as int),
{
    let n: usize = buf.len();
    let ghost b0 = buf@;
    let mut j: usize = 0;
    while j < a.len()
        invariant
            j <= a@.len(),
            n > 0,
            n == b0.len(),
            buf@.len() == n,
            pos + a@.len() <= usize::MAX,
            pure2(*mix),
            forall|k: int|
                0 <= k < n ==> #[trigger] buf@[k] == laid(
                    *mix,
                    b0[k],
                    a@,
                    pos as int,
                    n as int,
                    k,
                    j as int,
                ),
        decreases a@.len() - j,
    {
        let at: usize = (pos + j) % n;
        let cell: T = buf[at];
        let sum: T = mix(cell, a[j]);
        assert(sum == of2(*mix, cell, a@[j as int]));
        buf.set(at, sum);
        j = j + 1;
    }
    assert(buf@ =~= overlaid(*mix, b0, a@, pos as int));
}

/// A silent loop of `n` samples with the first `k` notes laid onto it, each at its
/// start.
pub open spec fn mixed<T, F: Fn(T, T) -> T>(
    mix: F,
    zero: T,
    n: int,
    starts: Seq<usize>,
    notes: Seq<Seq<T>>,
    k: int,
) -> Seq<T>
    decreases k,
{
    if k <= 0 {
        Seq::new(n as nat, |i: int| zero)
    } else {
        overlaid(mix, mixed(mix, zero, n, starts, notes, k - 1), notes[k - 1], starts[k - 1] as int)
    }
}

/// The samples of a list of notes.
pub open spec fn samples<T>(notes: Seq<Vec<T>>) -> Seq<Seq<T>> {
    notes.map_values(|v: Vec<T>| v@)
}

/// Lays notes onto a silent loop of `n` samples.
pub fn mix_loop<T: Copy, F: Fn(T, T) -> T>(
    n: usize,
    starts: &[usize],
    notes: &[Vec<T>],
    zero: T,
    mix: F,
) -> (r: Vec<T>)
    requires
        n > 0 || notes@.len() == 0,
        starts@.len() == notes@.len(),
        forall|i: int|
            0 <= i < notes@.len() ==> #[trigger] starts@[i] + notes@[i]@.len() <= usize::MAX,
        pure2(mix),
    ensures
        r@ == mixed(mix, zero, n as int, starts@, samples(notes@), notes@.len() as int),
        r@.len() == n,
{
    let mut r: Vec<T> = Vec::new();
    let mut i: usize = 0;
    while i < n
        invariant
            i <= n,
            r@ == Seq::new(i as nat, |j: int| zero),
        decreases n - i,
    {
        r.push(zero);
        i = i + 1;
        assert(r@ =~= Seq::new(i as nat, |j: int| zero));
    }
    assert(r@ =~= mixed(mix, zero, n as int, starts@, samples(notes@), 0));
    let mut k: usize = 0;
    while k < notes.len()
        invariant
            k <= notes@.len(),
            n > 0 || notes@.len() == 0,
            starts@.len() == notes@.len(),
            forall|i: int|
                0 <= i < notes@.len() ==> #[trigger] starts@[i] + notes@[i]@.len() <= usize::MAX,
            pure2(mix),
            r@.len() == n,
            r@ == mixed(mix, zero, n as int, starts@, samples(notes@), k as int),
        decreases notes@.len() - k,
    {
        assert(starts@[k as int] + notes@[k as int]@.len() <= usize::MAX);
        overlay(&mut r, starts[k], notes[k].as_slice(), &mix);
        k = k + 1;
    }
    r
}

/// The loop of a list of notes, each scaled by its gain and laid at its start, and the
/// whole brought to its level.
pub open spec fn loop_of<
    T,
    S: Fn(T, u8) -> T,
    F: Fn(T, T) -> T,
    P: Fn(T, T) -> T,
    L: Fn(T, T) -> T,
>(
    scale: S,
    mix: F,
    louder: P,
    level: L,
    zero: T,
    n: int,
    starts: Seq<usize>,
    gains: Seq<u8>,
    notes: Seq<Seq<T>>,
) -> Seq<T> {
    normalised(
        louder,
        level,
        zero,
        mixed(mix, zero, n, starts, scaled(scale, gains, notes), notes.len() as int),
    )
}

/// Notes, each scaled by its gain.
pub open spec fn scaled<T, S: Fn(T, u8) -> T>(scale: S, gains: Seq<u8>, notes: Seq<Seq<T>>) -> Seq<
    Seq<T>,
> {
    Seq::new(notes.len(), |i: int| notes[i].map_values(|v: T| of2(scale, v, gains[i])))
}

/// Makes a loop of `n` samples of its notes.
pub fn lay_loop<
    T: Copy,
    S: Fn(T, u8) -> T,
    F: Fn(T, T) -> T,
    P: Fn(T, T) -> T,
    L: Fn(T, T) -> T,
>(
    n: usize,
    starts: &[usize],
    gains: &[u8],
    notes: &[Vec<T>],
    zero: T,
    scale: S,
    mix: F,
    louder: P,
    level: L,
) -> (r: Vec<T>)
    requires
        n > 0 || notes@.len() == 0,
        starts@.len() == notes@.len(),
        gains@.len() == notes@.len(),
        forall|i: int|
            0 <= i < notes@.len() ==> #[trigger] starts@[i] + notes@[i]@.len() <= usize::MAX,
        pure2(scale),
        pure2(mix),
        pure2(louder),
        pure2(level),
    ensures
        r@ == loop_of(
            scale,
            mix,
            louder,
            level,
            zero,
            n as int,
            starts@,
            gains@,
            samples(notes@),
        ),
        r@.len() == n,
{
    let ghost want = scaled(scale, gains@, samples(notes@));
    let mut loud: Vec<Vec<T>> = Vec::new();
    let mut i: usize = 0;
    while i < notes.len()
        invariant
            i <= notes@.len(),
            gains@.len() == notes@.len(),
            pure2(scale),
            want == scaled(scale, gains@, samples(notes@)),
            loud@.len() == i,
            forall|k: int| 0 <= k < i ==> (#[trigger] loud@[k])@ == want[k],
        decreases notes@.len() - i,
    {
        let mut a: Vec<T> = Vec::new();
        let mut j: usize = 0;
        while j < notes[i].len()
            invariant
                i < notes@.len(),
                j <= notes@[i as int]@.len(),
                gains@.len() == notes@.len(),
                pure2(scale),
                a@.len() == j,
                forall|k: int|
                    0 <= k < j ==> #[trigger] a@[k] == of2(
                        scale,
                        notes@[i as int]@[k],
                        gains@[i as int],
                    ),
            decreases notes@[i as int]@.len() - j,
        {
            let v: T = scale(notes[i][j], gains[i]);
            a.push(v);
            j = j + 1;
        }
        assert(a@ =~= want[i as int]);
        loud.push(a);
        i = i + 1;
    }
    assert(samples(loud@) =~= want);
    assert forall|i: int| 0 <= i < loud@.len() implies #[trigger] starts@[i] + loud@[i]@.len()
        <= usize::MAX by {
        assert(loud@[i]@ == want[i]);
    }
    let mut r: Vec<T> = mix_loop(n, starts, loud.as_slice(), zero, mix);
    normalise(&mut r, zero, &louder, &level);
    r
}

/// Where the notes of a loop start.
pub open spec fn starts_of(vs: Seq<Voice>) -> Seq<usize> {
    vs.map_values(|v: Voice| v.pos)
}

/// How loud the notes of a loop are.
pub open spec fn gains_of(vs: Seq<Voice>) -> Seq<u8> {
    vs.map_values(|v: Voice| v.gain)
}

/// Swing moves the odd steps alone: two loops that differ in nothing but their swing
/// have the same notes in the same places where no odd step has a note.
pub proof fn law_swing_moves_odd_steps(pat: Seq<Option<Step>>, a: Grid, b: Grid, k: int)
    requires
        pat.len() == 16,
        b == (Grid { swing_n: b.swing_n, ..a }),
        forall|j: int| 0 <= j < 16 && j % 2 == 1 ==> #[trigger] pat[j] is None,
    ensures
        voices(pat, a, k) == voices(pat, b, k),
    decreases k,
{
    if k > 0 {
        law_swing_moves_odd_steps(pat, a, b, k - 1);
        assert((k - 1) % 16 % 2 == (k - 1) % 2);
        assert(pat[(k - 1) % 16] is None || (k - 1) % 2 == 0);
    }
}

/// Two loops that differ in nothing but their swing sound the same, sample by sample,
/// where no odd step has a note or where their swings are as late. `render` makes the
/// samples of the notes.
pub proof fn law_swing_is_heard_on_odd_steps<
    T,
    S: Fn(T, u8) -> T,
    F: Fn(T, T) -> T,
    P: Fn(T, T) -> T,
    L: Fn(T, T) -> T,
>(
    scale: S,
    mix: F,
    louder: P,
    level: L,
    zero: T,
    pat: Seq<Option<Step>>,
    a: Grid,
    b: Grid,
    bars: int,
    render: spec_fn(Seq<Voice>) -> Seq<Seq<T>>,
)
    requires
        pat.len() == 16,
        b == (Grid { swing_n: b.swing_n, ..a }),
        a.swing_n == b.swing_n || forall|j: int|
            0 <= j < 16 && j % 2 == 1 ==> #[trigger] pat[j] is None,
    ensures
        ({
            let n = 16 * bars * a.step_n;
            let v = voices(pat, a, 16 * bars);
            let w = voices(pat, b, 16 * bars);
            loop_of(scale, mix, louder, level, zero, n, starts_of(v), gains_of(v), render(v))
                == loop_of(scale, mix, louder, level, zero, n, starts_of(w), gains_of(w), render(w))
        }),
{
    if a.swing_n != b.swing_n {
        law_swing_moves_odd_steps(pat, a, b, 16 * bars);
    }
}

/// A step's note is late by the swing exactly where the step is odd, and nothing else
/// about it depends on the swing.
pub proof fn law_swing_pushes_late(pat: Seq<Option<Step>>, g: Grid, bars: int, k: int)
    requires
        pat.len() == 16,
        loop_fits(pat, g, bars),
        0 <= k < 16 * bars,
        pat[k % 16] is Some,
    ensures
        ({
            let straight = voice_at(pat, Grid { swing_n: 0, ..g }, k)->0;
            let v = voice_at(pat, g, k)->0;
            &&& v == (Voice { pos: v.pos, ..straight })
            &&& v.pos == straight.pos + if k % 2 == 1 {
                g.swing_n as int
            } else {
                0
            }
        }),
{
    assert(0 <= k * g.step_n <= 16 * bars * g.step_n) by (nonlinear_arith)
        requires
            0 <= k <= 16 * bars,
            0 <= g.step_n,
    ;
}

/// A note no longer than the loop reaches every cell at most once: cell `k` gets
/// the sample that lies as far into the note as the cell lies behind its start,
/// counted around the loop.
pub proof fn law_overlay_wraps<T, F: Fn(T, T) -> T>(
    mix: F,
    start: T,
    a: Seq<T>,
    pos: int,
    n: int,
    k: int,
)
    requires
        0 <= pos,
        0 <= k < n,
        a.len() <= n,
    ensures
        laid(mix, start, a, pos, n, k, a.len() as int) == (if (k - pos) % n < a.len() {
            of2(mix, start, a[(k - pos) % n])
        } else {
            start
        }),
{
    lemma_laid_after(mix, start, a, pos, n, k, a.len() as int);
}

proof fn lemma_hits(pos: int, n: int, k: int, j: int)
    requires
        0 <= k < n,
        0 <= j < n,
    ensures
        (pos + j) % n == k <==> j == (k - pos) % n,
{
    let q = (k - pos) / n;
    let m = (k - pos) % n;
    vstd::arithmetic::div_mod::lemma_fundamental_div_mod(k - pos, n);
    if j == m {
        assert(pos + j == -(q * n) + k) by (nonlinear_arith)
            requires
                k - pos == n * q + m,
                j == m,
        ;
        assert(pos + j == (-q) * n + k) by (nonlinear_arith)
            requires
                pos + j == -(q * n) + k,
        ;
        vstd::arithmetic::div_mod::lemma_fundamental_div_mod_converse(pos + j, n, -q, k);
    }
    if (pos + j) % n == k {
        let p = (pos + j) / n;
        vstd::arithmetic::div_mod::lemma_fundamental_div_mod(pos + j, n);
        assert(k - pos == (-p) * n + j) by (nonlinear_arith)
            requires
                pos + j == n * p + k,
        ;
        vstd::arithmetic::div_mod::lemma_fundamental_div_mod_converse(k - pos, n, -p, j);
    }
}

proof fn lemma_laid_after<T, F: Fn(T, T) -> T>(
    mix: F,
    start: T,
    a: Seq<T>,
    pos: int,
    n: int,
    k: int,
    j: int,
)
    requires
        0 <= k < n,
        0 <= j <= n,
    ensures
        laid(mix, start, a, pos, n, k, j) == (if (k - pos) % n < j {
            of2(mix, start, a[(k - pos) % n])
        } else {
            start
        }),
    decreases j,
{
    if j > 0 {
        lemma_laid_after(mix, start, a, pos, n, k, j - 1);
        lemma_hits(pos, n, k, j - 1);
    }
}

/// A loop is as long as it was asked to be, whatever is laid into it, and every sample of
/// it keeps to its level, where the peak covers each sample that went into it and a
/// sample that the peak covers comes out right.
pub proof fn law_loops_are_full_and_level<T, S, F, P, L>(
    scale: S,
    mix: F,
    louder: P,
    level: L,
    zero: T,
    n: int,
    starts: Seq<usize>,
    gains: Seq<u8>,
    notes: Seq<Seq<T>>,
    covers: spec_fn(T, T) -> bool,
    ok: spec_fn(T) -> bool,
) where
    S: Fn(T, u8) -> T,
    F: Fn(T, T) -> T,
    P: Fn(T, T) -> T,
    L: Fn(T, T) -> T,

    requires
        n >= 0,
        forall|p: T, v: T| #[trigger] covers(of2(louder, p, v), v),
        forall|p: T, v: T, w: T| covers(p, v) ==> #[trigger] covers(of2(louder, p, w), v),
        forall|p: T, v: T| covers(p, v) ==> #[trigger] ok(of2(level, v, p)),
    ensures
        ({
            let r = loop_of(scale, mix, louder, level, zero, n, starts, gains, notes);
            &&& r.len() == n
            &&& forall|i: int| 0 <= i < n ==> ok(#[trigger] r[i])
        }),
{
    let x = mixed(mix, zero, n, starts, scaled(scale, gains, notes), notes.len() as int);
    lemma_mixed_is_full(mix, zero, n, starts, scaled(scale, gains, notes), notes.len() as int);
    law_levels_hold(louder, level, zero, x, covers, ok);
}

proof fn lemma_mixed_is_full<T, F: Fn(T, T) -> T>(
    mix: F,
    zero: T,
    n: int,
    starts: Seq<usize>,
    notes: Seq<Seq<T>>,
    k: int,
)
    requires
        n >= 0,
    ensures
        mixed(mix, zero, n, starts, notes, k).len() == n,
    decreases k,
{
    if k > 0 {
        lemma_mixed_is_full(mix, zero, n, starts, notes, k - 1);
    }
}

/// A cell of the table is a note of so many semitones, steps and hundredths, or a rest where
/// it has no length.
pub proof fn law_cells_are_notes_or_rests(i: int, j: int)
    requires
        0 <= i < N_PATTERNS,
        0 <= j < 16,
    ensures
        row_steps(i).len() == 16,
        PATTERN_ROWS@[i]@[j].1 == 0 ==> row_steps(i)[j] is None,
        PATTERN_ROWS@[i]@[j].1 > 0 ==> row_steps(i)[j] == Some(PATTERN_ROWS@[i]@[j]),
{
}

/// A swing stays between none and a half, and one that lies there stays what it is.
pub proof fn law_swing_is_kept_in_its_bounds(swing: u32)
    ensures
        !less(clamped_swing(swing), 0),
        !less(0x3f000000, clamped_swing(swing)),
        !less(swing, 0) && !less(0x3f000000, swing) ==> clamped_swing(swing) == swing,
        less(swing, 0) ==> clamped_swing(swing) == 0,
        less(0x3f000000, swing) ==> clamped_swing(swing) == 0x3f000000,
{
}

/// Every note of a pattern is played in every bar, and nothing else is: the note of step `k`
/// starts `k` steps in, later by the swing where the step is odd, at its own interval above
/// the root; its key is held for as many steps as it has, it rings on, and it has its own
/// gain. Notes come in the order of their steps.
pub proof fn law_every_step_is_played(
    pat: Seq<Option<Step>>,
    g: Grid,
    bars: int,
    k: int,
)
    requires
        pat.len() == 16,
        0 <= bars,
        loop_fits(pat, g, bars),
        0 <= k < 16 * bars,
    ensures
        ({
            let all = voices(pat, g, 16 * bars);
            let at = voices(pat, g, k).len() as int;
            match pat[k % 16] {
                Some((semi, gate, gain)) => {
                    &&& at < all.len()
                    &&& all[at].pos == k * g.step_n + (if k % 2 == 1 {
                        g.swing_n as int
                    } else {
                        0
                    })
                    &&& all[at].midi == g.root + semi
                    &&& all[at].gate_n == gate * g.step_n
                    &&& all[at].n == gate * g.step_n + g.tail
                    &&& all[at].gain == gain
                    &&& voices(pat, g, k + 1).len() == at + 1
                },
                None => voices(pat, g, k + 1).len() == at,
            }
        }),
        voices(pat, g, 0).len() == 0,
{
    assert(0 <= k * g.step_n && k * g.step_n + g.swing_n <= 16 * bars * g.step_n + g.swing_n)
        by (nonlinear_arith)
        requires
            0 <= k <= 16 * bars,
            0 <= g.step_n,
    ;
    if let Some((semi, gate, gain)) = pat[k % 16] {
        assert(0 <= gate * g.step_n) by (nonlinear_arith)
            requires
                0 <= gate,
                0 <= g.step_n,
        ;
        lemma_voices_stay(pat, g, k + 1, 16 * bars);
    }
}

/// Further steps leave the notes of the first ones where they are.
proof fn lemma_voices_stay(pat: Seq<Option<Step>>, g: Grid, k: int, n: int)
    requires
        0 <= k <= n,
    ensures
        voices(pat, g, k).len() <= voices(pat, g, n).len(),
        forall|i: int|
            0 <= i < voices(pat, g, k).len() ==> #[trigger] voices(pat, g, n)[i] == voices(
                pat,
                g,
                k,
            )[i],
    decreases n - k,
{
    if k < n {
        lemma_voices_stay(pat, g, k, n - 1);
    }
}

/// A note of a groove keeps its place, its pitch and its length: it starts as far into the
/// loop as its onset lies behind a whole number of rounds, at its own interval above the
/// root, and its key is held for as long as it says, or for the least there is.
pub proof fn law_grooves_keep_their_notes(o: Onset, root: int, loop_n: int, least: int, tail: int)
    requires
        0 < loop_n <= usize::MAX,
        0 <= least,
        0 <= tail,
        onset_fits(o, root, least, tail),
    ensures
        ({
            let v = placed(o, root, loop_n, least, tail);
            &&& 0 <= v.pos < loop_n
            &&& (o.at - v.pos) % loop_n == 0
            &&& o.at < loop_n ==> v.pos == o.at
            &&& v.midi == root + o.semi
            &&& o.held >= least ==> v.gate_n == o.held
            &&& o.held < least ==> v.gate_n == least
            &&& v.n == v.gate_n + tail
        }),
{
    vstd::arithmetic::div_mod::lemma_fundamental_div_mod(o.at as int, loop_n);
    let q = o.at as int / loop_n;
    assert(o.at - o.at as int % loop_n == q * loop_n + 0) by (nonlinear_arith)
        requires
            o.at as int == loop_n * q + o.at as int % loop_n,
    ;
    vstd::arithmetic::div_mod::lemma_fundamental_div_mod_converse(
        o.at - o.at as int % loop_n,
        loop_n,
        q,
        0,
    );
    if o.at < loop_n {
        vstd::arithmetic::div_mod::lemma_small_mod(o.at as nat, loop_n as nat);
    }
}

/// Every note is laid into its loop: where `w(k, v, i)` is what stands in cell `k` when `i`
/// samples of note `v` have been laid, every cell is silent at first, and each sample of
/// each note, scaled by the note's gain, goes into the cell that lies as far behind the
/// note's start, counted around the loop, and into no other; and where `top` is the peak of
/// the cells before each, every cell is brought to its level by the last.
pub proof fn law_every_note_is_laid<T, S, F, P, L>(
    scale: S,
    mix: F,
    louder: P,
    level: L,
    zero: T,
    n: int,
    starts: Seq<usize>,
    gains: Seq<u8>,
    notes: Seq<Seq<T>>,
    w: spec_fn(int, int, int) -> T,
    top: Seq<T>,
    k: int,
) where
    S: Fn(T, u8) -> T,
    F: Fn(T, T) -> T,
    P: Fn(T, T) -> T,
    L: Fn(T, T) -> T,

    requires
        0 <= k < n,
        forall|c: int| 0 <= c < n ==> #[trigger] w(c, 0, 0) == zero,
        forall|c: int, v: int, i: int|
            0 <= c < n && 0 <= v < notes.len() && 0 <= i < notes[v].len() ==> w(c, v, i + 1) == if (
            starts[v] + i) % n == c {
                of2(mix, #[trigger] w(c, v, i), of2(scale, notes[v][i], gains[v]))
            } else {
                w(c, v, i)
            },
        forall|c: int, v: int|
            0 <= c < n && 0 <= v < notes.len() ==> #[trigger] w(c, v + 1, 0) == w(
                c,
                v,
                notes[v].len() as int,
            ),
        top.len() == n + 1,
        top[0] == zero,
        forall|c: int|
            0 <= c < n ==> top[c + 1] == of2(
                louder,
                #[trigger] top[c],
                w(c, notes.len() as int, 0),
            ),
    ensures
        loop_of(scale, mix, louder, level, zero, n, starts, gains, notes).len() == n,
        loop_of(scale, mix, louder, level, zero, n, starts, gains, notes)[k] == of2(
            level,
            w(k, notes.len() as int, 0),
            top[n],
        ),
{
    let loud = scaled(scale, gains, notes);
    let x = mixed(mix, zero, n, starts, loud, notes.len() as int);
    lemma_mixed_is_full(mix, zero, n, starts, loud, notes.len() as int);
    assert forall|c: int| 0 <= c < n implies #[trigger] x[c] == w(c, notes.len() as int, 0) by {
        lemma_notes_run(scale, mix, zero, n, starts, gains, notes, w, c, notes.len() as int);
    }
    assert forall|c: int| 0 <= c < x.len() implies top[c + 1] == of2(louder, #[trigger] top[c], x[c]) by {
        assert(x[c] == w(c, notes.len() as int, 0));
    }
    law_levels_go_by_the_peak(louder, level, zero, x, top, k);
}

proof fn lemma_notes_run<T, S: Fn(T, u8) -> T, F: Fn(T, T) -> T>(
    scale: S,
    mix: F,
    zero: T,
    n: int,
    starts: Seq<usize>,
    gains: Seq<u8>,
    notes: Seq<Seq<T>>,
    w: spec_fn(int, int, int) -> T,
    c: int,
    v: int,
)
    requires
        0 <= c < n,
        0 <= v <= notes.len(),
        w(c, 0, 0) == zero,
        forall|v: int, i: int|
            0 <= v < notes.len() && 0 <= i < notes[v].len() ==> w(c, v, i + 1) == if (starts[v] + i)
                % n == c {
                of2(mix, #[trigger] w(c, v, i), of2(scale, notes[v][i], gains[v]))
            } else {
                w(c, v, i)
            },
        forall|v: int|
            0 <= v < notes.len() ==> #[trigger] w(c, v + 1, 0) == w(c, v, notes[v].len() as int),
    ensures
        mixed(mix, zero, n, starts, scaled(scale, gains, notes), v)[c] == w(c, v, 0),
    decreases v,
{
    let loud = scaled(scale, gains, notes);
    if v > 0 {
        lemma_notes_run(scale, mix, zero, n, starts, gains, notes, w, c, v - 1);
        lemma_mixed_is_full(mix, zero, n, starts, loud, v - 1);
        lemma_note_run(scale, mix, n, starts, gains, notes, w, c, v - 1, notes[v - 1].len() as int);
        assert(w(c, v - 1 + 1, 0) == w(c, v - 1, notes[v - 1].len() as int));
    }
}

proof fn lemma_note_run<T, S: Fn(T, u8) -> T, F: Fn(T, T) -> T>(
    scale: S,
    mix: F,
    n: int,
    starts: Seq<usize>,
    gains: Seq<u8>,
    notes: Seq<Seq<T>>,
    w: spec_fn(int, int, int) -> T,
    c: int,
    v: int,
    i: int,
)
    requires
        0 <= v < notes.len(),
        0 <= i <= notes[v].len(),
        forall|v: int, i: int|
            0 <= v < notes.len() && 0 <= i < notes[v].len() ==> w(c, v, i + 1) == if (starts[v] + i)
                % n == c {
                of2(mix, #[trigger] w(c, v, i), of2(scale, notes[v][i], gains[v]))
            } else {
                w(c, v, i)
            },
    ensures
        laid(mix, w(c, v, 0), scaled(scale, gains, notes)[v], starts[v] as int, n, c, i) == w(
            c,
            v,
            i,
        ),
    decreases i,
{
    if i > 0 {
        lemma_note_run(scale, mix, n, starts, gains, notes, w, c, v, i - 1);
        assert(w(c, v, i - 1 + 1) == if (starts[v] + (i - 1)) % n == c {
            of2(mix, w(c, v, i - 1), of2(scale, notes[v][i - 1], gains[v]))
        } else {
            w(c, v, i - 1)
        });
    }
}

} // verus!
