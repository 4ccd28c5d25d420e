//! The garden: archetypes and growing offspring.
//!
//! Chance, and rendering and scoring a patch, come in as functions; what is drawn from
//! what, what is kept, in which order, and when to stop is decided here. Scores are the
//! bit patterns of nonnegative `IEEE` numbers, which are ordered as the numbers are.

use crate::func::{of2, of3, pure2, pure3};
use crate::genome::{Genome, N_PARAMS};
use crate::order::{
    before, is_order, law_order_is_unique, lemma_order_exists, order_of, stable_order,
};
use crate::text::{chars_of, same_chars};
use crate::presets::is_thousandths;
use crate::single::{in_unit, is_less, is_number, less};
pub use crate::vet::Vet;
use vstd::prelude::*;

verus! {

// ---- archetypes --------------------------------------------------------------------------

pub const N_ARCHETYPES: usize = 7;

pub const ARCHETYPE_NAMES: [&'static str; 7] = [
    "bass",
    "reese",
    "lead",
    "pluck",
    "stab",
    "pad",
    "keys",
];

/// For each archetype, from where to where each knob is sampled, in hundredths of
/// its way.
pub const WINDOWS: [[(u8, u8); 16]; 7] = [
    // bass
    [
        (30, 55), (0, 50), (46, 54), (20, 60), (50, 100), (0, 10), (0, 35), (22, 50),
        (10, 50), (20, 60), (0, 10), (30, 70), (0, 6), (30, 70), (50, 100), (5, 40),
    ],
    // reese
    [
        (30, 55), (30, 55), (70, 95), (40, 60), (30, 80), (0, 15), (20, 70), (30, 60),
        (45, 85), (20, 60), (0, 15), (25, 70), (0, 8), (40, 90), (50, 100), (10, 50),
    ],
    // lead
    [
        (40, 90), (30, 80), (50, 62), (30, 70), (0, 30), (0, 10), (0, 40), (55, 90),
        (15, 55), (10, 50), (0, 20), (20, 70), (2, 25), (30, 80), (60, 100), (10, 50),
    ],
    // pluck
    [
        (20, 60), (20, 60), (47, 60), (20, 70), (0, 40), (0, 12), (0, 30), (40, 75),
        (30, 80), (50, 95), (0, 5), (5, 30), (0, 4), (10, 35), (0, 25), (5, 30),
    ],
    // stab
    [
        (30, 75), (30, 75), (45, 62), (30, 70), (10, 50), (0, 12), (10, 50), (45, 75),
        (25, 70), (35, 80), (0, 6), (12, 40), (0, 5), (15, 45), (15, 50), (8, 40),
    ],
    // pad
    [
        (5, 45), (5, 45), (55, 75), (35, 65), (10, 50), (0, 15), (0, 20), (40, 70),
        (10, 45), (10, 50), (30, 70), (30, 80), (35, 75), (40, 90), (60, 100), (40, 80),
    ],
    // keys
    [
        (10, 60), (10, 60), (48, 58), (30, 70), (10, 50), (0, 8), (0, 25), (45, 80),
        (15, 50), (20, 60), (0, 15), (20, 60), (0, 10), (25, 70), (40, 85), (10, 50),
    ],
];

/// For each archetype, a note that suits it.
pub const HOME_NOTES: [i32; 7] = [38, 39, 62, 56, 52, 53, 56];

/// The families of a lucky dip, with their chances in hundredths.
pub const DIE: [(&'static str, u8); 7] = [
    ("bass", 24),
    ("reese", 22),
    ("stab", 14),
    ("pluck", 12),
    ("lead", 10),
    ("keys", 10),
    ("pad", 8),
];

/// The first archetype at or after `k` that is called `name`.
pub open spec fn archetype_from(name: Seq<char>, k: int) -> Option<int>
    decreases N_ARCHETYPES - k,
{
    if k < 0 || k >= N_ARCHETYPES {
        None
    } else if ARCHETYPE_NAMES@[k]@ == name {
        Some(k)
    } else {
        archetype_from(name, k + 1)
    }
}

/// The archetype of a name; any other name stands for keys.
pub open spec fn archetype_of(name: Seq<char>) -> int {
    match archetype_from(name, 0) {
        Some(k) => k,
        None => 6,
    }
}

fn archetype(name: &str) -> (r: usize)
    ensures
        r == archetype_of(name@),
        r < N_ARCHETYPES,
{
    let want = chars_of(name);
    let mut k: usize = 0;
    while k < N_ARCHETYPES
        invariant
            k <= N_ARCHETYPES,
            want@ == name@,
            archetype_from(name@, 0) == archetype_from(name@, k as int),
        decreases N_ARCHETYPES - k,
    {
        let table = chars_of(ARCHETYPE_NAMES[k]);
        if same_chars(table.as_slice(), want.as_slice()) {
            return k;
        }
        k = k + 1;
    }
    6
}

/// From where to where an archetype's knobs are sampled, in hundredths.
pub fn windows(arch: &str) -> (r: [(u8, u8); 16])
    ensures
        r == WINDOWS@[archetype_of(arch@)],
{
    WINDOWS[archetype(arch)]
}

/// A note that suits the archetype.
pub fn home_note(arch: &str) -> (r: i32)
    ensures
        r == HOME_NOTES@[archetype_of(arch@)],
{
    HOME_NOTES[archetype(arch)]
}

/// A sample of an archetype: `within` places a roll in each knob's window.
pub open spec fn sampled<T, W: Fn(T, u8, u8) -> T>(arch: Seq<char>, rolls: Seq<T>, within: W) -> Seq<T> {
    let w = WINDOWS@[archetype_of(arch)]@;
    Seq::new(N_PARAMS as nat, |i: int| of3(within, rolls[i], w[i].0, w[i].1))
}

/// A sample of an archetype: `within` places a roll between two hundredths.
pub fn sample_archetype<T: Copy, W: Fn(T, u8, u8) -> T>(
    arch: &str,
    rolls: &[T; 16],
    within: &W,
) -> (r: Genome<T>)
    requires
        pure3(*within),
    ensures
        r@ == sampled(arch@, rolls@, *within),
        forall|i: int|
            0 <= i < N_PARAMS ==> call_ensures(
                *within,
                (
                    rolls@[i],
                    WINDOWS@[archetype_of(arch@)]@[i].0,
                    WINDOWS@[archetype_of(arch@)]@[i].1,
                ),
                #[trigger] r@[i],
            ),
{
    let w: [(u8, u8); 16] = windows(arch);
    let mut r: Genome<T> = *rolls;
    let mut i: usize = 0;
    while i < N_PARAMS
        invariant
            i <= N_PARAMS,
            pure3(*within),
            w == WINDOWS@[archetype_of(arch@)],
            forall|k: int|
                0 <= k < i ==> #[trigger] r@[k] == of3(*within, rolls@[k], w@[k].0, w@[k].1),
            forall|k: int|
                0 <= k < i ==> call_ensures(
                    *within,
                    (rolls@[k], w@[k].0, w@[k].1),
                    #[trigger] r@[k],
                ),
        decreases N_PARAMS - i,
    {
        let (lo, hi) = w[i];
        let v: T = within(rolls[i], lo, hi);
        r[i] = v;
        i = i + 1;
    }
    assert(r@ =~= sampled(arch@, rolls@, *within));
    r
}

/// A mutant: every knob of the seed, moved by its noise.
pub open spec fn mutated<T, M: Fn(T, T) -> T>(seed: Seq<T>, noise: Seq<T>, moved: M) -> Seq<T> {
    Seq::new(N_PARAMS as nat, |i: int| of2(moved, seed[i], noise[i]))
}

/// A mutant of a seed: `moved` moves a knob by its noise.
pub fn mutate<T: Copy, M: Fn(T, T) -> T>(seed: &Genome<T>, noise: &Genome<T>, moved: &M) -> (r: Genome<
    T,
>)
    requires
        pure2(*moved),
    ensures
        r@ == mutated(seed@, noise@, *moved),
        forall|i: int|
            0 <= i < N_PARAMS ==> call_ensures(*moved, (seed@[i], noise@[i]), #[trigger] r@[i]),
{
    let mut r: Genome<T> = *seed;
    let mut i: usize = 0;
    while i < N_PARAMS
        invariant
            i <= N_PARAMS,
            pure2(*moved),
            forall|k: int| 0 <= k < i ==> #[trigger] r@[k] == of2(*moved, seed@[k], noise@[k]),
            forall|k: int|
                0 <= k < i ==> call_ensures(*moved, (seed@[k], noise@[k]), #[trigger] r@[k]),
        decreases N_PARAMS - i,
    {
        let v: T = moved(seed[i], noise[i]);
        r[i] = v;
        i = i + 1;
    }
    assert(r@ =~= mutated(seed@, noise@, *moved));
    r
}

/// Every window lies on the knob's way and does not run backwards.
pub proof fn law_windows_are_ranges(a: int, i: int)
    requires
        0 <= a < N_ARCHETYPES,
        0 <= i < N_PARAMS,
    ensures
        WINDOWS@[a]@[i].0 <= WINDOWS@[a]@[i].1 <= 100,
{
}

/// Every name in the list names the archetype in its row.
pub proof fn law_listed_archetypes_exist(a: int)
    requires
        0 <= a < N_ARCHETYPES,
    ensures
        archetype_of(ARCHETYPE_NAMES@[a]@) == a,
{
    reveal_strlit("bass");
    reveal_strlit("reese");
    reveal_strlit("lead");
    reveal_strlit("pluck");
    reveal_strlit("stab");
    reveal_strlit("pad");
    reveal_strlit("keys");
    assert forall|i: int, j: int| 0 <= i < j < N_ARCHETYPES implies #[trigger] ARCHETYPE_NAMES@[i]@
        != #[trigger] ARCHETYPE_NAMES@[j]@ by {
        let x = ARCHETYPE_NAMES@[i]@;
        let y = ARCHETYPE_NAMES@[j]@;
        assert(x.len() != y.len() || x[0] != y[0] || x[1] != y[1]);
    }
    lemma_archetype_first(ARCHETYPE_NAMES@[a]@, 0, a);
}

proof fn lemma_archetype_in_range(name: Seq<char>, from: int)
    requires
        0 <= from <= N_ARCHETYPES,
    ensures
        archetype_from(name, from) matches Some(a) ==> 0 <= a < N_ARCHETYPES,
    decreases N_ARCHETYPES - from,
{
    if from < N_ARCHETYPES {
        lemma_archetype_in_range(name, from + 1);
    }
}

proof fn lemma_archetype_first(name: Seq<char>, from: int, a: int)
    requires
        0 <= from <= a < N_ARCHETYPES,
        ARCHETYPE_NAMES@[a]@ == name,
        forall|k: int| from <= k < a ==> #[trigger] ARCHETYPE_NAMES@[k]@ != name,
    ensures
        archetype_from(name, from) == Some(a),
    decreases a - from,
{
    if from < a {
        lemma_archetype_first(name, from + 1, a);
    }
}

/// The chances of the first `k` families, in hundredths.
pub open spec fn die_total(k: int) -> int
    decreases k,
{
    if k <= 0 {
        0
    } else {
        die_total(k - 1) + DIE@[k - 1].1
    }
}

/// The die is fair to its word: its chances make up the whole, and every family on
/// it is an archetype.
pub proof fn law_die_is_complete(k: int)
    requires
        0 <= k < N_ARCHETYPES,
    ensures
        die_total(N_ARCHETYPES as int) == 100,
        ARCHETYPE_NAMES@[archetype_of(DIE@[k].0@)]@ == DIE@[k].0@,
{
    reveal_with_fuel(die_total, 8);
    let a: int = if k == 0 {
        0
    } else if k == 1 {
        1
    } else if k == 2 {
        4
    } else if k == 3 {
        3
    } else if k == 4 {
        2
    } else if k == 5 {
        6
    } else {
        5
    };
    assert(ARCHETYPE_NAMES@[a]@ == DIE@[k].0@);
    law_listed_archetypes_exist(a);
}

/// What is left of a roll after the first `k` families have taken their share.
pub open spec fn roll_left<T, M: Fn(T, T) -> T>(minus: M, r: T, shares: Seq<T>, k: int) -> T
    decreases k,
{
    if k <= 0 {
        r
    } else {
        of2(minus, roll_left(minus, r, shares, k - 1), shares[k - 1])
    }
}

/// The roll falls on the `k`th family.
pub open spec fn falls_on<T, L: Fn(T, T) -> bool, M: Fn(T, T) -> T>(
    less: L,
    minus: M,
    r: T,
    shares: Seq<T>,
    k: int,
) -> bool {
    of2(less, roll_left(minus, r, shares, k), shares[k])
}

/// The roll's family is the `k`th: the first that it falls on, or the first of all if it
/// falls on none.
pub open spec fn is_family<T, L: Fn(T, T) -> bool, M: Fn(T, T) -> T>(
    less: L,
    minus: M,
    r: T,
    shares: Seq<T>,
    k: int,
) -> bool {
    &&& 0 <= k < 7
    &&& forall|i: int| 0 <= i < k ==> !#[trigger] falls_on(less, minus, r, shares, i)
    &&& k > 0 ==> falls_on(less, minus, r, shares, k)
    &&& k == 0 ==> falls_on(less, minus, r, shares, 0) || forall|i: int|
        0 <= i < 7 ==> !#[trigger] falls_on(less, minus, r, shares, i)
}

/// Which family a roll falls on: the first whose share is above what the families
/// before it have left of the roll; the first family if there is none.
pub fn roll_family<T: Copy, L: Fn(T, T) -> bool, M: Fn(T, T) -> T>(
    r: T,
    shares: &[T; 7],
    less: &L,
    minus: &M,
) -> (k: usize)
    requires
        pure2(*less),
        pure2(*minus),
    ensures
        is_family(*less, *minus, r, shares@, k as int),
{
    let mut left: T = r;
    let mut i: usize = 0;
    while i < 7
        invariant
            i <= 7,
            pure2(*less),
            pure2(*minus),
            left == roll_left(*minus, r, shares@, i as int),
            forall|j: int| 0 <= j < i ==> !#[trigger] falls_on(*less, *minus, r, shares@, j),
        decreases 7 - i,
    {
        let hit: bool = less(left, shares[i]);
        assert(hit == falls_on(*less, *minus, r, shares@, i as int));
        if hit {
            return i;
        }
        left = minus(left, shares[i]);
        i = i + 1;
    }
    0
}

// ---- hygiene ----------------------------------------------------------------------------------

/// The knob of the second oscillator's detune.
pub const DETUNE_IDX: usize = 2;

/// The knobs of the amplitude envelope's decay and sustain.
pub const AMP_D_IDX: usize = 13;

pub const AMP_S_IDX: usize = 14;

/// The lowest and the highest note at which generated sounds are listened to.
pub const VET_LO: i32 = 28;

pub const VET_HI: i32 = 72;

/// 0.46 and 0.54, as singles: a detune from the one up to the other is next to none.
pub const DEAD_ZONE: (u32, u32) = (0x3eeb851f, 0x3f0a3d71);

/// 0.5, as a single: no detune.
pub const TUNED: u32 = 0x3f000000;

/// 0.1, as a single: a sustain below it is next to none.
pub const LOW_SUSTAIN: u32 = 0x3dcccccd;

/// 0.26, as a single: the shortest decay that is heard without a sustain.
pub const MIN_DECAY: u32 = 0x3e851eb8;

/// A detune so small that it reads as out of tune.
pub open spec fn nearly_tuned(v: u32) -> bool {
    is_number(v) && !less(v, DEAD_ZONE.0) && less(v, DEAD_ZONE.1)
}

/// A tidied genome: a detune so small that it reads as out of tune is none, and
/// where the sustain is near zero the decay is long enough to be heard.
pub open spec fn tidied(g: Seq<u32>) -> Seq<u32> {
    let h = if nearly_tuned(g[DETUNE_IDX as int]) {
        g.update(DETUNE_IDX as int, TUNED)
    } else {
        g
    };
    if less(h[AMP_S_IDX as int], LOW_SUSTAIN) && less(h[AMP_D_IDX as int], MIN_DECAY) {
        h.update(AMP_D_IDX as int, MIN_DECAY)
    } else {
        h
    }
}

/// Tidies a generated genome, whose knobs are the bits of singles.
pub fn tidy(g: &mut Genome<u32>)
    ensures
        final(g)@ == tidied(old(g)@),
{
    // below the zone's end is below some number, so only numbers get there
    if is_less(g[DETUNE_IDX], DEAD_ZONE.1) && !is_less(g[DETUNE_IDX], DEAD_ZONE.0) {
        g[DETUNE_IDX] = TUNED;
    }
    if is_less(g[AMP_S_IDX], LOW_SUSTAIN) && is_less(g[AMP_D_IDX], MIN_DECAY) {
        g[AMP_D_IDX] = MIN_DECAY;
    }
}

/// A tidy genome: its detune is none or worth hearing, and no sound without a sustain
/// decays too soon.
pub open spec fn is_tidy(g: Seq<u32>) -> bool {
    &&& nearly_tuned(g[DETUNE_IDX as int]) ==> g[DETUNE_IDX as int] == TUNED
    &&& !(less(g[AMP_S_IDX as int], LOW_SUSTAIN) && less(g[AMP_D_IDX as int], MIN_DECAY))
}

/// A tidied genome is tidy. Tidying it again changes nothing, and no knob but the
/// detune and the decay is touched.
pub proof fn law_tidy_is_idempotent(g: Seq<u32>)
    requires
        g.len() == N_PARAMS,
    ensures
        ({
            let h = tidied(g);
            &&& is_tidy(h)
            &&& tidied(h) == h
            &&& forall|i: int|
                0 <= i < N_PARAMS && i != DETUNE_IDX && i != AMP_D_IDX ==> #[trigger] h[i] == g[i]
        }),
{
    assert(tidied(tidied(g)) =~= tidied(g));
}

/// Tidying leaves every knob on its way, from 0 to 1.
pub proof fn law_tidying_keeps_the_range(g: Seq<u32>)
    requires
        g.len() == N_PARAMS,
        forall|i: int| 0 <= i < N_PARAMS ==> in_unit(#[trigger] g[i]),
    ensures
        forall|i: int| 0 <= i < N_PARAMS ==> in_unit(#[trigger] tidied(g)[i]),
{
}

/// Mutants that nothing moves are the seed, tidied.
pub proof fn law_unmoved_mutants_are_the_seed<M: Fn(u32, u32) -> u32>(
    seed: Seq<u32>,
    noise: Seq<u32>,
    moved: M,
)
    requires
        seed.len() == N_PARAMS,
        forall|i: int|
            0 <= i < N_PARAMS ==> #[trigger] of2(moved, seed[i], noise[i]) == seed[i],
    ensures
        tidied(mutated(seed, noise, moved)) == tidied(seed),
{
    assert forall|i: int| 0 <= i < N_PARAMS implies #[trigger] mutated(seed, noise, moved)[i]
        == seed[i] by {
        assert(of2(moved, seed[i], noise[i]) == seed[i]);
    }
    assert(mutated(seed, noise, moved) =~= seed);
}

/// A knob lies in its window, whose ends are hundredths.
pub open spec fn in_window(v: u32, lo: u8, hi: u8) -> bool {
    &&& is_number(v)
    &&& forall|b: u32| #[trigger] is_thousandths(10 * lo, b) ==> !less(v, b)
    &&& forall|b: u32| #[trigger] is_thousandths(10 * hi, b) ==> !less(b, v)
}

/// The `i`th knob lies in its window, or is one of the two that tidying has set.
pub open spec fn in_window_or_tidied(arch: Seq<char>, i: int, v: u32) -> bool {
    let w = WINDOWS@[archetype_of(arch)]@[i];
    ||| in_window(v, w.0, w.1)
    ||| i == DETUNE_IDX && v == TUNED
    ||| i == AMP_D_IDX && v == MIN_DECAY
}

/// Samples of an archetype stay in its windows when they are tidied, but for a detune
/// that becomes none and a decay that becomes the shortest that is heard.
pub proof fn law_samples_stay_in_their_windows<W: Fn(u32, u8, u8) -> u32>(
    arch: Seq<char>,
    rolls: Seq<u32>,
    within: W,
    i: int,
)
    requires
        0 <= i < N_PARAMS,
        rolls.len() == N_PARAMS,
        forall|k: int| 0 <= k < N_PARAMS ==> in_unit(#[trigger] rolls[k]),
        forall|v: u32, lo: u8, hi: u8|
            in_unit(v) && lo <= hi <= 100 ==> in_window(#[trigger] of3(within, v, lo, hi), lo, hi),
    ensures
        in_window_or_tidied(arch, i, tidied(sampled(arch, rolls, within))[i]),
{
    lemma_archetype_in_range(arch, 0);
    law_windows_are_ranges(archetype_of(arch), i);
    let w = WINDOWS@[archetype_of(arch)]@[i];
    assert(in_window(of3(within, rolls[i], w.0, w.1), w.0, w.1));
}

/// The note at which a generated sound is listened to.
pub fn vet_note(note: i32) -> (r: i32)
    ensures
        r == if note < VET_LO {
            VET_LO
        } else if note > VET_HI {
            VET_HI
        } else {
            note
        },
{
    if note < VET_LO {
        VET_LO
    } else if note > VET_HI {
        VET_HI
    } else {
        note
    }
}

// ---- growing ----------------------------------------------------------------------------------

/// A genome with its score (the bits of a nonnegative single).
#[derive(Clone, Copy, Debug)]
pub struct Seedling {
    pub genome: Genome<u32>,
    pub score: u64,
}

/// A generated genome, what is wrong with its sound, and its score. The score of
/// a bad one is not looked at.
#[derive(Clone, Copy, Debug)]
pub struct Attempt {
    pub genome: Genome<u32>,
    pub vet: Vet,
    pub score: u64,
}

/// The seedlings of those attempts that nothing is wrong with, as they came.
pub open spec fn good(attempts: Seq<Attempt>) -> Seq<Seedling>
    decreases attempts.len(),
{
    if attempts.len() == 0 {
        Seq::empty()
    } else {
        let a = attempts.last();
        let front = good(attempts.drop_last());
        if a.vet.any() {
            front
        } else {
            front.push(Seedling { genome: a.genome, score: a.score })
        }
    }
}

/// A generation of `n` still wants attempts: it is not full, and fewer than three
/// times as many have been made.
pub open spec fn growing(n: int, attempts: Seq<Attempt>) -> bool {
    good(attempts).len() < n && attempts.len() < 3 * n
}

/// Each attempt was made when another was wanted.
pub open spec fn is_run(n: int, attempts: Seq<Attempt>) -> bool {
    forall|k: int| 0 <= k < attempts.len() ==> growing(n, #[trigger] attempts.take(k))
}

/// Every attempt was made on a tidy genome.
pub open spec fn all_tidy(attempts: Seq<Attempt>) -> bool {
    forall|k: int| 0 <= k < attempts.len() ==> is_tidy(#[trigger] attempts[k].genome@)
}

/// How a seedling ranks: the higher its score, the lower.
pub open spec fn rank(s: Seedling) -> u64 {
    (u64::MAX - s.score) as u64
}

pub open spec fn ranks(s: Seq<Seedling>) -> Seq<u64> {
    Seq::new(s.len(), |i: int| rank(s[i]))
}

/// Best score first; seedlings with the same score as they came.
pub open spec fn best_first(s: Seq<Seedling>) -> Seq<Seedling> {
    let order = order_of(ranks(s));
    Seq::new(order.len(), |i: int| s[order[i] as int])
}

/// A generation being grown.
pub struct GrowRun {
    n: usize,
    tries: usize,
    kept: Vec<Seedling>,
    attempts: Ghost<Seq<Attempt>>,
}

impl GrowRun {
    /// How many seedlings are asked for.
    pub closed spec fn size(&self) -> int {
        self.n as int
    }

    /// The attempts made so far.
    pub closed spec fn attempts(&self) -> Seq<Attempt> {
        self.attempts@
    }

    pub closed spec fn inv(&self) -> bool {
        &&& 3 * self.n <= usize::MAX
        &&& self.tries == self.attempts@.len()
        &&& self.kept@ == good(self.attempts@)
        &&& is_run(self.n as int, self.attempts@)
        &&& all_tidy(self.attempts@)
    }

    /// A generation of `n`, with no attempt made.
    pub fn new(n: usize) -> (r: Self)
        requires
            3 * n <= usize::MAX,
        ensures
            r.inv(),
            r.size() == n,
            r.attempts() == Seq::<Attempt>::empty(),
            is_run(r.size(), r.attempts()),
    {
        GrowRun { n, tries: 0, kept: Vec::new(), attempts: Ghost(Seq::empty()) }
    }

    /// Whether another attempt is wanted.
    pub fn wants(&self) -> (r: bool)
        requires
            self.inv(),
        ensures
            r == growing(self.size(), self.attempts()),
    {
        self.kept.len() < self.n && self.tries < self.n * 3
    }

    /// The genome that an attempt is made on, from what was drawn for it.
    pub fn prepare(&self, drawn: Genome<u32>) -> (r: Genome<u32>)
        ensures
            r@ == tidied(drawn@),
            is_tidy(r@),
    {
        let mut g = drawn;
        tidy(&mut g);
        proof {
            law_tidy_is_idempotent(drawn@);
        }
        g
    }

    /// Takes in an attempt.
    pub fn record(&mut self, a: Attempt)
        requires
            old(self).inv(),
            growing(old(self).size(), old(self).attempts()),
            is_tidy(a.genome@),
        ensures
            final(self).inv(),
            final(self).size() == old(self).size(),
            final(self).attempts() == old(self).attempts().push(a),
            is_run(final(self).size(), final(self).attempts()),
            all_tidy(final(self).attempts()),
    {
        let ghost before = self.attempts@;
        self.tries = self.tries + 1;
        if !a.vet.bad() {
            self.kept.push(Seedling { genome: a.genome, score: a.score });
        }
        self.attempts = Ghost(before.push(a));
        proof {
            assert(before.push(a).drop_last() =~= before);
            assert forall|k: int| 0 <= k < before.push(a).len() implies growing(
                self.n as int,
                #[trigger] before.push(a).take(k),
            ) by {
                if k < before.len() {
                    assert(before.push(a).take(k) =~= before.take(k));
                } else {
                    assert(before.push(a).take(k) =~= before);
                }
            }
        }
    }

    /// The seedlings, best first: each is an attempt that nothing is wrong with, on a
    /// tidy genome.
    pub fn finish(self) -> (r: Vec<Seedling>)
        requires
            self.inv(),
        ensures
            r@ == best_first(good(self.attempts())),
            r@.len() <= self.size(),
            self.attempts().len() <= 3 * self.size(),
            forall|i: int, j: int|
                0 <= i < j < r@.len() ==> (#[trigger] r@[i]).score >= (#[trigger] r@[j]).score,
            forall|i: int| 0 <= i < r@.len() ==> is_tidy((#[trigger] r@[i]).genome@),
            forall|i: int| 0 <= i < r@.len() ==> was_vetted(self.attempts(), #[trigger] r@[i]),
    {
        let kept = self.kept;
        let mut keys: Vec<u64> = Vec::new();
        let mut i: usize = 0;
        while i < kept.len()
            invariant
                i <= kept@.len(),
                keys@ == ranks(kept@).take(i as int),
            decreases kept@.len() - i,
        {
            keys.push(u64::MAX - kept[i].score);
            i = i + 1;
            assert(keys@ =~= ranks(kept@).take(i as int));
        }
        assert(keys@ =~= ranks(kept@));
        let order = stable_order(keys.as_slice());
        proof {
            lemma_order_exists(ranks(kept@));
            law_order_is_unique(ranks(kept@), order@, order_of(ranks(kept@)));
        }
        let mut r: Vec<Seedling> = Vec::new();
        let mut j: usize = 0;
        while j < order.len()
            invariant
                j <= order@.len(),
                is_order(ranks(kept@), order@),
                order@ == order_of(ranks(kept@)),
                r@ == best_first(kept@).take(j as int),
            decreases order@.len() - j,
        {
            assert(order@.contains(order@[j as int]));
            r.push(kept[order[j]]);
            j = j + 1;
            assert(r@ =~= best_first(kept@).take(j as int));
        }
        assert(r@ =~= best_first(kept@));
        proof {
            law_grow_is_bounded(self.n as int, self.attempts@);
            law_best_first(kept@);
            law_seedlings_are_tidy(self.attempts@);
        }
        r
    }
}

/// The generators only emit vetted sounds: each seedling kept is an attempt that
/// nothing is wrong with.
pub proof fn law_good_is_vetted(attempts: Seq<Attempt>, i: int)
    requires
        0 <= i < good(attempts).len(),
    ensures
        exists|k: int| 0 <= k < attempts.len() && #[trigger] is_seedling(attempts, k, good(attempts)[i]),
    decreases attempts.len(),
{
    let front = attempts.drop_last();
    if i < good(front).len() {
        law_good_is_vetted(front, i);
        let k = choose|k: int| 0 <= k < front.len() && #[trigger] is_seedling(front, k, good(front)[i]);
        assert(is_seedling(attempts, k, good(attempts)[i]));
    } else {
        assert(is_seedling(attempts, attempts.len() - 1, good(attempts)[i]));
    }
}

/// The `k`th attempt passed vetting and became the seedling `s`.
pub open spec fn is_seedling(attempts: Seq<Attempt>, k: int, s: Seedling) -> bool {
    !attempts[k].vet.any() && s.genome == attempts[k].genome && s.score == attempts[k].score
}

/// The seedling comes of an attempt that passed vetting.
pub open spec fn was_vetted(attempts: Seq<Attempt>, s: Seedling) -> bool {
    exists|k: int| 0 <= k < attempts.len() && #[trigger] is_seedling(attempts, k, s)
}

/// Where every attempt was made on a tidy genome, every seedling is tidy, and was
/// vetted.
pub proof fn law_seedlings_are_tidy(attempts: Seq<Attempt>)
    requires
        all_tidy(attempts),
        attempts.len() <= usize::MAX,
    ensures
        forall|i: int|
            0 <= i < best_first(good(attempts)).len() ==> is_tidy(
                (#[trigger] best_first(good(attempts))[i]).genome@,
            ) && was_vetted(attempts, best_first(good(attempts))[i]),
{
    let s = good(attempts);
    let b = best_first(s);
    lemma_good_is_no_more(attempts);
    law_best_first(s);
    assert forall|i: int| 0 <= i < b.len() implies is_tidy((#[trigger] b[i]).genome@) && was_vetted(
        attempts,
        b[i],
    ) by {
        assert(b.contains(b[i]));
        assert(s.contains(b[i]));
        let j = choose|j: int| 0 <= j < s.len() && s[j] == b[i];
        law_good_is_vetted(attempts, j);
        let k = choose|k: int| 0 <= k < attempts.len() && #[trigger] is_seedling(attempts, k, s[j]);
        assert(is_tidy(attempts[k].genome@));
    }
}

proof fn lemma_good_is_no_more(attempts: Seq<Attempt>)
    ensures
        good(attempts).len() <= attempts.len(),
    decreases attempts.len(),
{
    if attempts.len() > 0 {
        lemma_good_is_no_more(attempts.drop_last());
    }
}

/// A generation never outgrows what was asked for, and never takes more than
/// three times as many attempts.
pub proof fn law_grow_is_bounded(n: int, attempts: Seq<Attempt>)
    requires
        n >= 0,
        is_run(n, attempts),
    ensures
        good(attempts).len() <= n,
        attempts.len() <= 3 * n,
{
    if attempts.len() > 0 {
        let k = attempts.len() - 1;
        assert(growing(n, attempts.take(k)));
        assert(attempts.take(k) =~= attempts.drop_last());
    }
}

/// Best first means what it says: no seedling is gained or lost, a score is never
/// followed by a higher one, and equal scores stay as they came.
pub proof fn law_best_first(s: Seq<Seedling>)
    requires
        s.len() <= usize::MAX,
    ensures
        best_first(s).len() == s.len(),
        forall|x: Seedling| best_first(s).contains(x) <==> s.contains(x),
        forall|i: int, j: int|
            0 <= i < j < s.len() ==> (#[trigger] best_first(s)[i]).score >= (#[trigger] best_first(
                s,
            )[j]).score,
        forall|i: int, j: int|
            0 <= i < j < s.len() && (#[trigger] best_first(s)[i]).score == (#[trigger] best_first(
                s,
            )[j]).score ==> order_of(ranks(s))[i] < order_of(ranks(s))[j],
{
    let keys = ranks(s);
    let order = order_of(keys);
    let b = best_first(s);
    lemma_order_exists(keys);
    assert forall|i: int| 0 <= i < order.len() implies (#[trigger] order[i]) < s.len() by {
        assert(order.contains(order[i]));
    }
    assert forall|x: Seedling| b.contains(x) <==> s.contains(x) by {
        if b.contains(x) {
            let i = choose|i: int| 0 <= i < b.len() && b[i] == x;
            assert(s[order[i] as int] == x);
        }
        if s.contains(x) {
            let k = choose|k: int| 0 <= k < s.len() && s[k] == x;
            assert(order.contains(k as usize));
            let i = choose|i: int| 0 <= i < order.len() && order[i] == k as usize;
            assert(b[i] == x);
        }
    }
    assert forall|i: int, j: int| 0 <= i < j < s.len() implies (#[trigger] b[i]).score >= (
    #[trigger] b[j]).score && (b[i].score == b[j].score ==> order[i] < order[j]) by {
        assert(before(keys, order[i], order[j]));
    }
}

// ---- the lucky dip ------------------------------------------------------------------------------

/// 0.35, as a single: a pool whose best scores less is followed by one more.
pub const GOOD_ENOUGH: u64 = 0x3eb33333;

/// What to generate next.
#[derive(Clone, Copy, Debug, PartialEq, Eq, Structural)]
pub enum Draw {
    /// A sample of the family a roll falls on.
    Family,
    /// A fully random genome.
    Wildcard,
    /// Nothing: the dip is over.
    Done,
}

/// The best of the attempts so far: of those that nothing is wrong with the first
/// that no other beats.
pub open spec fn best_of(attempts: Seq<Attempt>) -> Option<Seedling>
    decreases attempts.len(),
{
    if attempts.len() == 0 {
        None
    } else {
        let a = attempts.last();
        let s = Seedling { genome: a.genome, score: a.score };
        let front = best_of(attempts.drop_last());
        if a.vet.any() {
            front
        } else {
            match front {
                None => Some(s),
                Some(b) => if a.score > b.score {
                    Some(s)
                } else {
                    front
                },
            }
        }
    }
}

/// What a dip with pools of `pool` draws after these attempts. A pool ends in two
/// wildcards; a second pool follows only if the first has brought nothing good
/// enough.
pub open spec fn draw_after(pool: int, attempts: Seq<Attempt>) -> Draw {
    let n = attempts.len() as int;
    if n >= 2 * pool {
        Draw::Done
    } else if n == pool && (best_of(attempts) matches Some(b) && b.score >= GOOD_ENOUGH) {
        Draw::Done
    } else {
        let i = if n < pool { n } else { n - pool };
        if i + 2 < pool {
            Draw::Family
        } else {
            Draw::Wildcard
        }
    }
}

/// A lucky dip under way.
pub struct LuckyDip {
    pool: usize,
    tries: usize,
    best: Option<Seedling>,
    attempts: Ghost<Seq<Attempt>>,
}

impl LuckyDip {
    pub closed spec fn pool(&self) -> int {
        self.pool as int
    }

    /// The attempts made so far.
    pub closed spec fn attempts(&self) -> Seq<Attempt> {
        self.attempts@
    }

    pub closed spec fn inv(&self) -> bool {
        &&& 2 * self.pool <= usize::MAX
        &&& self.tries == self.attempts@.len()
        &&& self.tries <= 2 * self.pool
        &&& self.best == best_of(self.attempts@)
        &&& all_tidy(self.attempts@)
    }

    /// A dip with pools of `pool`.
    pub fn new(pool: usize) -> (r: Self)
        requires
            2 * pool <= usize::MAX,
        ensures
            r.inv(),
            r.pool() == pool,
            r.attempts() == Seq::<Attempt>::empty(),
    {
        LuckyDip { pool, tries: 0, best: None, attempts: Ghost(Seq::empty()) }
    }

    /// What to draw next.
    pub fn next(&self) -> (r: Draw)
        requires
            self.inv(),
        ensures
            r == draw_after(self.pool(), self.attempts()),
    {
        if self.tries >= self.pool * 2 {
            return Draw::Done;
        }
        if self.tries == self.pool {
            if let Some(b) = &self.best {
                if b.score >= GOOD_ENOUGH {
                    return Draw::Done;
                }
            }
        }
        let i: usize = if self.tries < self.pool {
            self.tries
        } else {
            self.tries - self.pool
        };
        if self.pool - i > 2 {
            Draw::Family
        } else {
            Draw::Wildcard
        }
    }

    /// The genome that an attempt is made on, from what was drawn for it.
    pub fn prepare(&self, drawn: Genome<u32>) -> (r: Genome<u32>)
        ensures
            r@ == tidied(drawn@),
            is_tidy(r@),
    {
        let mut g = drawn;
        tidy(&mut g);
        proof {
            law_tidy_is_idempotent(drawn@);
        }
        g
    }

    /// Takes in an attempt.
    pub fn record(&mut self, a: Attempt)
        requires
            old(self).inv(),
            draw_after(old(self).pool(), old(self).attempts()) != Draw::Done,
            is_tidy(a.genome@),
        ensures
            final(self).inv(),
            final(self).pool() == old(self).pool(),
            final(self).attempts() == old(self).attempts().push(a),
            all_tidy(final(self).attempts()),
    {
        let ghost before = self.attempts@;
        self.tries = self.tries + 1;
        if !a.vet.bad() {
            let better: bool = match &self.best {
                None => true,
                Some(b) => a.score > b.score,
            };
            if better {
                self.best = Some(Seedling { genome: a.genome, score: a.score });
            }
        }
        self.attempts = Ghost(before.push(a));
        assert(before.push(a).drop_last() =~= before);
    }

    /// The genome that was dealt, if any sound passed.
    pub fn result(&self) -> (r: Option<Genome<u32>>)
        requires
            self.inv(),
        ensures
            r == match best_of(self.attempts()) {
                Some(s) => Some(s.genome),
                None => None,
            },
            r matches Some(g) ==> is_tidy(g@),
    {
        proof {
            law_dealt_patches_are_tidy(self.attempts@);
        }
        match &self.best {
            Some(s) => Some(s.genome),
            None => None,
        }
    }
}

/// What is dealt passed vetting, and nothing that passed scores higher; nothing is
/// dealt only where nothing passed.
pub proof fn law_lucky_dip_deals_the_best(attempts: Seq<Attempt>)
    ensures
        match best_of(attempts) {
            Some(s) => {
                &&& exists|k: int| 0 <= k < attempts.len() && #[trigger] is_seedling(attempts, k, s)
                &&& forall|k: int|
                    0 <= k < attempts.len() && !(#[trigger] attempts[k]).vet.any()
                        ==> attempts[k].score <= s.score
            },
            None => forall|k: int| 0 <= k < attempts.len() ==> (#[trigger] attempts[k]).vet.any(),
        },
    decreases attempts.len(),
{
    if attempts.len() > 0 {
        let front = attempts.drop_last();
        let last = attempts.len() - 1;
        law_lucky_dip_deals_the_best(front);
        assert forall|k: int| 0 <= k < last implies #[trigger] attempts[k] == front[k] by {}
        if let Some(s) = best_of(attempts) {
            if best_of(front) == Some(s) && (attempts.last().vet.any() || attempts.last().score
                <= s.score) {
                let k = choose|k: int| 0 <= k < front.len() && #[trigger] is_seedling(front, k, s);
                assert(is_seedling(attempts, k, s));
            } else {
                assert(is_seedling(attempts, last, s));
            }
        }
    }
}

/// Where every attempt was made on a tidy genome, the patch that is dealt is tidy.
pub proof fn law_dealt_patches_are_tidy(attempts: Seq<Attempt>)
    requires
        all_tidy(attempts),
    ensures
        best_of(attempts) matches Some(s) ==> is_tidy(s.genome@) && was_vetted(attempts, s),
{
    law_lucky_dip_deals_the_best(attempts);
    if let Some(s) = best_of(attempts) {
        let k = choose|k: int| 0 <= k < attempts.len() && #[trigger] is_seedling(attempts, k, s);
        assert(is_tidy(attempts[k].genome@));
    }
}

/// A dip ends: it makes at most two pools of attempts, and it makes the first in
/// full.
pub proof fn law_lucky_dip_ends(pool: int, attempts: Seq<Attempt>)
    requires
        pool >= 0,
    ensures
        attempts.len() >= 2 * pool ==> draw_after(pool, attempts) == Draw::Done,
        draw_after(pool, attempts) == Draw::Done ==> attempts.len() >= pool,
        attempts.len() < pool ==> (draw_after(pool, attempts) == Draw::Wildcard <==> attempts.len()
            + 2 >= pool),
{
}

// ---- gardening ----------------------------------------------------------------------------------

/// What gardening is done with.
pub struct Gardener<R, N, W, M, J> {
    /// A roll between 0 and 1 for every knob, for the attempt of that number.
    pub rolls: R,
    /// A deviation for every knob, for the attempt of that number.
    pub noise: N,
    /// A roll, placed between two hundredths.
    pub within: W,
    /// A knob, moved by its deviation.
    pub moved: M,
    /// Listens to a genome: what is wrong with its sound, and its score.
    pub judge: J,
}

/// The name that was asked for, if any.
pub open spec fn name_of(arch: Option<&str>) -> Option<Seq<char>> {
    match arch {
        Some(a) => Some(a@),
        None => None,
    }
}

/// `roll` may have fallen on the `k`th family for the attempt of number `t`.
pub open spec fn may_fall<T, F: Fn(usize) -> T, L: Fn(T, T) -> bool, S: Fn(T, T) -> T>(
    roll: F,
    less: L,
    minus: S,
    shares: Seq<T>,
    t: int,
    k: int,
) -> bool {
    exists|r: T| #[trigger]
        call_ensures(roll, (t as usize,), r) && is_family(less, minus, r, shares, k)
}

impl<
    R: Fn(usize) -> Genome<u32>,
    N: Fn(usize) -> Genome<u32>,
    W: Fn(u32, u8, u8) -> u32,
    M: Fn(u32, u32) -> u32,
    J: Fn(Genome<u32>) -> (Vet, u64),
> Gardener<R, N, W, M, J> {
    /// Whatever is drawn, it can be worked with.
    pub open spec fn able(&self) -> bool {
        &&& forall|t: usize| call_requires(self.rolls, (t,))
        &&& forall|t: usize| call_requires(self.noise, (t,))
        &&& forall|g: Genome<u32>| call_requires(self.judge, (g,))
        &&& pure3(self.within)
        &&& pure2(self.moved)
    }

    /// `judge` may have found of an attempt's genome what the attempt says.
    pub open spec fn judged(&self, a: Attempt) -> bool {
        call_ensures(self.judge, (a.genome,), (a.vet, a.score))
    }

    /// The attempt of number `t` of a generation: a sample of the archetype that was
    /// asked for or else a mutant of the seed, tidied and listened to.
    pub open spec fn grown(&self, seed: Seq<u32>, arch: Option<Seq<char>>, t: int, a: Attempt) -> bool {
        &&& self.judged(a)
        &&& match arch {
            Some(name) => exists|x: Genome<u32>| #[trigger]
                call_ensures(self.rolls, (t as usize,), x) && a.genome@ == tidied(
                    sampled(name, x@, self.within),
                ),
            None => exists|x: Genome<u32>| #[trigger]
                call_ensures(self.noise, (t as usize,), x) && a.genome@ == tidied(
                    mutated(seed, x@, self.moved),
                ),
        }
    }

    /// The attempts of a generation of `n`: made as long as another was wanted.
    pub open spec fn is_generation(
        &self,
        seed: Seq<u32>,
        arch: Option<Seq<char>>,
        n: int,
        attempts: Seq<Attempt>,
    ) -> bool {
        &&& is_run(n, attempts)
        &&& !growing(n, attempts)
        &&& all_tidy(attempts)
        &&& forall|t: int|
            0 <= t < attempts.len() ==> self.grown(seed, arch, t, #[trigger] attempts[t])
    }

    /// Grows a generation of `n`, from samples of an archetype or else from mutants of the
    /// seed: those that nothing is wrong with, best first.
    pub fn grow(&self, seed: &Genome<u32>, arch: Option<&str>, n: usize) -> (r: Vec<Seedling>)
        requires
            self.able(),
            3 * n <= usize::MAX,
        ensures
            exists|attempts: Seq<Attempt>| #[trigger]
                self.is_generation(seed@, name_of(arch), n as int, attempts) && r@ == best_first(
                    good(attempts),
                ),
            r@.len() <= n,
            forall|i: int, j: int|
                0 <= i < j < r@.len() ==> (#[trigger] r@[i]).score >= (#[trigger] r@[j]).score,
            forall|i: int| 0 <= i < r@.len() ==> is_tidy((#[trigger] r@[i]).genome@),
    {
        let mut run = GrowRun::new(n);
        while run.wants()
            invariant
                self.able(),
                run.inv(),
                run.size() == n,
                forall|t: int|
                    0 <= t < run.attempts().len() ==> self.grown(
                        seed@,
                        name_of(arch),
                        t,
                        #[trigger] run.attempts()[t],
                    ),
            ensures
                !growing(n as int, run.attempts()),
            decreases 3 * n - run.tries,
        {
            let t: usize = run.tries;
            let drawn: Genome<u32> = match arch {
                Some(name) => {
                    let x: Genome<u32> = (self.rolls)(t);
                    assert(call_ensures(self.rolls, ((t as int) as usize,), x));
                    sample_archetype(name, &x, &self.within)
                },
                None => {
                    let x: Genome<u32> = (self.noise)(t);
                    assert(call_ensures(self.noise, ((t as int) as usize,), x));
                    mutate(seed, &x, &self.moved)
                },
            };
            let genome = run.prepare(drawn);
            let (vet, score) = (self.judge)(genome);
            let a = Attempt { genome, vet, score };
            assert(self.grown(seed@, name_of(arch), t as int, a));
            run.record(a);
        }
        let ghost attempts = run.attempts();
        assert(self.is_generation(seed@, name_of(arch), n as int, attempts));
        run.finish()
    }

    /// The attempt of number `t` of a dip: a sample of the family that a roll fell on or
    /// rolls alone, tidied and listened to.
    pub open spec fn dipped<
        T,
        F: Fn(usize) -> T,
        L: Fn(T, T) -> bool,
        S: Fn(T, T) -> T,
    >(&self, roll: F, less: L, minus: S, shares: Seq<T>, d: Draw, t: int, a: Attempt) -> bool {
        &&& self.judged(a)
        &&& exists|x: Genome<u32>| #[trigger]
            call_ensures(self.rolls, (t as usize,), x) && match d {
                Draw::Family => exists|k: int| #[trigger]
                    may_fall(roll, less, minus, shares, t, k) && a.genome@ == tidied(
                        sampled(DIE@[k].0@, x@, self.within),
                    ),
                Draw::Wildcard => a.genome@ == tidied(x@),
                Draw::Done => false,
            }
    }

    /// The attempts of a dip with pools of `pool`, up to its end.
    pub open spec fn is_dip<
        T,
        F: Fn(usize) -> T,
        L: Fn(T, T) -> bool,
        S: Fn(T, T) -> T,
    >(&self, roll: F, less: L, minus: S, shares: Seq<T>, pool: int, attempts: Seq<Attempt>) -> bool {
        &&& draw_after(pool, attempts) == Draw::Done
        &&& all_tidy(attempts)
        &&& forall|t: int|
            0 <= t < attempts.len() ==> self.dipped(
                roll,
                less,
                minus,
                shares,
                draw_after(pool, attempts.take(t)),
                t,
                #[trigger] attempts[t],
            )
    }

    /// Deals a patch: the best of one pool, or of two, if anything passed.
    pub fn lucky_dip<T: Copy, F: Fn(usize) -> T, L: Fn(T, T) -> bool, S: Fn(T, T) -> T>(
        &self,
        pool: usize,
        shares: &[T; 7],
        roll: &F,
        less: &L,
        minus: &S,
    ) -> (r: Option<Genome<u32>>)
        requires
            self.able(),
            2 * pool <= usize::MAX,
            forall|t: usize| call_requires(*roll, (t,)),
            pure2(*less),
            pure2(*minus),
        ensures
            exists|attempts: Seq<Attempt>| #[trigger]
                self.is_dip(*roll, *less, *minus, shares@, pool as int, attempts) && r
                    == match best_of(attempts) {
                    Some(s) => Some(s.genome),
                    None => None,
                },
            r matches Some(g) ==> is_tidy(g@),
    {
        let mut dip = LuckyDip::new(pool);
        loop
            invariant
                self.able(),
                dip.inv(),
                dip.pool() == pool,
                forall|t: usize| call_requires(*roll, (t,)),
                pure2(*less),
                pure2(*minus),
                forall|t: int|
                    0 <= t < dip.attempts().len() ==> self.dipped(
                        *roll,
                        *less,
                        *minus,
                        shares@,
                        draw_after(pool as int, dip.attempts().take(t)),
                        t,
                        #[trigger] dip.attempts()[t],
                    ),
            decreases 2 * pool - dip.tries,
        {
            let t: usize = dip.tries;
            let d = dip.next();
            let drawn: Genome<u32> = match d {
                Draw::Done => {
                    assert(self.is_dip(
                        *roll,
                        *less,
                        *minus,
                        shares@,
                        pool as int,
                        dip.attempts(),
                    ));
                    return dip.result();
                },
                Draw::Family => {
                    let r: T = roll(t);
                    let k: usize = roll_family(r, shares, less, minus);
                    assert(call_ensures(*roll, ((t as int) as usize,), r));
                    assert(may_fall(*roll, *less, *minus, shares@, t as int, k as int));
                    let x: Genome<u32> = (self.rolls)(t);
                    assert(call_ensures(self.rolls, ((t as int) as usize,), x));
                    sample_archetype(DIE[k].0, &x, &self.within)
                },
                Draw::Wildcard => {
                    let x: Genome<u32> = (self.rolls)(t);
                    assert(call_ensures(self.rolls, ((t as int) as usize,), x));
                    x
                },
            };
            let genome = dip.prepare(drawn);
            let (vet, score) = (self.judge)(genome);
            let a = Attempt { genome, vet, score };
            assert(self.dipped(*roll, *less, *minus, shares@, d, t as int, a));
            let ghost before = dip.attempts();
            dip.record(a);
            proof {
                let now = dip.attempts();
                assert forall|u: int| 0 <= u < now.len() implies self.dipped(
                    *roll,
                    *less,
                    *minus,
                    shares@,
                    draw_after(pool as int, now.take(u)),
                    u,
                    #[trigger] now[u],
                ) by {
                    if u < before.len() {
                        assert(now.take(u) =~= before.take(u));
                        assert(now[u] == before[u]);
                    } else {
                        assert(now.take(u) =~= before);
                    }
                }
            }
        }
    }
}

/// What is grown: every seedling of a generation is tidy and was vetted. One of an
/// archetype lies in its windows but for what tidying does, where `within` places rolls
/// there. A mutant is the seed, tidied, where nothing moves a knob; and its knobs lie
/// between 0 and 1 where a fair deviation leaves a knob there.
pub proof fn law_what_is_grown<R, N, W, M, J>(
    g: Gardener<R, N, W, M, J>,
    seed: Seq<u32>,
    arch: Option<Seq<char>>,
    n: int,
    attempts: Seq<Attempt>,
    fair: spec_fn(u32) -> bool,
    i: int,
) where
    R: Fn(usize) -> Genome<u32>,
    N: Fn(usize) -> Genome<u32>,
    W: Fn(u32, u8, u8) -> u32,
    M: Fn(u32, u32) -> u32,
    J: Fn(Genome<u32>) -> (Vet, u64),

    requires
        g.is_generation(seed, arch, n, attempts),
        seed.len() == N_PARAMS,
        attempts.len() <= usize::MAX,
        0 <= i < best_first(good(attempts)).len(),
        forall|t: usize, x: Genome<u32>, k: int| #[trigger]
            call_ensures(g.rolls, (t,), x) && 0 <= k < N_PARAMS ==> in_unit(#[trigger] x@[k]),
        forall|t: usize, x: Genome<u32>, k: int| #[trigger]
            call_ensures(g.noise, (t,), x) && 0 <= k < N_PARAMS ==> fair(#[trigger] x@[k]),
    ensures
        ({
            let s = best_first(good(attempts))[i];
            &&& is_tidy(s.genome@)
            &&& was_vetted(attempts, s)
            &&& arch matches Some(name) ==> (forall|v: u32, lo: u8, hi: u8|
                in_unit(v) && lo <= hi <= 100 ==> in_window(
                    #[trigger] of3(g.within, v, lo, hi),
                    lo,
                    hi,
                )) ==> (forall|k: int|
                0 <= k < N_PARAMS ==> in_window_or_tidied(name, k, #[trigger] s.genome@[k]))
            &&& arch is None && (forall|v: u32, x: u32| #[trigger] of2(g.moved, v, x) == v)
                ==> s.genome@ == tidied(seed)
            &&& arch is None && (forall|k: int| 0 <= k < N_PARAMS ==> in_unit(#[trigger] seed[k])) && (
            forall|v: u32, x: u32|
                in_unit(v) && fair(x) ==> in_unit(#[trigger] of2(g.moved, v, x))) ==> (forall|k: int|
                0 <= k < N_PARAMS ==> in_unit(#[trigger] s.genome@[k]))
        }),
{
    let s = best_first(good(attempts))[i];
    law_seedlings_are_tidy(attempts);
    let t = choose|t: int| 0 <= t < attempts.len() && #[trigger] is_seedling(attempts, t, s);
    assert(g.grown(seed, arch, t, attempts[t]));
    match arch {
        Some(name) => {
            let x = choose|x: Genome<u32>| #[trigger]
                call_ensures(g.rolls, (t as usize,), x) && s.genome@ == tidied(
                    sampled(name, x@, g.within),
                );
            if forall|v: u32, lo: u8, hi: u8|
                in_unit(v) && lo <= hi <= 100 ==> in_window(
                    #[trigger] of3(g.within, v, lo, hi),
                    lo,
                    hi,
                ) {
                assert forall|k: int| 0 <= k < N_PARAMS implies in_window_or_tidied(
                    name,
                    k,
                    #[trigger] s.genome@[k],
                ) by {
                    law_samples_stay_in_their_windows(name, x@, g.within, k);
                }
            }
        },
        None => {
            let x = choose|x: Genome<u32>| #[trigger]
                call_ensures(g.noise, (t as usize,), x) && s.genome@ == tidied(
                    mutated(seed, x@, g.moved),
                );
            let m = mutated(seed, x@, g.moved);
            if forall|v: u32, x: u32| #[trigger] of2(g.moved, v, x) == v {
                law_unmoved_mutants_are_the_seed(seed, x@, g.moved);
            }
            if (forall|k: int| 0 <= k < N_PARAMS ==> in_unit(#[trigger] seed[k])) && (forall|
                v: u32,
                x: u32,
            | in_unit(v) && fair(x) ==> in_unit(#[trigger] of2(g.moved, v, x))) {
                assert forall|k: int| 0 <= k < N_PARAMS implies in_unit(#[trigger] m[k]) by {
                    assert(fair(x@[k]));
                    assert(in_unit(seed[k]));
                }
                law_tidying_keeps_the_range(m);
            }
        },
    }
}

/// Samples and mutants are made knob by knob: each knob of a sample is its own roll, placed
/// between the ends of its own window, and each of a mutant that of the seed, moved by its own
/// deviation.
pub proof fn law_knobs_are_drawn_one_by_one<T, W: Fn(T, u8, u8) -> T, M: Fn(T, T) -> T>(
    arch: Seq<char>,
    rolls: Seq<T>,
    within: W,
    seed: Seq<T>,
    noise: Seq<T>,
    moved: M,
    i: int,
)
    requires
        0 <= i < 16,
    ensures
        sampled(arch, rolls, within).len() == 16,
        mutated(seed, noise, moved).len() == 16,
        sampled(arch, rolls, within)[i] == of3(
            within,
            rolls[i],
            WINDOWS@[archetype_of(arch)]@[i].0,
            WINDOWS@[archetype_of(arch)]@[i].1,
        ),
        mutated(seed, noise, moved)[i] == of2(moved, seed[i], noise[i]),
{
}

/// A name that is in the list stands for its own row and no other; any other name stands for
/// keys.
pub proof fn law_other_names_stand_for_keys(name: Seq<char>)
    ensures
        0 <= archetype_of(name) < 7,
        ARCHETYPE_NAMES@[archetype_of(name)]@ == name || archetype_of(name) == 6,
        (forall|a: int| 0 <= a < 7 ==> #[trigger] ARCHETYPE_NAMES@[a]@ != name) ==> archetype_of(name)
            == 6,
        forall|a: int| 0 <= a < 7 && #[trigger] ARCHETYPE_NAMES@[a]@ == name ==> archetype_of(name)
            == a,
{
    lemma_archetype_in_range(name, 0);
    lemma_archetype_is_named(name, 0);
    assert forall|a: int| 0 <= a < 7 && #[trigger] ARCHETYPE_NAMES@[a]@ == name implies archetype_of(
        name,
    ) == a by {
        law_listed_archetypes_exist(a);
    }
}

proof fn lemma_archetype_is_named(name: Seq<char>, from: int)
    requires
        0 <= from <= N_ARCHETYPES,
    ensures
        archetype_from(name, from) matches Some(a) ==> 0 <= a < 7 && ARCHETYPE_NAMES@[a]@ == name,
    decreases N_ARCHETYPES - from,
{
    if from < N_ARCHETYPES {
        lemma_archetype_is_named(name, from + 1);
    }
}

/// Tidying does what is needed and no more: a detune from 0.46 up to 0.54 becomes 0.5, and a
/// decay below 0.26 becomes 0.26 where the sustain is below 0.1. Every other knob, and these
/// two in any other case, stay as they were.
pub proof fn law_tidying_does_no_more_than_needed(g: Seq<u32>, i: int)
    requires
        g.len() == 16,
        0 <= i < 16,
    ensures
        tidied(g).len() == 16,
        tidied(g)[i] == if i == 2 && is_number(g[2]) && !less(g[2], 0x3eeb851f) && less(
            g[2],
            0x3f0a3d71,
        ) {
            0x3f000000
        } else if i == 13 && less(g[14], 0x3dcccccd) && less(g[13], 0x3e851eb8) {
            0x3e851eb8
        } else {
            g[i]
        },
{
}

/// Every attempt without a flag is kept, and no other, in the order in which they came: what
/// is kept of some attempts and then some more is what is kept of the first and then what is
/// kept of the others.
pub proof fn law_all_that_passes_is_kept(a: Seq<Attempt>, b: Seq<Attempt>, x: Attempt)
    ensures
        good(Seq::empty()) == Seq::<Seedling>::empty(),
        good(a + b) == good(a) + good(b),
        x.vet.dud || x.vet.tick || x.vet.harsh || x.vet.screech || x.vet.rumble ==> good(seq![x])
            == Seq::<Seedling>::empty(),
        !x.vet.dud && !x.vet.tick && !x.vet.harsh && !x.vet.screech && !x.vet.rumble ==> good(
            seq![x],
        ) == seq![Seedling { genome: x.genome, score: x.score }],
    decreases b.len(),
{
    assert(seq![x].drop_last() =~= Seq::<Attempt>::empty());
    assert(good(Seq::<Attempt>::empty()) =~= Seq::<Seedling>::empty());
    if !x.vet.any() {
        let s = Seedling { genome: x.genome, score: x.score };
        assert(Seq::<Seedling>::empty().push(s) =~= seq![s]);
        assert(good(seq![x]) =~= seq![s]);
    }
    if b.len() == 0 {
        assert(a + b =~= a);
        assert(good(a) + good(b) =~= good(a));
    } else {
        law_all_that_passes_is_kept(a, b.drop_last(), x);
        assert((a + b).drop_last() =~= a + b.drop_last());
        assert(good(a + b) =~= good(a) + good(b));
    }
}

/// A generation goes on until as many have passed as were asked for, or three times as many
/// were tried; and not beyond.
pub proof fn law_a_generation_is_full_or_exhausted(n: int, attempts: Seq<Attempt>)
    requires
        n >= 0,
        is_run(n, attempts),
        !growing(n, attempts),
    ensures
        good(attempts).len() == n || attempts.len() == 3 * n,
        good(attempts).len() <= n,
        attempts.len() <= 3 * n,
        forall|k: int|
            0 <= k < attempts.len() ==> good(#[trigger] attempts.take(k)).len() < n && k < 3 * n,
{
    law_grow_is_bounded(n, attempts);
    assert forall|k: int| 0 <= k < attempts.len() implies good(#[trigger] attempts.take(k)).len() < n
        && k < 3 * n by {
        assert(growing(n, attempts.take(k)));
    }
}

/// A roll goes past one share after the other: where `left[k]` is what is left of it before
/// the `k`th, its family is the first whose share is above what is left there, and the first
/// of all where there is none.
pub proof fn law_rolls_go_past_the_shares<T, L: Fn(T, T) -> bool, M: Fn(T, T) -> T>(
    less: L,
    minus: M,
    r: T,
    shares: Seq<T>,
    left: Seq<T>,
    k: int,
)
    requires
        is_family(less, minus, r, shares, k),
        left.len() == 7,
        left[0] == r,
        forall|j: int| 0 <= j < 6 ==> left[j + 1] == of2(minus, #[trigger] left[j], shares[j]),
    ensures
        0 <= k < 7,
        forall|j: int| 0 <= j < k ==> !#[trigger] of2(less, left[j], shares[j]),
        of2(less, left[k], shares[k]) || k == 0 && forall|j: int|
            0 <= j < 7 ==> !#[trigger] of2(less, left[j], shares[j]),
{
    assert forall|j: int| 0 <= j < 7 implies roll_left(minus, r, shares, j) == #[trigger] left[j] by {
        lemma_roll_run(minus, r, shares, left, j);
    }
    assert forall|j: int| 0 <= j < 7 implies #[trigger] of2(less, left[j], shares[j]) == falls_on(
        less,
        minus,
        r,
        shares,
        j,
    ) by {
        assert(roll_left(minus, r, shares, j) == left[j]);
    }
    assert(of2(less, left[k], shares[k]) == falls_on(less, minus, r, shares, k));
    assert(of2(less, left[0], shares[0]) == falls_on(less, minus, r, shares, 0));
}

proof fn lemma_roll_run<T, M: Fn(T, T) -> T>(minus: M, r: T, shares: Seq<T>, left: Seq<T>, k: int)
    requires
        0 <= k < 7,
        left.len() == 7,
        left[0] == r,
        forall|j: int| 0 <= j < 6 ==> left[j + 1] == of2(minus, #[trigger] left[j], shares[j]),
    ensures
        roll_left(minus, r, shares, k) == left[k],
    decreases k,
{
    if k > 0 {
        lemma_roll_run(minus, r, shares, left, k - 1);
        assert(left[k - 1 + 1] == of2(minus, left[k - 1], shares[k - 1]));
    }
}

/// Of all that passed the first that nothing beats is dealt.
pub proof fn law_the_first_of_the_best_is_dealt(attempts: Seq<Attempt>, k: int)
    requires
        0 <= k < attempts.len(),
        !attempts[k].vet.any(),
        forall|j: int|
            0 <= j < attempts.len() && !(#[trigger] attempts[j]).vet.any() ==> attempts[j].score
                <= attempts[k].score,
        forall|j: int|
            0 <= j < k && !(#[trigger] attempts[j]).vet.any() ==> attempts[j].score
                < attempts[k].score,
    ensures
        best_of(attempts) == Some(
            Seedling { genome: attempts[k].genome, score: attempts[k].score },
        ),
    decreases attempts.len(),
{
    let front = attempts.drop_last();
    if k < front.len() {
        law_the_first_of_the_best_is_dealt(front, k);
        assert(attempts.last() == attempts[attempts.len() - 1]);
    } else {
        law_lucky_dip_deals_the_best(front);
        if let Some(s) = best_of(front) {
            let j = choose|j: int| 0 <= j < front.len() && #[trigger] is_seedling(front, j, s);
            assert(attempts[j] == front[j]);
        }
    }
}

/// A dip has one pool or two: it stops after the first where something in it scores 0.35 or
/// more, and otherwise makes the second in full. In both the last two draws are wildcards and
/// all others fall on a family.
pub proof fn law_a_poor_pool_is_followed_by_another(pool: int, attempts: Seq<Attempt>)
    requires
        pool > 0,
    ensures
        attempts.len() == pool ==> (draw_after(pool, attempts) == Draw::Done <==> exists|k: int|
            0 <= k < pool && !(#[trigger] attempts[k]).vet.any() && attempts[k].score >= 0x3eb33333),
        pool < attempts.len() < 2 * pool ==> draw_after(pool, attempts) != Draw::Done,
        attempts.len() < pool ==> draw_after(pool, attempts) == if attempts.len() < pool - 2 {
            Draw::Family
        } else {
            Draw::Wildcard
        },
        pool < attempts.len() < 2 * pool ==> draw_after(pool, attempts) == if attempts.len() - pool
            < pool - 2 {
            Draw::Family
        } else {
            Draw::Wildcard
        },
        attempts.len() == pool && draw_after(pool, attempts) != Draw::Done ==> (draw_after(
            pool,
            attempts,
        ) == Draw::Family <==> pool > 2),
        attempts.len() >= 2 * pool ==> draw_after(pool, attempts) == Draw::Done,
{
    law_lucky_dip_deals_the_best(attempts);
    if let Some(s) = best_of(attempts) {
        let k = choose|k: int| 0 <= k < attempts.len() && #[trigger] is_seedling(attempts, k, s);
        assert(attempts[k].score == s.score);
    }
}

/// What a dip deals from: one pool of attempts or two, each listened to. In either pool all
/// but the last two are tidied samples of the family that their roll fell on, and the last
/// two tidied rolls alone.
pub proof fn law_pools_are_families_and_two_wildcards<R, N, W, M, J, T, F, L, S>(
    g: Gardener<R, N, W, M, J>,
    roll: F,
    less: L,
    minus: S,
    shares: Seq<T>,
    pool: int,
    attempts: Seq<Attempt>,
    t: int,
) where
    R: Fn(usize) -> Genome<u32>,
    N: Fn(usize) -> Genome<u32>,
    W: Fn(u32, u8, u8) -> u32,
    M: Fn(u32, u32) -> u32,
    J: Fn(Genome<u32>) -> (Vet, u64),
    F: Fn(usize) -> T,
    L: Fn(T, T) -> bool,
    S: Fn(T, T) -> T,

    requires
        pool > 0,
        g.is_dip(roll, less, minus, shares, pool, attempts),
        0 <= t < attempts.len(),
    ensures
        attempts.len() == pool || attempts.len() == 2 * pool,
        call_ensures(g.judge, (attempts[t].genome,), (attempts[t].vet, attempts[t].score)),
        ({
            let i = if t < pool {
                t
            } else {
                t - pool
            };
            if i < pool - 2 {
                exists|x: Genome<u32>, k: int| #[trigger]
                    call_ensures(g.rolls, (t as usize,), x) && #[trigger] may_fall(
                        roll,
                        less,
                        minus,
                        shares,
                        t,
                        k,
                    ) && attempts[t].genome@ == tidied(sampled(DIE@[k].0@, x@, g.within))
            } else {
                exists|x: Genome<u32>| #[trigger]
                    call_ensures(g.rolls, (t as usize,), x) && attempts[t].genome@ == tidied(x@)
            }
        }),
{
    let last = attempts.len() - 1;
    assert(g.dipped(
        roll,
        less,
        minus,
        shares,
        draw_after(pool, attempts.take(last)),
        last,
        attempts[last],
    ));
    law_a_poor_pool_is_followed_by_another(pool, attempts.take(last));
    law_a_poor_pool_is_followed_by_another(pool, attempts);
    law_lucky_dip_ends(pool, attempts);
    let d = draw_after(pool, attempts.take(t));
    assert(g.dipped(roll, less, minus, shares, d, t, attempts[t]));
    law_a_poor_pool_is_followed_by_another(pool, attempts.take(t));
    let x = choose|x: Genome<u32>| #[trigger]
        call_ensures(g.rolls, (t as usize,), x) && match d {
            Draw::Family => exists|k: int| #[trigger]
                may_fall(roll, less, minus, shares, t, k) && attempts[t].genome@ == tidied(
                    sampled(DIE@[k].0@, x@, g.within),
                ),
            Draw::Wildcard => attempts[t].genome@ == tidied(x@),
            Draw::Done => false,
        };
    if d == Draw::Family {
        let k = choose|k: int| #[trigger]
            may_fall(roll, less, minus, shares, t, k) && attempts[t].genome@ == tidied(
                sampled(DIE@[k].0@, x@, g.within),
            );
        assert(call_ensures(g.rolls, (t as usize,), x) && may_fall(roll, less, minus, shares, t, k));
    }
}

} // verus!
