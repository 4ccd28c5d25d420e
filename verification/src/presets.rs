//! Factory presets, in thousandths of each knob's way:
//! osc1_wt, osc2_wt, osc2_detune, osc_mix, sub_level, noise_level, drive, cutoff,
//! reso, filt_env, filt_a, filt_d, amp_a, amp_d, amp_s, amp_r.

use crate::genome::{Genome, N_PARAMS};
use vstd::arithmetic::power2::{
    lemma2_to64, lemma2_to64_rest, lemma_pow2_adds, lemma_pow2_pos, lemma_pow2_unfold, pow2,
};
use vstd::prelude::*;

verus! {

/// A factory patch: its name, the note it is made for, and its knobs in
/// thousandths.
#[derive(Clone, Copy, Debug)]
pub struct Preset {
    pub name: &'static str,
    pub note: i32,
    pub knobs: [u16; 16],
}

pub const N_PRESETS: usize = 12;

/// Name, note and knobs of each preset.
pub const PRESETS: [(&'static str, i32, [u16; 16]); 12] = [
    // warm init patch - a starting point, not a statement
    (
        "First Light",
        36,
        [420, 500, 500, 250, 800, 50, 250, 450, 200, 350, 300, 500, 20, 500, 700, 300],
    ),
    // tight UKG chord-stab bass: snappy, filtered, gone before the hat
    (
        "Garage Stab",
        45,
        [500, 550, 560, 500, 300, 60, 300, 600, 500, 650, 20, 280, 10, 300, 100, 250],
    ),
    // speed-garage organ bass stab: hollow, percussive, octave-hop fuel
    (
        "Organ Stab",
        45,
        [50, 300, 520, 450, 550, 20, 150, 550, 350, 400, 10, 220, 5, 250, 200, 200],
    ),
    // long evolving stab, RUFUS DU SOL Innerbloom lane: slow filter bloom, long tail
    (
        "Innerbloom",
        41,
        [430, 430, 620, 500, 450, 80, 120, 420, 250, 500, 850, 850, 650, 900, 850, 920],
    ),
    // pure weight: sine sub with a hint of drive to read on small speakers
    (
        "Deep Sub",
        33,
        [50, 0, 500, 100, 1000, 0, 200, 280, 150, 150, 50, 500, 20, 600, 800, 350],
    ),
    // wide-detuned growler for wobble_hold / reese_hold patterns
    (
        "Reese Growl",
        36,
        [450, 450, 880, 500, 550, 50, 550, 450, 600, 350, 100, 550, 30, 700, 850, 400],
    ),
    // 303-ish squelch: high reso, hard filter env, short and rude
    (
        "Acid Squelch",
        45,
        [430, 430, 500, 200, 150, 0, 450, 350, 900, 850, 20, 350, 10, 400, 300, 250],
    ),
    // bright glassy pluck: fast filter snap, no sustain
    (
        "Glass Pluck",
        57,
        [100, 550, 540, 400, 150, 40, 100, 700, 550, 750, 10, 180, 5, 200, 50, 300],
    ),
    // soft sustained bed, slow attack both envelopes
    (
        "Warm Pad",
        50,
        [250, 300, 600, 500, 300, 100, 50, 500, 200, 300, 600, 700, 600, 800, 900, 800],
    ),
    // vowel-ish formant lead, resonant and talkative
    (
        "Formant Talk",
        48,
        [860, 860, 550, 500, 250, 50, 300, 550, 700, 550, 150, 400, 20, 500, 600, 350],
    ),
    // detuned pulse rave swell - hoover adjacent
    (
        "Hoover Rush",
        50,
        [600, 650, 800, 500, 400, 120, 500, 600, 550, 600, 350, 600, 150, 700, 800, 450],
    ),
    // dusty electric-piano-ish keys for 2-step chords
    (
        "Dust Keys",
        55,
        [150, 200, 530, 400, 300, 80, 100, 550, 300, 350, 30, 450, 20, 550, 600, 400],
    ),
];

/// The `i`th preset.
pub fn preset(i: usize) -> (r: Preset)
    requires
        i < N_PRESETS,
    ensures
        r.name == PRESETS@[i as int].0,
        r.note == PRESETS@[i as int].1,
        r.knobs == PRESETS@[i as int].2,
{
    let (name, note, knobs) = PRESETS[i];
    Preset { name, note, knobs }
}

/// Every preset stands within its knobs' way and on a note that the keys reach.
pub proof fn law_presets_are_in_range(p: int, i: int)
    requires
        0 <= p < N_PRESETS,
        0 <= i < N_PARAMS,
    ensures
        PRESETS@[p].2@[i] <= 1000,
        12 <= PRESETS@[p].1 <= 96,
{
}

// ---- from thousandths to singles -----------------------------------------------------------------

/// `bits` are those of the single `m / 2^k`.
pub open spec fn stands_for(bits: u32, m: int, k: int) -> bool {
    &&& 0 <= k < 150
    &&& 8388608 <= m <= 16777216
    &&& bits == (150 - k) * 8388608 + (m - 8388608)
}

/// Singles next to `n / 1000` stand `1 / 2^k` apart, and `m / 2^k` is less than half
/// of that away from it.
pub open spec fn is_near(n: int, m: int, k: int) -> bool {
    let x = n * pow2(k as nat);
    &&& 8388608000 <= x < 16777216000
    &&& -500 < 1000 * m - x < 500
}

/// `bits` are those of the single nearest to `n / 1000`.
pub open spec fn is_thousandths(n: int, bits: u32) -> bool {
    if n == 0 {
        bits == 0
    } else {
        exists|m: int, k: int| #[trigger] stands_for(bits, m, k) && is_near(n, m, k)
    }
}

/// The bits of the single nearest to `n / 1000`.
pub fn thousandths(n: u16) -> (bits: u32)
    requires
        n <= 1000,
    ensures
        is_thousandths(n as int, bits),
{
    if n == 0 {
        return 0;
    }
    let mut k: u32 = 23;
    let mut s: u64 = n as u64 * 8388608;
    proof {
        lemma2_to64();
        lemma2_to64_rest();
    }
    while s < 8388608000
        invariant
            1 <= n <= 1000,
            23 <= k <= 33,
            s == n * pow2(k as nat),
            s < 16777216000,
            s % 8 == 0,
            pow2(33) == 8589934592,
        decreases 33 - k,
    {
        proof {
            lemma_pow2_unfold((k + 1) as nat);
            assert(n * (2 * pow2(k as nat)) == 2 * (n * pow2(k as nat))) by (nonlinear_arith);
            if k == 33 {
                assert(n * pow2(33) >= pow2(33)) by (nonlinear_arith)
                    requires
                        n >= 1,
                        pow2(33) >= 0,
                ;
            }
        }
        s = s * 2;
        k = k + 1;
    }
    let m: u64 = (s + 500) / 1000;
    let bits: u32 = (150 - k) * 8388608 + (m - 8388608) as u32;
    proof {
        assert(stands_for(bits, m as int, k as int));
        assert(is_near(n as int, m as int, k as int));
    }
    bits
}

/// The knobs of a preset, as the bits of singles.
pub fn preset_genome(i: usize) -> (r: Genome<u32>)
    requires
        i < N_PRESETS,
    ensures
        forall|j: int|
            0 <= j < N_PARAMS ==> is_thousandths(PRESETS@[i as int].2@[j] as int, #[trigger] r@[j]),
{
    let p = preset(i);
    let mut g: Genome<u32> = [0; 16];
    let mut j: usize = 0;
    while j < N_PARAMS
        invariant
            j <= N_PARAMS,
            i < N_PRESETS,
            p.knobs == PRESETS@[i as int].2,
            forall|k: int|
                0 <= k < j ==> is_thousandths(PRESETS@[i as int].2@[k] as int, #[trigger] g@[k]),
        decreases N_PARAMS - j,
    {
        proof {
            law_presets_are_in_range(i as int, j as int);
        }
        g[j] = thousandths(p.knobs[j]);
        j = j + 1;
    }
    g
}

/// There is only one nearest single.
pub proof fn law_thousandths_are_unique(n: int, a: u32, b: u32)
    requires
        0 <= n <= 1000,
        is_thousandths(n, a),
        is_thousandths(n, b),
    ensures
        a == b,
{
    if n > 0 {
        let (m, k) = choose|m: int, k: int| #[trigger] stands_for(a, m, k) && is_near(n, m, k);
        let (p, l) = choose|m: int, k: int| #[trigger] stands_for(b, m, k) && is_near(n, m, k);
        if k <= l {
            lemma_same_single(n, a, m, k, b, p, l);
        } else {
            lemma_same_single(n, b, p, l, a, m, k);
        }
    }
}

proof fn lemma_same_single(n: int, a: u32, m: int, k: int, b: u32, p: int, l: int)
    requires
        0 < n,
        k <= l,
        stands_for(a, m, k),
        is_near(n, m, k),
        stands_for(b, p, l),
        is_near(n, p, l),
    ensures
        a == b,
{
    if k < l {
        let x = n * pow2(k as nat);
        let e = (l - k - 1) as nat;
        lemma_pow2_adds(k as nat, (l - k) as nat);
        lemma_pow2_unfold((l - k) as nat);
        lemma_pow2_pos(e);
        assert(n * pow2(l as nat) >= 2 * x) by (nonlinear_arith)
            requires
                n > 0,
                x == n * pow2(k as nat),
                pow2(l as nat) == pow2(k as nat) * (2 * pow2(e)),
                pow2(e) >= 1,
        ;
    }
}

} // verus!
