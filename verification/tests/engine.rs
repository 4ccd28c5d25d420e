//! The engine, the critic and the generators at work on singles.

use rand::rngs::SmallRng;
use rand::{Rng, SeedableRng};
use realfft::RealFftPlanner;
use std::cell::RefCell;
use std::marker::PhantomData;
use synfection::dsp::normalise;
use synfection::garden::{
    home_note, sample_archetype, vet_note, windows, Gardener, ARCHETYPE_NAMES, DIE,
};
use synfection::genome::{denorm, N_PARAMS};
use synfection::loops::{groove_voices, lay_loop, Onset};
use synfection::presets::{preset, preset_genome, N_PRESETS};
use synfection::synth::{adsr, Engine, MAX_HARM};
use synfection::vet::{Critic, Ear, Vet, VET_NFFT};

const SR: f32 = 22050.0;
const N: usize = 26460;
const NOTE_DUR: f32 = 0.85;

type Genome = [f32; N_PARAMS];

fn real_values(g: &Genome) -> Genome {
    let exponential = |x: u32, lo: i32, hi: i32| {
        let (lo, hi) = (lo as f32 / 1000.0, hi as f32 / 1000.0);
        lo * (hi / lo).powf(f32::from_bits(x))
    };
    let even = |x: u32, lo: i32, hi: i32| {
        let (lo, hi) = (lo as f32 / 1000.0, hi as f32 / 1000.0);
        lo + (hi - lo) * f32::from_bits(x)
    };
    denorm(&g.map(f32::to_bits), 0.0, exponential, even)
}

fn profile(pos: f32) -> [f32; MAX_HARM] {
    let pi = std::f64::consts::PI;
    let frame = |f: usize| {
        let mut row = [0.0f64; MAX_HARM];
        for (h, v) in row.iter_mut().enumerate() {
            let k = (h + 1) as f64;
            let odd = h % 2 == 0;
            *v = match f {
                0 => if h == 0 { 1.0 } else { 0.0 },
                1 => if odd { 1.0 / (k * k) } else { 0.0 },
                2 => if odd { 1.0 / k } else { 0.0 },
                3 => 1.0 / k,
                4 => (pi * k * 0.25).sin().abs() * 2.0 / (pi * k),
                5 => (pi * k * 0.10).sin().abs() * 2.0 / (pi * k),
                6 => (-((k - 5.0) * (k - 5.0)) / 8.0).exp() + 0.3 * (-((k - 12.0) * (k - 12.0)) / 20.0).exp(),
                _ => 1.0 / k.sqrt(),
            };
        }
        let sum: f64 = row.iter().sum::<f64>() + 1e-9;
        row.map(|x| (x / sum) as f32)
    };
    let f = pos.clamp(0.0, 1.0) * 7.0;
    let lo = (f.floor() as usize).min(6);
    let frac = f - lo as f32;
    let (a, b) = (frame(lo), frame(lo + 1));
    let mut out = [0.0f32; MAX_HARM];
    for h in 0..MAX_HARM {
        out[h] = (1.0 - frac) * a[h] + frac * b[h];
    }
    out
}

fn envelope([a, d, s, r]: [f32; 4], n: usize, sr: f32, note_dur: f32) -> Vec<f32> {
    let (a_n, d_n, r_n) = ((a * sr).max(1.0), (d * sr).max(1.0), (r * sr).max(1.0));
    adsr(
        n,
        (note_dur * sr) as usize,
        |i: usize| {
            let t = i as f32;
            let v = if t < a_n {
                t / a_n
            } else if t < a_n + d_n {
                1.0 + (s - 1.0) * (t - a_n) / d_n
            } else {
                s
            };
            v.clamp(0.0, 1.0)
        },
        |level: f32, i: usize| (level * (1.0 - i as f32 / r_n)).clamp(0.0, 1.0),
    )
}

fn filter_mag(f: f32, fc: f32, q: f32) -> f32 {
    let x = f / fc.max(1e-3);
    (1.0 / ((1.0 - x * x).powi(2) + (x / q) * (x / q) + 1e-9).sqrt()).min(12.0)
}

fn shaped_noise(n: usize, fc: f32, q: f32, sr: f32, rng: &mut SmallRng) -> Vec<f32> {
    let mut w: Vec<f32> = Vec::with_capacity(n);
    while w.len() < n {
        let u1: f32 = rng.gen_range(f32::EPSILON..1.0);
        let u2: f32 = rng.gen_range(0.0..1.0);
        let r = (-2.0 * u1.ln()).sqrt();
        let th = 2.0 * std::f32::consts::PI * u2;
        w.push(r * th.cos());
        if w.len() < n {
            w.push(r * th.sin());
        }
    }
    let mut planner = RealFftPlanner::<f32>::new();
    let fft = planner.plan_fft_forward(n);
    let ifft = planner.plan_fft_inverse(n);
    let mut spec = fft.make_output_vec();
    fft.process(&mut w, &mut spec).unwrap();
    for (i, c) in spec.iter_mut().enumerate() {
        *c *= filter_mag(i as f32 * sr / n as f32, fc, q);
    }
    let mut out = ifft.make_output_vec();
    ifft.process(&mut spec, &mut out).unwrap();
    let peak = out.iter().fold(0.0f32, |m, x| m.max(x.abs())) + 1e-6;
    out.iter().map(|x| x / peak).collect()
}

fn gaussian(rng: &mut SmallRng) -> f32 {
    let u1: f32 = rng.gen_range(f32::EPSILON..1.0);
    let u2: f32 = rng.gen_range(0.0..1.0);
    (-2.0 * u1.ln()).sqrt() * (2.0 * std::f32::consts::PI * u2).cos()
}

fn render_at(g: &Genome, midi: f32, sr: f32, n: usize, note_dur: f32, rng: &mut SmallRng) -> Vec<f32> {
    let p = real_values(g);
    let f0 = 440.0 * 2.0f32.powf((midi - 69.0) / 12.0);
    let nyq = sr * 0.49;
    let amp = envelope([p[12], p[13], p[14], p[15]], n, sr, note_dur);
    let top = p[7] + p[9] * (nyq - p[7]);
    let cutoff: Vec<f32> =
        envelope([p[10], p[11], 0.25, p[15]], n, sr, note_dur).iter().map(|e| p[7] + (top - p[7]) * e).collect();
    let step = 2.0 * std::f64::consts::PI / sr as f64;
    let phase = |i: usize, rel: f64| (i as f64 * f0 as f64 * step * rel) as f32;
    let funds = [f0, f0 * 2.0f32.powf(p[2] / 1200.0)];
    let weights = [1.0 - p[3], p[3]];
    let profiles = [profile(p[0]), profile(p[1])];
    let noise = if p[5] > 1e-6 {
        shaped_noise(n, top, p[8], sr, rng).iter().map(|z| p[5] * z).collect()
    } else {
        vec![]
    };
    let engine = Engine {
        zero: 0.0f32,
        partial: |o: usize, k: usize| {
            let fk = funds[o] * k as f32;
            let pk = profiles[o][k - 1] / (1.0 + (-(nyq - fk) / (0.02 * nyq + 1.0)).exp());
            if weights[o] == 0.0 || pk.abs() < 1e-8 {
                None
            } else {
                Some((weights[o] * pk, fk, k as f32, (funds[o] / f0) as f64))
            }
        },
        tone: |(a, fk, k, rel): (f32, f32, f32, f64), i: usize| {
            a * filter_mag(fk, cutoff[i], p[8]) * (k * phase(i, rel)).sin()
        },
        plus: |a: f32, b: f32| a + b,
        sub: |i: usize| {
            0.6 * p[4] * (phase(i, 0.5).sin() * filter_mag(f0 / 2.0, cutoff[i], p[8]))
        },
        amp: |v: f32, i: usize| v * amp[i],
        louder: |m: f32, v: f32| m.max(v.abs()),
        drive: |v: f32, peak: f32| {
            let clean = v / (peak + 1e-6);
            (1.0 - p[6]) * clean + p[6] * ((clean * 6.0).tanh() / 6.0f32.tanh())
        },
        level: |v: f32, peak: f32| v / (peak + 1e-6) * 0.9,
    };
    engine.render(n, &noise)
}

fn render(g: &Genome, midi: f32, rng: &mut SmallRng) -> Vec<f32> {
    render_at(g, midi, SR, N, NOTE_DUR, rng)
}

fn sample(arch: &str, rng: &mut SmallRng) -> Genome {
    let mut rolls = [0.0f32; N_PARAMS];
    rolls.iter_mut().for_each(|v| *v = rng.gen());
    sample_archetype(arch, &rolls, &|x: f32, lo: u8, hi: u8| {
        let (lo, hi) = (lo as f32 / 100.0, hi as f32 / 100.0);
        lo + (hi - lo) * x
    })
}

fn spectrum(frame: &[f32]) -> Vec<f32> {
    let n = frame.len();
    let fft = RealFftPlanner::<f32>::new().plan_fft_forward(n);
    let mut x: Vec<f32> = frame
        .iter()
        .enumerate()
        .map(|(i, v)| v * (0.5 - 0.5 * (2.0 * std::f32::consts::PI * i as f32 / n as f32).cos()))
        .collect();
    let mut out = fft.make_output_vec();
    fft.process(&mut x, &mut out).unwrap();
    out.iter().map(|c| c.norm()).collect()
}

fn single(x: f32) -> u64 {
    x.to_bits() as u64
}

fn vet(audio: &[f32]) -> Vet {
    let a = 1.0 - std::f32::consts::TAU * 20.0 / SR;
    let hz = SR / VET_NFFT as f32;
    let bin = |f: f32| (f / hz).round() as usize;
    let critic = Critic {
        zero: 0.0f32,
        silence: 0.0f32,
        spectrum,
        ear: Ear {
            magnitude: PhantomData,
            none: 0.0f64,
            power: |m: f32| (m as f64) * (m as f64),
            plus: |a: f64, b: f64| a + b,
            bits: f64::to_bits,
            whistles: |best: f64, total: f64, b: usize| best / total > 0.5 && b as f32 * hz > 2500.0,
        },
        energy: |e: f32, x: f32| e + x * x,
        level: |e: f32, n: usize| single((e / n as f32).sqrt()),
        audible: |x: f32| x.abs() > 0.05,
        share: |k: usize, n: usize| single(k as f32 / n as f32),
        secs: |k: usize| single(k as f32 / SR),
        start: (0.0f32, 0.0f32, 0.0f64, 0.0f64),
        sink: |(p, q, low, all): (f32, f32, f64, f64), x: f32| {
            let p = a * p + (1.0 - a) * x;
            let q = a * q + (1.0 - a) * p;
            (p, q, low + (q * q) as f64, all + (x * x) as f64)
        },
        rumble: |(_, _, low, all): (f32, f32, f64, f64)| if all > 0.0 { (low / all).to_bits() } else { 0 },
        floor: |p: f64| (p * 1e-4).to_bits(),
        fizz: |harsh: f64, full: f64| if full > 0.0 { (harsh / full).to_bits() } else { 0 },
    };
    critic.vet(audio, bin(80.0), bin(2000.0), bin(5000.0).min(VET_NFFT / 2))
}

/// Calibration anchor: every shipped preset must pass `vet` at its home note.
#[test]
fn all_presets_pass_vet() {
    for i in 0..N_PRESETS {
        let p = preset(i);
        let mut rng = SmallRng::seed_from_u64(0);
        let a = render(&preset_genome(i).map(f32::from_bits), p.note as f32, &mut rng);
        let v = vet(&a);
        assert!(
            !v.bad(),
            "{}: dud={} tick={} harsh={} screech={} rumble={}",
            p.name, v.dud, v.tick, v.harsh, v.screech, v.rumble
        );
    }
}

/// The generators only emit vetted sounds.
#[test]
fn lucky_dip_and_grow_emit_listenable_patches() {
    let rng = RefCell::new(SmallRng::seed_from_u64(7));
    let shares = DIE.map(|d| d.1 as f32 / 100.0);
    let gardener = Gardener {
        rolls: |_: usize| [0u32; N_PARAMS].map(|_| rng.borrow_mut().gen::<f32>().to_bits()),
        noise: |_: usize| [0u32; N_PARAMS].map(|_| gaussian(&mut rng.borrow_mut()).to_bits()),
        within: |x: u32, lo: u8, hi: u8| {
            let (lo, hi) = (lo as f32 / 100.0, hi as f32 / 100.0);
            (lo + (hi - lo) * f32::from_bits(x)).to_bits()
        },
        moved: |v: u32, n: u32| {
            let mut x = f32::from_bits(v) + f32::from_bits(n) * 0.3;
            while !(0.0..=1.0).contains(&x) {
                x = if x < 0.0 { -x } else { 2.0 - x };
            }
            x.to_bits()
        },
        judge: |g: [u32; N_PARAMS]| {
            let audio = render(&g.map(f32::from_bits), vet_note(36) as f32, &mut rng.borrow_mut());
            (vet(&audio), single(0.5))
        },
    };
    let roll = |_: usize| rng.borrow_mut().gen::<f32>();
    let g = gardener
        .lucky_dip(12, &shares, &roll, &|r: f32, w: f32| r < w, &|r: f32, w: f32| r - w)
        .expect("a pool of 24 should yield something");
    let a = render(&g.map(f32::from_bits), 36.0, &mut rng.borrow_mut());
    assert!(!vet(&a).bad());
    let kids = gardener.grow(&g, None, 8);
    assert!(kids.len() <= 8);
    for k in &kids {
        let a = render(&k.genome.map(f32::from_bits), 36.0, &mut rng.borrow_mut());
        assert!(!vet(&a).bad());
        assert!(k.genome.iter().all(|v| (0.0..=1.0).contains(&f32::from_bits(*v))));
    }
    // samples of an archetype lie in its windows, but for what is tidied
    for k in gardener.grow(&g, Some("bass"), 4) {
        for (i, (lo, hi)) in windows("bass").iter().enumerate() {
            let (v, lo, hi) = (f32::from_bits(k.genome[i]), *lo as f32 / 100.0, *hi as f32 / 100.0);
            let tidied = (i == 2 && v == 0.5) || (i == 13 && v == 0.26);
            assert!(tidied || (lo..=hi).contains(&v), "knob {i}: {v}");
        }
    }
}

#[test]
fn archetype_seeds_are_mostly_alive() {
    let mut rng = SmallRng::seed_from_u64(2);
    for arch in ARCHETYPE_NAMES {
        let mut alive = 0;
        for _ in 0..6 {
            let g = sample(arch, &mut rng);
            let a = render(&g, home_note(arch) as f32, &mut rng);
            if !vet(&a).dud {
                alive += 1;
            }
        }
        assert!(alive >= 4, "archetype {arch}: only {alive}/6 samples audible");
    }
}

#[test]
fn groove_renders_full_length_audio() {
    let sr = 44100.0f32;
    let g = [0.5f32; N_PARAMS];
    let evs = [(0.0f32, 1.0f32, 0, 0.9f32), (2.0, 0.5, 12, 0.7)];
    let mut rng = SmallRng::seed_from_u64(0);
    let beat_n = (60.0 / 138.0 * sr).round() as usize;
    let loop_n = (beat_n as f32 * 4.0).round() as usize;
    let onsets = evs.map(|(beat, dur, semi, _)| Onset {
        at: (beat * beat_n as f32).round() as usize,
        held: (dur * 60.0 / 138.0 * sr).round() as usize,
        semi,
    });
    let voices = groove_voices(&onsets, 41, loop_n, (0.030 * sr) as usize, (0.30 * sr) as usize);
    let starts: Vec<usize> = voices.iter().map(|v| v.pos).collect();
    let gains = evs.map(|(_, _, _, gain)| (gain * 100.0).round() as u8);
    let notes: Vec<Vec<f32>> = voices
        .iter()
        .map(|v| render_at(&g, v.midi as f32, sr, v.n, v.gate_n as f32 / sr, &mut rng))
        .collect();
    let buf = lay_loop(
        loop_n,
        &starts,
        &gains,
        &notes,
        0.0,
        |x: f32, gain: u8| x * (gain as f32 / 100.0),
        |a: f32, b: f32| a + b,
        |m: f32, x: f32| m.max(x.abs()),
        |v: f32, peak: f32| v / (peak + 1e-9) * 0.9,
    );

    assert_eq!(buf.len(), beat_n * 4);
    let rms = (buf.iter().map(|v| v * v).sum::<f32>() / buf.len() as f32).sqrt();
    assert!(rms > 0.01, "groove should not be silent (rms {rms})");
    assert!(buf.iter().all(|v| v.abs() <= 0.91), "peak-normalized to 0.9");
}

#[test]
fn rendered_notes_are_levelled() {
    let mut rng = SmallRng::seed_from_u64(0);
    let a = render(&[0.5; N_PARAMS], 48.0, &mut rng);
    assert_eq!(a.len(), N);
    let peak = a.iter().fold(0.0f32, |m, v| m.max(v.abs()));
    assert!((peak - 0.9).abs() < 1e-3);
}

#[test]
fn what_is_wrong_is_heard() {
    let tone = |hz: f32, n: usize| -> Vec<f32> {
        (0..N)
            .map(|i| if i < n { (std::f32::consts::TAU * hz * i as f32 / SR).sin() * 0.8 } else { 0.0 })
            .collect()
    };
    let fine = vet(&tone(220.0, N));
    assert!(!fine.bad());
    assert!(vet(&[]).dud);
    assert!(vet(&vec![0.0; N]).dud);
    assert!(vet(&tone(220.0, 600)).tick);
    let whistle = vet(&tone(3000.0, N));
    assert!(whistle.screech && whistle.harsh);
    assert!(vet(&tone(8.0, N)).rumble);
}

#[test]
fn envelopes_let_go() {
    let e = adsr(6, 3, |i: usize| i as i32 * 10, |level: i32, i: usize| level - i as i32);
    assert_eq!(e, [0, 10, 20, 30, 29, 28]);
    // the key is let go before the end
    let e = adsr(3, 9, |i: usize| i as i32 * 10, |level: i32, i: usize| level - i as i32);
    assert_eq!(e, [0, 10, 20]);
}

#[test]
fn what_sounds_is_mixed_in_order() {
    let engine = Engine {
        zero: 0i64,
        partial: |o: usize, k: usize| if o == 0 && k == 2 { Some(5i64) } else { None },
        tone: |h: i64, i: usize| h * (i as i64 + 1),
        plus: |a: i64, b: i64| a + b,
        sub: |i: usize| i as i64,
        amp: |v: i64, i: usize| if i == 2 { 0 } else { v },
        louder: |m: i64, v: i64| m.max(v.abs()),
        drive: |v: i64, peak: i64| v * 100 / peak,
        level: |v: i64, peak: i64| v - peak,
    };
    // 5 10 15, with the sub 5 11 17, under the envelope 5 11 0
    assert_eq!(engine.render(3, &[]), [45 - 100, 0, -100]);
    // with noise 8 15 0
    assert_eq!(engine.render(3, &[3, 4, 9, 9]), [53 - 100, 0, -100]);
}

#[test]
fn knobs_have_real_values() {
    let low = real_values(&[0.0; N_PARAMS]);
    let high = real_values(&[1.0; N_PARAMS]);
    assert_eq!((low[2], high[2]), (-50.0, 50.0));
    assert_eq!((low[7], low[8]), (60.0, 0.6));
    assert!((high[7] - 10000.0).abs() < 1.0);
    // halfway along an exponential way
    let mid = real_values(&[0.5; N_PARAMS]);
    assert!((mid[7] - (60.0f32 * 10000.0).sqrt()).abs() < 0.1);
    assert_eq!((mid[2], mid[5]), (0.0, 0.3));
    // beyond the ends
    assert_eq!(real_values(&[-3.0; N_PARAMS]), low);
}

#[test]
fn archetypes_are_sampled_within_their_windows() {
    let bass = sample_archetype("bass", &[0u32; 16], &|roll: u32, lo: u8, hi: u8| roll + 100 * lo as u32 + hi as u32);
    assert_eq!((bass[0], bass[7], bass[15]), (3055, 2250, 540));
    let other = sample_archetype("tuba", &[5u32; 16], &|roll: u32, lo: u8, hi: u8| roll + 100 * lo as u32 + hi as u32);
    assert_eq!((other[0], other[2]), (1065, 4863));
}

#[test]
fn sounds_are_brought_to_a_level() {
    let mut x = vec![1, -4, 2];
    normalise(&mut x, 0, &|m: i32, v: i32| m.max(v.abs()), &|v: i32, peak: i32| v * 8 / peak);
    assert_eq!(x, [2, -8, 4]);
    let mut none: Vec<i32> = vec![];
    normalise(&mut none, 0, &|m: i32, v: i32| m.max(v), &|v: i32, peak: i32| v / peak);
    assert!(none.is_empty());
}

#[test]
fn knobs_stop_at_their_ends() {
    // what the knob stands at, and its lowest and highest
    let seen = |x: u32, lo: i32, hi: i32| (f32::from_bits(x), lo, hi);
    let mut g = [0.5f32.to_bits(); N_PARAMS];
    g[0] = (-3.0f32).to_bits();
    g[7] = 1.5f32.to_bits();
    let even = |x: u32, lo: i32, hi: i32| seen(x, lo, -hi);
    let r = denorm(&g, (0.0, 0, 0), seen, even);
    assert_eq!((r[0].0, r[7].0, r[8].0), (0.0, 1.0, 0.5));
    // the cutoff goes exponentially, the detune does not
    assert!(r[7].2 > 0 && r[2].2 < 0);
}
