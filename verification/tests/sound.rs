use realfft::RealFftPlanner;
use std::marker::PhantomData;
use synfection::dsp::{
    can_be_cut, fade_edges, fade_len, filter_in_place, gather_pairs, multiscale_stft, reflect, resample,
    stft_mag, Mel, LOSS_FFTS,
};
use synfection::output::{thicken, Guard};
use synfection::pitch::PitchOps;
use synfection::playback::{columns, loop_position, meter_window, rotate};
use synfection::wavio::{downmix, fit_length, Prep, ENGINE_RATE};

const CEILING: f32 = 0.9;
const RMS_CAP: f32 = 0.25;
const KNEE: f32 = 0.75;

fn safety(x: &mut Vec<f32>, sr: f32, looped: bool) {
    let a = 1.0 - std::f32::consts::TAU * 25.0 / sr;
    let span = CEILING - KNEE;
    let guard = Guard {
        zero: 0.0f32,
        no_energy: 0.0f64,
        block: |v: f32, px: f32, py: f32| v - px + a * py,
        louder: |m: f32, v: f32| m.max(v.abs()),
        high: |p: f32| p > CEILING,
        lower: |v: f32, p: f32| v * (CEILING / p),
        energy: |e: f64, v: f32| e + (v as f64) * (v as f64),
        rms: |e: f64, n: usize| (e / n as f64).sqrt() as f32,
        loud: |r: f32| r > RMS_CAP,
        quieten: |v: f32, r: f32| v * (RMS_CAP / r),
        knee: |v: f32| {
            let a = v.abs();
            if a > KNEE {
                v.signum() * (KNEE + ((a - KNEE) / span).tanh() * span)
            } else {
                v
            }
        },
        fade: |v: f32, i: usize, n: usize| v * (i as f32 / n as f32),
    };
    guard.safety(x, looped, (sr * 0.003) as usize);
}

fn thick(x: &[f32], sr: f32, amount: f32) -> Vec<f32> {
    let depth = 5.0 + 25.0 * amount;
    let gain = 0.18 + 0.45 * amount;
    let ratio = [-1.0f32, -0.45, 0.45, 1.0].map(|c| 2.0f32.powf(c * depth / 1200.0));
    let offsets = [0, 1, 2, 3].map(|k| (sr * 0.004 * (k as f32 + 1.0)) as usize);
    thicken(
        x,
        amount.to_bits(),
        &offsets,
        |v: usize, i: usize| {
            let pos = i as f32 * ratio[v];
            let j = pos as usize;
            (j, pos - j as f32)
        },
        |a: f32, b: f32, t: f32| a * (1.0 - t) + b * t,
        |a: f32, b: f32| a + b * gain,
    )
}

#[test]
fn safety_limits_loudness_and_peaks() {
    // worst case: full-scale constant screech
    let sr = 22050.0;
    let mut x: Vec<f32> = (0..22050)
        .map(|i| (2.0 * std::f32::consts::PI * 3000.0 * i as f32 / sr).sin() * 1.5)
        .collect();
    safety(&mut x, sr, false);
    let peak = x.iter().fold(0.0f32, |m, v| m.max(v.abs()));
    let rms = (x.iter().map(|v| (*v as f64) * (*v as f64)).sum::<f64>() / x.len() as f64).sqrt();
    assert!(peak <= 0.9 + 1e-3, "peak {peak} above ceiling");
    assert!(rms <= 0.25 + 1e-2, "rms {rms} above loudness cap");
    // click-killing fades: edges start/end at silence
    assert!(x[0].abs() < 1e-6 && x[x.len() - 1].abs() < 1e-6);
}

#[test]
fn thicken_preserves_length_and_survives_safety() {
    let sr = 22050.0;
    let x: Vec<f32> = (0..8192)
        .map(|i| (2.0 * std::f32::consts::PI * 110.0 * i as f32 / sr).sin() * 0.8)
        .collect();
    let mut y = thick(&x, sr, 1.0);
    assert_eq!(y.len(), x.len());
    safety(&mut y, sr, true);
    let peak = y.iter().fold(0.0f32, |m, v| m.max(v.abs()));
    assert!(peak <= 0.9 + 1e-3);
    assert!(peak > 0.1, "thickened audio should not be silent");
}

#[test]
fn short_sounds_are_not_thickened() {
    assert_eq!(thick(&[0.5; 63], 22050.0, 1.0), [0.5; 63]);
    assert_ne!(thick(&[0.5; 64], 22050.0, 1.0), [0.5; 64]);
    // nor is any sound by next to nothing
    let faint = f32::from_bits(0.01f32.to_bits() - 1);
    for amount in [0.0, -0.0, faint, -0.5, f32::NEG_INFINITY] {
        assert_eq!(thick(&[0.5; 64], 22050.0, amount), [0.5; 64]);
    }
    assert_ne!(thick(&[0.5; 64], 22050.0, 0.01), [0.5; 64]);
    // silence stays silence
    assert_eq!(thick(&[0.0; 500], 22050.0, 1.0), [0.0; 500]);
    let mut none: Vec<f32> = vec![];
    safety(&mut none, 22050.0, false);
    assert!(none.is_empty());
}

#[test]
fn voices_go_round_the_end() {
    let x: Vec<i64> = (0..64).collect();
    let r = thicken(&x, 1.0f32.to_bits(), &[1, 0, 0, 0], |v: usize, i: usize| (if v == 0 { i } else { 63 }, 0), |a, _, _| a, |a, b| a + b);
    // only the first voice has samples: 63 of them, one later
    assert_eq!(r[0], 0);
    assert_eq!(r[1], 1);
    assert_eq!(r[63], 63 + 62);
    let r = thicken(&x, 1.0f32.to_bits(), &[63, 0, 0, 0], |v: usize, i: usize| (if v == 0 { i } else { 63 }, 0), |a, _, _| a, |a, b| a + b);
    assert_eq!((r[63], r[0], r[1]), (63, 1, 3));
}

#[test]
fn reflecting() {
    assert_eq!(reflect(0, 5), 0);
    assert_eq!(reflect(-2, 5), 2);
    assert_eq!(reflect(5, 5), 3);
    assert_eq!(reflect(4, 5), 4);
}

#[test]
fn fading() {
    assert_eq!(fade_len(10, 100), 10);
    assert_eq!(fade_len(66, 100), 50);
    assert_eq!(fade_len(0, 100), 1);
    assert_eq!(fade_len(5, 1), 1);
    let mut x = vec![1.0f32; 8];
    fade_edges(&mut x, 2, &|v: f32, i: usize, n: usize| v * (i as f32 / n as f32));
    assert_eq!(x, [0.0, 0.5, 1.0, 1.0, 1.0, 1.0, 0.5, 0.0]);
}

#[test]
fn filtering() {
    // the difference to the last sample
    let step = |v: i32, px: i32, _: i32| v - px;
    let mut x = vec![5, 7, 4];
    filter_in_place(&mut x, false, 0, &step);
    assert_eq!(x, [5, 2, -3]);
    // a loop's first sample follows its last
    let mut x = vec![5, 7, 4];
    filter_in_place(&mut x, true, 0, &step);
    assert_eq!(x, [1, 2, -3]);
}

#[test]
fn resampling() {
    let x = [0.0f32, 10.0, 20.0];
    let at = |i: usize| (i / 2, if i % 2 == 1 { 0.5 } else { 0.0 });
    let r = resample(&x, 6, &at, &|a: f32, b: f32, t: f32| a + (b - a) * t);
    assert_eq!(r, [0.0, 5.0, 10.0, 15.0, 20.0, 20.0]);
    assert!(resample(&[] as &[f32], 0, &at, &|a: f32, _: f32, _: f32| a).is_empty());
}

fn spectrum(frame: &[f32]) -> Vec<f32> {
    let n = frame.len();
    let mut planner = RealFftPlanner::<f32>::new();
    let fft = planner.plan_fft_forward(n);
    let mut x: Vec<f32> = frame
        .iter()
        .enumerate()
        .map(|(i, v)| v * (0.5 - 0.5 * (2.0 * std::f32::consts::PI * i as f32 / n as f32).cos()))
        .collect();
    let mut out = fft.make_output_vec();
    fft.process(&mut x, &mut out).unwrap();
    out.iter().map(|c| c.norm()).collect()
}

fn sine(hz: f32, n: usize, sr: f32) -> Vec<f32> {
    (0..n).map(|i| (2.0 * std::f32::consts::PI * hz * i as f32 / sr).sin() * 0.8).collect()
}

#[test]
fn a_sine_stands_in_its_bin() {
    let sr = 22050.0;
    let x = sine(sr / 64.0 * 4.0, 1000, sr);
    assert!(can_be_cut(x.len(), 64, 16));
    assert!(!can_be_cut(32, 64, 16));
    assert!(!can_be_cut(1000, 64, 0));
    let (mags, bins, frames) = stft_mag(&x, 64, 16, 0.0f32, &spectrum);
    assert_eq!((bins, frames, mags.len()), (33, 63, 33 * 63));
    for m in 3..60 {
        let top = (0..bins).max_by(|&a, &b| mags[a * frames + m].total_cmp(&mags[b * frames + m])).unwrap();
        assert_eq!(top, 4);
    }
}

#[test]
fn mel_features() {
    let x = sine(440.0, 4096, 22050.0);
    // two bands: the lower and the upper bins
    let fb: Vec<u32> =
        (0..2 * 513).map(|i| if (i < 100) || (i >= 613) { 1.0f32.to_bits() } else { 0 }).collect();
    let mel = Mel {
        weight: PhantomData,
        zero: 0.0f32,
        lowest: f32::MIN,
        gather: |acc: f32, w: u32, m: f32| acc + f32::from_bits(w) * m * m,
        db: |e: f32| 10.0 * (e + 1e-6).log10(),
        louder: |a: f32, b: f32| a.max(b),
        level: |v: f32, top: f32| ((v - top + 80.0) / 80.0).clamp(0.0, 1.0),
    };
    let (m, bands, frames) = mel.melspec(&x, &fb, 2, &spectrum);
    assert_eq!((bands, frames, m.len()), (2, 9, 18));
    assert!(m.iter().any(|v| *v == 1.0));
    for k in 1..8 {
        assert!(m[k] > 0.9 && m[9 + k] < m[k]);
    }
}

#[test]
fn pairs() {
    assert_eq!(gather_pairs(&[1, 2, 3], &[5, 5], 0, &|e: i32, a: i32, b: i32| e + (a - b).abs()), 7);
    assert_eq!(LOSS_FFTS, [2048, 1024, 512, 256, 128]);
}

fn detect(x: &[f32], sr: f32) -> i32 {
    let ops = PitchOps {
        zero: 0.0f32,
        one: 1.0f32,
        energy: |e: f32, v: f32| e + v * v,
        loud: |e: f32| if e.is_nan() { 0 } else { e.to_bits() as u64 },
        bits: |v: f32| v.to_bits() as u64,
        differ: |acc: f32, a: f32, b: f32| acc + (a - b) * (a - b),
        plus: |a: f32, b: f32| a + b,
        ratio: |d: f32, tau: usize, cum: f32| if cum > 0.0 { d * tau as f32 / cum } else { 1.0 },
        between: |t: usize, n: (f32, f32, f32)| {
            let denom = n.0 - 2.0 * n.1 + n.2;
            let delta = if denom.abs() > 1e-9 { 0.5 * (n.0 - n.2) / denom } else { 0.0 };
            let f = sr / (t as f32 + delta.clamp(-1.0, 1.0));
            (69.0 + 12.0 * (f / 440.0).log2()).round() as i32
        },
        at_end: |t: usize| (69.0 + 12.0 * (sr / t as f32 / 440.0).log2()).round() as i32,
    };
    ops.detect_midi(x, (sr / 2000.0) as usize, (sr / 40.0) as usize)
}

#[test]
fn pitches_are_heard() {
    let sr = 22050.0;
    for (hz, note) in [(55.0, 33), (110.0, 45), (220.0, 57), (440.0, 69), (261.63, 60)] {
        assert_eq!(detect(&sine(hz, 26460, sr), sr), note);
    }
    // quiet at first: the loudest window counts
    let mut x = vec![0.0; 9000];
    x.extend(sine(220.0, 9000, sr));
    assert_eq!(detect(&x, sr), 57);
    assert_eq!(detect(&[], sr), 48);
    assert_eq!(detect(&[0.0; 5000], sr), 48);
}

#[test]
fn the_meter() {
    assert_eq!(meter_window(0, 5000, false), Some((0, 1200)));
    assert_eq!(meter_window(4000, 5000, false), Some((4000, 5000)));
    assert_eq!(meter_window(5000, 5000, false), None);
    assert_eq!(meter_window(5001, 5000, true), Some((1, 1201)));
    assert_eq!(meter_window(3, 0, true), None);
    assert_eq!(loop_position(7, 5, true), 2);
    assert_eq!(loop_position(7, 5, false), 0);
    assert_eq!(loop_position(7, 0, true), 0);
}

#[test]
fn rotating() {
    let a = [1, 2, 3, 4, 5];
    assert_eq!(rotate(&a, 0), a);
    let r = rotate(&a, 2);
    assert_eq!(r, [3, 4, 5, 1, 2]);
    for i in 0..20 {
        assert_eq!(r[i % 5], a[(2 + i) % 5]);
    }
}

#[test]
fn waveform_columns() {
    assert_eq!(columns(10, 3), [(0, 3), (3, 6), (6, 9)]);
    assert_eq!(columns(2, 5), [(0, 1), (1, 2)]);
    assert_eq!(columns(0, 5), []);
    assert_eq!(columns(5, 0), []);
}

#[test]
fn mono_and_length() {
    let plus = |a: f32, b: f32| a + b;
    let share = |s: f32, ch: usize| s / ch as f32;
    assert_eq!(downmix(&[1.0, 3.0, 5.0, 7.0, 2.0], 2, 0.0, &plus, &share), [2.0, 6.0, 1.0]);
    assert_eq!(downmix(&[1.0, 3.0], 1, 0.0, &plus, &share), [1.0, 3.0]);
    assert!(downmix(&[], 2, 0.0, &plus, &share).is_empty());
    assert_eq!(fit_length(&[1, 2, 3], 2, 0), [1, 2]);
    assert_eq!(fit_length(&[1, 2], 4, 0), [1, 2, 0, 0]);
}

#[test]
fn recordings_are_prepared() {
    let prep = Prep {
        zero: 0.0f32,
        plus: |a: f32, b: f32| a + b,
        share: |sum: f32, ch: usize| sum / ch as f32,
        // from half the engine's rate
        out_len: |len: usize| 2 * len,
        at: |i: usize| (i / 2, if i % 2 == 1 { 0.5f32 } else { 0.0 }),
        lerp: |a: f32, b: f32, t: f32| a + (b - a) * t,
        louder: |m: f32, v: f32| m.max(v.abs()),
        level: |v: f32, peak: f32| v / peak * 0.5,
    };
    assert_eq!(prep.prepare(&[], 2, 11025, 4), None);
    // two frames, (1 + 3) / 2 and (-4 - 4) / 2, go to four samples
    let raw = [1.0, 3.0, -4.0, -4.0];
    assert_eq!(prep.prepare(&raw, 2, 11025, 5), Some(vec![0.25, -0.125, -0.5, -0.5, 0.0]));
    assert_eq!(prep.prepare(&raw, 2, 11025, 2), Some(vec![0.5, -0.25]));
    // at the engine's rate they stay as they are
    assert_eq!(prep.prepare(&raw, 2, ENGINE_RATE, 3), Some(vec![0.25, -0.5, 0.0]));
    assert_eq!(prep.prepare(&raw, 1, ENGINE_RATE, 0), Some(vec![]));
}

#[test]
fn a_window_that_is_no_number_is_not_the_loudest() {
    let sr = 22050.0;
    let mut x = sine(220.0, 12288, sr);
    assert_eq!(detect(&x, sr), 57);
    x[0] = f32::NAN;
    assert_eq!(detect(&x, sr), 57);
}

#[test]
fn distances_are_taken_at_every_size() {
    let spectra = [|f: &[i64]| f[..f.len() / 2 + 1].to_vec(); 5];
    let step = |e: i64, a: i64, b: i64| e + (a - b).abs();
    let tally = |r: i64, e: i64, n: usize| r * 10 + e / n as i64;
    let far = |x: &[i64], y: &[i64]| multiscale_stft(x, y, &spectra, 0, 0, &step, 0, &tally);
    let (low, high, mixed) = (vec![1; 4096], vec![4; 4096], vec![2; 4096]);
    for n in LOSS_FFTS {
        assert!(can_be_cut(4096, n, n / 4));
    }
    assert_eq!(far(&low, &low), 0);
    assert_eq!(far(&low, &high), 33333);
    assert_eq!(far(&mixed, &high), 22222);
    assert_eq!(far(&high, &low), far(&low, &high));
}

#[test]
fn sounds_are_thickened_and_then_made_safe() {
    let guard = Guard {
        zero: 0i64,
        no_energy: 0i64,
        block: |v: i64, _px: i64, _py: i64| v,
        louder: |m: i64, v: i64| m.max(v.abs()),
        high: |p: i64| p > 90,
        lower: |v: i64, p: i64| v * 90 / p,
        energy: |e: i64, v: i64| e + v.abs(),
        rms: |e: i64, n: usize| e / n as i64,
        loud: |r: i64| r > 1000,
        quieten: |v: i64, _r: i64| v,
        knee: |v: i64| v,
        fade: |v: i64, i: usize, n: usize| v * i as i64 / n as i64,
    };
    let heard = |amount: f32, looped: bool| {
        let at = |v: usize, i: usize| (if v == 0 { i } else { 99 }, 0);
        guard.post_dsp(&[60; 100], amount.to_bits(), &[0; 4], at, |a, _, _| a, |a, b| a + b, looped, 4)
    };
    // a voice on all but the last sample brings the peak to 120, which comes down to 90
    let thick = heard(1.0, true);
    assert_eq!((thick[0], thick[98], thick[99]), (90, 90, 45));
    assert_eq!(heard(0.0, true), [60; 100]);
    // only what is no loop is faded
    let once = heard(0.0, false);
    assert_eq!((once[0], once[1], once[4], once[99]), (0, 15, 60, 0));
    // however short it is
    let mut one = vec![60];
    guard.safety(&mut one, false, 4);
    assert_eq!(one, [0]);
}
