use synfection::garden::{
    home_note, mutate, roll_family, tidy, vet_note, windows, Attempt, Draw, Gardener, GrowRun,
    LuckyDip, ARCHETYPE_NAMES, DIE, GOOD_ENOUGH,
};
use synfection::matcher::{
    mutation_seed, progress_percent, refine, render_seed, Search, Ways, LAMBDA,
};
use synfection::presets::{preset, preset_genome, thousandths, N_PRESETS, PRESETS};
use synfection::vet::{grade, Measures, Vet};

#[test]
fn home_notes() {
    let notes: Vec<i32> = ARCHETYPE_NAMES.iter().map(|a| home_note(a)).collect();
    assert_eq!(notes, [38, 39, 62, 56, 52, 53, 56]);
    assert_eq!(home_note("no such thing"), 56);
}

#[test]
fn windows_of_archetypes() {
    assert_eq!(windows("bass")[0], (30, 55));
    assert_eq!(windows("pad")[15], (40, 80));
    assert_eq!(windows("anything"), windows("keys"));
    for a in ARCHETYPE_NAMES {
        assert!(windows(a).iter().all(|w| w.0 <= w.1 && w.1 <= 100));
    }
}

#[test]
fn the_die() {
    assert_eq!(DIE.iter().map(|d| d.1 as u32).sum::<u32>(), 100);
    assert!(DIE.iter().all(|d| ARCHETYPE_NAMES.contains(&d.0)));
    let shares = [24, 22, 14, 12, 10, 10, 8];
    let roll = |r: i32| roll_family(r, &shares, &|a: i32, b: i32| a < b, &|a: i32, b: i32| a - b);
    assert_eq!(roll(0), 0);
    assert_eq!(roll(23), 0);
    assert_eq!(roll(24), 1);
    assert_eq!(roll(99), 6);
    assert_eq!(roll(100), 0);
}

fn flags(dud: bool, tick: bool, harsh: bool, screech: bool, rumble: bool) -> Vet {
    Vet { dud, tick, harsh, screech, rumble }
}

#[test]
fn any_flag_is_bad() {
    assert!(!Vet::default().bad());
    assert!(flags(true, false, false, false, false).bad());
    assert!(flags(false, true, false, false, false).bad());
    assert!(flags(false, false, true, false, false).bad());
    assert!(flags(false, false, false, true, false).bad());
    assert!(flags(false, false, false, false, true).bad());
}

fn single(x: f32) -> u64 {
    x.to_bits() as u64
}

fn fine() -> Measures {
    Measures {
        len: 1000,
        rms: single(0.2),
        active_share: single(0.5),
        active_secs: single(0.5),
        rumble_share: 0.1f64.to_bits(),
        harsh_share: 0.3f64.to_bits(),
        active_frames: 10,
        whistling: 5,
    }
}

#[test]
fn grading() {
    assert!(!grade(&fine()).bad());
    assert!(grade(&Measures { len: 0, ..fine() }).dud);
    assert!(grade(&Measures { rms: single(0.029), ..fine() }).dud);
    assert!(!grade(&Measures { rms: single(0.03), ..fine() }).dud);
    assert!(grade(&Measures { active_share: single(0.01), ..fine() }).dud);
    assert!(grade(&Measures { active_secs: single(0.059), ..fine() }).tick);
    assert!(!grade(&Measures { active_secs: single(0.06), ..fine() }).tick);
    assert!(grade(&Measures { rumble_share: 0.26f64.to_bits(), ..fine() }).rumble);
    assert!(!grade(&Measures { rumble_share: 0.25f64.to_bits(), ..fine() }).rumble);
    assert!(grade(&Measures { harsh_share: 0.56f64.to_bits(), ..fine() }).harsh);
    assert!(!grade(&Measures { harsh_share: 0.45f64.to_bits(), ..fine() }).harsh);
    assert!(grade(&Measures { harsh_share: 0.45f64.to_bits(), rms: single(0.6), ..fine() }).harsh);
    assert!(grade(&Measures { whistling: 6, ..fine() }).screech);
    assert!(!grade(&Measures { whistling: 5, ..fine() }).screech);
}

fn tidied(g: &mut [f32; 16]) {
    let mut knobs = g.map(f32::to_bits);
    tidy(&mut knobs);
    *g = knobs.map(f32::from_bits);
}

#[test]
fn tidying_goes_by_the_knobs_values() {
    let around = |v: f32| (v.to_bits() - 40..v.to_bits() + 40).map(f32::from_bits);
    let singles = (0..=1000).map(|n| n as f32 / 1000.0);
    let odd = [-0.0, -0.5, -1.0, 2.0, f32::MIN_POSITIVE, f32::INFINITY, f32::NEG_INFINITY, f32::NAN];
    let all = singles.chain(around(0.46)).chain(around(0.54)).chain(around(0.1)).chain(around(0.26));
    for v in all.chain(odd) {
        let mut g = [v; 16];
        tidied(&mut g);
        let near = (v - 0.5).abs() < 0.04;
        assert_eq!(g[2].to_bits(), if near { 0.5f32.to_bits() } else { v.to_bits() }, "{v}");
        assert_eq!(g[13].to_bits(), if v < 0.1 { 0.26f32.to_bits() } else { v.to_bits() }, "{v}");
        let mut h = [0.05; 16];
        h[13] = v;
        tidied(&mut h);
        assert_eq!(h[13].to_bits(), if v < 0.26 { 0.26f32.to_bits() } else { v.to_bits() }, "{v}");
        assert_eq!(h[14], 0.05);
    }
}

#[test]
fn tidying() {
    let mut g = [0.3f32; 16];
    g[2] = 0.52;
    g[13] = 0.1;
    g[14] = 0.05;
    tidied(&mut g);
    assert_eq!((g[2], g[13], g[14]), (0.5, 0.26, 0.05));
    let once = g;
    tidied(&mut g);
    assert_eq!(g, once);
    let mut h = [0.3f32; 16];
    h[13] = 0.1;
    tidied(&mut h);
    assert_eq!((h[2], h[13]), (0.3, 0.1));
}

#[test]
fn what_is_drawn_is_tidied() {
    let mut drawn = knobs(3);
    drawn[2] = 0.52f32.to_bits();
    drawn[13] = 0.1f32.to_bits();
    drawn[14] = 0.05f32.to_bits();
    let mut want = drawn;
    want[2] = 0.5f32.to_bits();
    want[13] = 0.26f32.to_bits();
    let mut run = GrowRun::new(1);
    assert_eq!(run.prepare(drawn), want);
    assert_eq!(run.prepare(want), want);
    run.record(Attempt { genome: run.prepare(drawn), ..attempt(0, false, 0.4) });
    assert_eq!(run.finish()[0].genome, want);
    let mut dip = LuckyDip::new(1);
    assert_eq!(dip.prepare(drawn), want);
    dip.record(Attempt { genome: dip.prepare(drawn), ..attempt(0, false, 0.4) });
    assert_eq!(dip.result(), Some(want));
}

#[test]
fn mutants() {
    let seed: [i32; 16] = core::array::from_fn(|i| i as i32);
    let noise = [2; 16];
    assert_eq!(mutate(&seed, &noise, &|v: i32, n: i32| v + 10 * n)[15], 35);
    // what nothing moves is the seed
    assert_eq!(mutate(&seed, &noise, &|v: i32, _: i32| v), seed);
}

#[test]
fn a_garden_at_work() {
    let tries = std::cell::RefCell::new(vec![]);
    let gardener = Gardener {
        rolls: |t: usize| knobs(t as u32),
        noise: |t: usize| [t as u32; 16],
        within: |x: u32, lo: u8, _: u8| (f32::from_bits(x) + lo as f32).to_bits(),
        moved: |v: u32, n: u32| (f32::from_bits(v) + n as f32).to_bits(),
        // every other genome is a dud, and the later ones score higher
        judge: |g: [u32; 16]| {
            tries.borrow_mut().push(g);
            let t = tries.borrow().len();
            (flags(t % 2 == 0, false, false, false, false), t as u64)
        },
    };
    let seed = [1.0f32.to_bits(); 16];
    let kids = gardener.grow(&seed, None, 2);
    // the first and the third attempt, the better first
    assert_eq!(kids.iter().map(|k| k.score).collect::<Vec<_>>(), [3, 1]);
    assert_eq!(kids[0].genome, [3.0f32.to_bits(); 16]);
    assert_eq!(kids[1].genome, seed);
    let bass = gardener.grow(&seed, Some("bass"), 1);
    assert_eq!(f32::from_bits(bass[0].genome[7]), 0.7 + 22.0);
    // a pool of two wildcards, of which the second is a dud, and then two more
    tries.borrow_mut().clear();
    let roll = |_: usize| 0;
    let dealt = gardener.lucky_dip(2, &[1; 7], &roll, &|a: i32, b: i32| a < b, &|a: i32, b: i32| a - b);
    assert_eq!(dealt, Some(knobs(2)));
    assert_eq!(tries.borrow().len(), 4);
}

#[test]
fn vetting_notes() {
    assert_eq!(vet_note(12), 28);
    assert_eq!(vet_note(40), 40);
    assert_eq!(vet_note(96), 72);
}

/// A tidy genome that is known by its first knob.
fn knobs(id: u32) -> [u32; 16] {
    let mut g = [0.7f32.to_bits(); 16];
    g[0] = id;
    g
}

fn attempt(id: u32, bad: bool, score: f32) -> Attempt {
    Attempt { genome: knobs(id), vet: flags(bad, false, false, false, false), score: single(score) }
}

#[test]
fn growing_keeps_the_good_and_sorts_them() {
    let mut run = GrowRun::new(3);
    for (id, bad, score) in [(1, false, 0.2), (2, true, 0.9), (3, false, 0.7), (4, false, 0.2)] {
        assert!(run.wants());
        run.record(attempt(id, bad, score));
    }
    assert!(!run.wants());
    let kids = run.finish();
    let ids: Vec<u32> = kids.iter().map(|k| k.genome[0]).collect();
    assert_eq!(ids, [3, 1, 4]);
    assert_eq!(kids[0].score, single(0.7));
}

#[test]
fn growing_gives_up() {
    let mut run = GrowRun::new(2);
    let mut n = 0;
    while run.wants() {
        run.record(attempt(n, true, 0.5));
        n += 1;
    }
    assert_eq!(n, 6);
    assert!(run.finish().is_empty());
    assert!(!GrowRun::new(0).wants());
}

#[test]
fn a_dip_deals_the_best_of_its_pool() {
    let mut dip = LuckyDip::new(4);
    let scores = [0.1, 0.6, 0.9, 0.6];
    let mut draws = vec![];
    for (i, s) in scores.iter().enumerate() {
        draws.push(dip.next());
        dip.record(attempt(i as u32, i == 2, *s));
    }
    assert_eq!(draws, [Draw::Family, Draw::Family, Draw::Wildcard, Draw::Wildcard]);
    assert_eq!(dip.next(), Draw::Done);
    assert_eq!(dip.result(), Some(knobs(1)));
}

#[test]
fn a_poor_pool_is_followed_by_one_more() {
    let mut dip = LuckyDip::new(3);
    let mut n = 0;
    while dip.next() != Draw::Done {
        dip.record(attempt(n, false, 0.34));
        n += 1;
    }
    assert_eq!(n, 6);
    assert_eq!(dip.result(), Some(knobs(0)));
    assert_eq!(GOOD_ENOUGH, single(0.35));

    let mut duds = LuckyDip::new(1);
    duds.record(attempt(0, true, 0.9));
    assert_eq!(duds.next(), Draw::Wildcard);
    duds.record(attempt(1, true, 0.9));
    assert_eq!(duds.next(), Draw::Done);
    assert_eq!(duds.result(), None);
    assert_eq!(LuckyDip::new(0).next(), Draw::Done);
}

#[test]
fn refining_never_worsens() {
    let keep = |s: u32| s;
    let mut search = Search::new([0u32; 16], single(0.5), 1, 2);
    // as good is not better
    search.advance(&[[1; 16], [2; 16]], &[single(0.5), single(0.8)], &keep, &keep);
    assert_eq!((search.best.genome, search.best.loss), ([0; 16], single(0.5)));
    // of two that are as good the first
    let losses = [single(0.4), single(0.3), single(0.3)];
    search.advance(&[[1; 16], [2; 16], [3; 16]], &losses, &keep, &keep);
    assert_eq!((search.best.genome[0], search.best.loss), (2, single(0.3)));
    assert_eq!(LAMBDA, 16);
}

#[test]
fn steps_narrow_and_generations_are_counted() {
    let mut search = Search::new([7u32; 16], single(0.5), 800, 2);
    let (settle, cool) = (|s: u32| s / 2, |s: u32| s - 10);
    assert!(search.wants());
    assert_eq!(search.advance(&[[1; 16]], &[single(0.6)], &settle, &cool), (0, single(0.5)));
    assert_eq!((search.best.genome[0], search.sigma), (7, 390));
    assert_eq!(search.advance(&[[1; 16]], &[single(0.4)], &settle, &cool), (1, single(0.4)));
    assert_eq!((search.best.genome[0], search.best.loss, search.sigma), (1, single(0.4), 380));
    assert!(!search.wants());
    let none = Search::new([7u32; 16], single(0.5), 800, 0);
    assert!(!none.wants());
    assert_eq!((none.best.genome, none.best.loss), ([7; 16], single(0.5)));
}

#[test]
fn candidates_stay_in_range() {
    let search = Search::new([0.9f32.to_bits(); 16], 0, 0.5f32, 1);
    let mut noise = [[0u32; 16]; 3];
    noise[0][3] = 1.0f32.to_bits();
    noise[1][3] = (-4.0f32).to_bits();
    noise[2][3] = f32::NAN.to_bits();
    let cands = search.candidates(&noise, &moved);
    let at = |i: usize, k: usize| f32::from_bits(cands[i][k]);
    assert_eq!((at(0, 3), at(1, 3), at(1, 4)), (1.0, 0.0, 0.9));
    assert!(at(2, 3).is_nan());
}

fn moved(v: u32, n: u32, s: f32) -> u32 {
    (f32::from_bits(v) + f32::from_bits(n) * s).to_bits()
}

#[test]
fn a_refinement_finds_its_way() {
    // the loss is how far the first knob is from 0.75
    let ways = Ways {
        moved,
        settle: |s: f32| s * 0.5,
        cool: |s: f32| s,
        measure: |_: usize, c: &[[u32; 16]]| {
            c.iter().map(|g| single((f32::from_bits(g[0]) - 0.75).abs())).collect()
        },
    };
    let draw = |_: usize| -> Vec<[u32; 16]> {
        vec![[1.0f32.to_bits(); 16], [(-1.0f32).to_bits(); 16]]
    };
    let seen = std::cell::RefCell::new(vec![]);
    let report = |gen: usize, best: u64| seen.borrow_mut().push((gen, f32::from_bits(best as u32)));
    let guess = [0.25f32.to_bits(); 16];
    let r = refine(&ways, guess, single(0.5), 1.0f32, 4, &draw, &report);
    assert_eq!(r.genome.map(f32::from_bits), [0.75f32; 16]);
    assert_eq!(r.loss, single(0.0));
    assert_eq!(*seen.borrow(), [(0, 0.25), (1, 0.25), (2, 0.25), (3, 0.0)]);
    // no generation, no change
    let same = refine(&ways, guess, single(0.5), 1.0f32, 0, &draw, &report);
    assert_eq!((same.genome, same.loss), (guess, single(0.5)));
}

#[test]
fn seeds_and_progress() {
    assert_eq!(mutation_seed(7), 8);
    assert_eq!(mutation_seed(u64::MAX), 0);
    assert_eq!(render_seed(0b1010, 1, 2), 0b1010 ^ 133);
    assert_eq!(progress_percent(0, 60), 0);
    assert_eq!(progress_percent(59, 60), 98);
}

#[test]
fn thousandths_are_the_nearest_singles() {
    for n in 0..=1000u16 {
        assert_eq!(thousandths(n), (n as f32 / 1000.0).to_bits(), "{n}");
    }
}

#[test]
fn presets_are_listed() {
    assert_eq!(PRESETS.len(), N_PRESETS);
    let p = preset(2);
    assert_eq!((p.name, p.note, p.knobs[12]), ("Organ Stab", 45, 5));
    let g = preset_genome(2);
    assert_eq!(f32::from_bits(g[12]), 0.005);
    assert_eq!(f32::from_bits(preset_genome(0)[0]), 0.42);
}
