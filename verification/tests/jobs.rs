use std::collections::VecDeque;
use synfection::jobs::{coalesce, plan, Job, Phrase, Plan, Then, Worker};

fn patch(note: i32, play: bool) -> Job {
    Job::Patch { genome: [0; 16], note, unison: 0, play }
}

fn looped(root: i32, save: Option<&str>) -> Job {
    Job::Loop {
        genome: [0; 16],
        root,
        pattern_idx: 0,
        bpm: 0,
        swing: 0,
        unison: 0,
        groove: None,
        save: save.map(|s| s.to_string()),
    }
}

fn saved(name: &str) -> Job {
    Job::SavePatch { genome: [0; 16], note: 0, unison: 0, name: name.to_string() }
}

fn seedling(note: i32) -> Job {
    Job::Seedling { genome: [0; 16], note, unison: 0 }
}

fn grow(arch: usize) -> Job {
    Job::Grow { seed: [0; 16], arch, note: 1, amount: 2, rng_seed: 3 }
}

/// A short name for each job.
fn tags(q: &VecDeque<Job>) -> Vec<String> {
    q.iter()
        .map(|j| match j {
            Job::Patch { note, play, .. } => format!("patch{note}{}", if *play { "!" } else { "" }),
            Job::Loop { root, save: None, .. } => format!("loop{root}"),
            Job::Loop { save: Some(s), .. } => format!("save {s}"),
            Job::Seedling { note, .. } => format!("seedling{note}"),
            Job::Grow { arch, .. } => format!("grow{arch}"),
            Job::LuckyDip { note, .. } => format!("lucky{note}"),
            Job::SavePatch { name, .. } => format!("save {name}"),
        })
        .collect()
}

#[test]
fn the_latest_of_a_kind_wins() {
    let mut q = VecDeque::from(vec![
        patch(1, false),
        looped(1, None),
        patch(2, false),
        grow(1),
        seedling(1),
        looped(2, None),
        grow(2),
        seedling(2),
        patch(3, false),
    ]);
    coalesce(&mut q);
    assert_eq!(tags(&q), ["loop2", "grow2", "seedling2", "patch3"]);
    coalesce(&mut q);
    assert_eq!(tags(&q), ["loop2", "grow2", "seedling2", "patch3"]);
}

#[test]
fn saves_are_never_dropped() {
    let mut q = VecDeque::from(vec![
        saved("a"),
        looped(1, Some("l")),
        saved("a"),
        looped(2, None),
        looped(3, Some("m")),
    ]);
    coalesce(&mut q);
    assert_eq!(tags(&q), ["save a", "save l", "save a", "loop2", "save m"]);
}

#[test]
fn a_request_to_play_survives() {
    let mut q = VecDeque::from(vec![patch(1, true), saved("a"), patch(2, false)]);
    coalesce(&mut q);
    assert_eq!(tags(&q), ["save a", "patch2!"]);
    let mut q = VecDeque::from(vec![patch(1, false), patch(2, false)]);
    coalesce(&mut q);
    assert_eq!(tags(&q), ["patch2"]);
}

#[test]
fn the_worker_takes_jobs_in_turn() {
    let mut w = Worker::new();
    assert!(w.is_idle());
    w.take(patch(1, false));
    w.take(saved("a"));
    w.take(Job::LuckyDip { note: 4, rng_seed: 5 });
    w.take(patch(2, true));
    let mut seen = VecDeque::new();
    while !w.is_idle() {
        seen.push_back(w.next());
    }
    assert_eq!(tags(&seen), ["save a", "lucky4", "patch2!"]);
}

#[test]
fn plans() {
    assert!(matches!(plan(patch(7, true)), Plan::Note { note: 7, then: Then::Keep { play: true }, .. }));
    assert!(matches!(plan(seedling(7)), Plan::Note { note: 7, then: Then::Hear, .. }));
    assert!(matches!(
        plan(looped(3, None)),
        Plan::Pattern { root: 3, pattern: "garage_roll", bars: 2, save: None, .. }
    ));
    assert!(matches!(plan(grow(0)), Plan::Grow { family: None, n: 8, .. }));
    assert!(matches!(plan(grow(5)), Plan::Grow { family: Some("stab"), arch: 5, .. }));
    assert!(matches!(
        plan(Job::LuckyDip { note: 4, rng_seed: 5 }),
        Plan::Dip { note: 4, pool: 12, rng_seed: 5 }
    ));
    match plan(saved("x")) {
        Plan::Save { patch_file, sound_file, name, .. } => {
            assert_eq!((patch_file.as_str(), sound_file.as_str()), ("x.genome.txt", "x.wav"));
            assert_eq!(name, "x");
        }
        _ => panic!("a save is planned as a save"),
    }
    let mut job = looped(3, Some("f"));
    if let Job::Loop { groove, .. } = &mut job {
        *groove = Some(Phrase { events: vec![], tpb: 96, beats: 8 });
    }
    match plan(job) {
        Plan::Groove { phrase, save, .. } => {
            assert_eq!((phrase.tpb, phrase.beats), (96, 8));
            assert_eq!(save.as_deref(), Some("f"));
        }
        _ => panic!("a groove is planned as a groove"),
    }
}
