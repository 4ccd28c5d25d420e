use synfection::garden::Seedling;
use synfection::jobs::Job;
use synfection::midiio::{Ev, Groove, GrooveError};
use synfection::presets::preset_genome;
use synfection::ui::{
    Action, App, Heard, Key, MatchMsg, Out, PatchKey, Status, BPM, GROW_AMOUNT, SWING, UNISON,
};

fn app() -> App {
    App::new(None, false, |_| 7).0
}

fn key_of(a: &App) -> PatchKey {
    PatchKey { genome: a.genome, note: a.note, unison: a.unison }
}

fn rendered(a: &mut App) {
    let key = key_of(a);
    a.apply(Out::Patch { play: false, cue: 1, key });
}

#[test]
fn opening() {
    let (a, first) = App::new(None, false, |_| 7);
    assert_eq!((a.note, a.preset_idx, a.cue), (36, Some(0), 7));
    assert_eq!(a.genome, preset_genome(0));
    assert!(a.busy);
    assert!(matches!(first, Action::Send(Job::Patch { note: 36, play: false, .. })));
    assert_eq!(a.current_label(), "First Light");
    let (b, first) = App::new(Some([5; 16]), true, |_| 7);
    assert_eq!((b.note, b.preset_idx, b.genome), (36, None, [5; 16]));
    assert!(!b.busy);
    assert!(matches!(first, Action::Run(Job::Patch { .. })));
    assert_eq!(b.current_label(), "custom");
}

#[test]
fn defaults_are_what_they_say() {
    assert_eq!(BPM, 138.0f32.to_bits());
    assert_eq!(SWING, 0.12f32.to_bits());
    assert_eq!(UNISON, 0.3f32.to_bits());
    assert_eq!(GROW_AMOUNT, 0.15f32.to_bits());
}

#[test]
fn undo_and_redo() {
    let mut a = app();
    let start = a.genome;
    a.set_patch([1; 16], 40, false);
    a.set_patch([2; 16], 41, false);
    assert!(a.press(Key::Undo, false, false).is_some());
    assert_eq!((a.genome, a.note), ([1; 16], 40));
    a.do_undo();
    assert_eq!((a.genome, a.note), (start, 36));
    assert!(a.do_undo().is_none());
    a.do_redo();
    a.press(Key::Redo, false, false);
    assert_eq!((a.genome, a.note), ([2; 16], 41));
    assert!(a.do_redo().is_none());
    // an edit forgets what could be redone
    a.do_undo();
    a.set_patch([3; 16], 42, false);
    assert!(a.do_redo().is_none());
}

#[test]
fn undo_has_a_limit() {
    let mut a = app();
    for i in 0..100 {
        a.set_patch([i; 16], 40, false);
    }
    let mut n = 0;
    while a.do_undo().is_some() {
        n += 1;
    }
    assert_eq!(n, 64);
    assert_eq!(a.genome, [35; 16]);
    assert_eq!(a.undo.len() + a.redo.len(), 64);
}

#[test]
fn swapping() {
    let mut a = app();
    let start = a.genome;
    a.set_patch([9; 16], 50, false);
    a.swap_ab();
    assert_eq!((a.genome, a.note, a.ab_is_b), (start, 36, true));
    a.press(Key::Swap, false, false);
    assert_eq!((a.genome, a.note, a.ab_is_b), ([9; 16], 50, false));
}

#[test]
fn presets_go_round() {
    let mut a = app();
    a.press(Key::PresetBack, false, false);
    assert_eq!((a.preset_idx, a.note), (Some(11), 55));
    assert!(matches!(a.status, Status::Preset(11)));
    a.press(Key::PresetOn, false, false);
    assert_eq!((a.preset_idx, a.note), (Some(0), 36));
    a.turn_knob(3, 1.0f32.to_bits());
    assert_eq!(a.preset_idx, None);
    assert_eq!(a.genome[3], 1.0f32.to_bits());
    a.press(Key::PresetOn, false, false);
    assert_eq!(a.preset_idx, Some(0));
}

#[test]
fn notes_stay_within_reach() {
    let mut a = app();
    a.note = 96;
    a.press(Key::NoteUp, false, false);
    assert_eq!(a.note, 96);
    a.note = 12;
    a.nudge_note(-1);
    assert_eq!(a.note, 12);
    a.nudge_note(5);
    assert_eq!(a.note, 17);
}

#[test]
fn a_rendered_patch_plays_at_once() {
    let mut a = app();
    assert!(matches!(a.request_patch(true), Action::Send(Job::Patch { play: true, .. })));
    rendered(&mut a);
    assert!(matches!(a.request_patch(true), Action::PlayKept));
    assert!(matches!(a.request_patch(false), Action::Send(_)));
    a.set_unison(0);
    assert!(matches!(a.toggle_play(false), Action::Send(_)));
    assert!(matches!(a.toggle_play(true), Action::Stop));
}

#[test]
fn knobs_are_compared_as_numbers() {
    let mut a = app();
    a.genome[0] = 0.0f32.to_bits();
    rendered(&mut a);
    a.genome[0] = (-0.0f32).to_bits();
    assert!(matches!(a.request_patch(true), Action::PlayKept));
    a.genome[0] = f32::NAN.to_bits();
    rendered(&mut a);
    assert!(matches!(a.request_patch(true), Action::Send(_)));
}

fn seedlings() -> Vec<Seedling> {
    vec![Seedling { genome: [1; 16], score: 2 }, Seedling { genome: [3; 16], score: 1 }]
}

#[test]
fn growing_and_adopting() {
    let mut a = app();
    a.frame = 77;
    assert!(matches!(
        a.press(Key::Grow, false, false),
        Some(Action::Send(Job::Grow { arch: 0, note: 36, rng_seed: 77, .. }))
    ));
    a.grow_arch = 3;
    assert!(matches!(a.grow(), Action::Send(Job::Grow { arch: 3, note: 62, .. })));
    assert_eq!(a.note, 62);
    assert!(matches!(a.apply(Out::Grown { seedlings: seedlings(), arch: 3 }), Heard::Nothing));
    assert!(matches!(a.status, Status::Grew { n: 2, arch: 3 }));
    assert!(matches!(a.hear_seedling(1), Action::Send(Job::Seedling { note: 62, .. })));
    let (first, second) = a.adopt(1);
    assert!(matches!(first, Action::Send(Job::Patch { play: true, .. })));
    assert!(matches!(second, Action::Send(Job::Grow { arch: 0, .. })));
    assert_eq!((a.genome, a.note, a.preset_idx, a.grow_arch), ([3; 16], 62, None, 0));
    assert!(matches!(a.status, Status::Adopted));
}

#[test]
fn adopting_for_a_screenshot() {
    let (mut a, _) = App::new(None, true, |_| 7);
    a.grow_arch = 3;
    assert!(matches!(a.grow(), Action::Run(Job::Grow { arch: 3, .. })));
    a.apply(Out::Grown { seedlings: seedlings(), arch: 3 });
    assert!(matches!(a.status, Status::Grew { n: 2, arch: 3 }));
    let (first, second) = a.adopt(0);
    assert!(matches!(first, Action::Run(Job::Patch { play: true, .. })));
    assert!(matches!(second, Action::Run(Job::Grow { arch: 0, .. })));
    // both are done at once, and the adoption is what the status says
    rendered(&mut a);
    a.apply(Out::Grown { seedlings: vec![], arch: 0 });
    assert!(matches!(a.status, Status::Adopted));
    assert!(a.seedlings.is_empty() && !a.busy);
    // what is grown later is news again
    a.grow();
    a.apply(Out::Grown { seedlings: seedlings(), arch: 0 });
    assert!(matches!(a.status, Status::Grew { n: 2, arch: 0 }));
    // the worker's answer comes later, and is news
    let mut b = app();
    b.apply(Out::Grown { seedlings: seedlings(), arch: 0 });
    b.adopt(0);
    b.apply(Out::Grown { seedlings: seedlings(), arch: 0 });
    assert!(matches!(b.status, Status::Grew { n: 2, arch: 0 }));
}

#[test]
fn lucky_dips() {
    let mut a = app();
    a.frame = 5;
    assert!(matches!(
        a.press(Key::Random, false, false),
        Some(Action::Send(Job::LuckyDip { note: 36, rng_seed: 5 }))
    ));
    assert!(matches!(a.status, Status::Rolling));
    assert!(matches!(a.apply(Out::Lucky { genome: None }), Heard::Nothing));
    assert!(matches!(a.status, Status::AllDuds));
    assert!(matches!(a.apply(Out::Lucky { genome: Some([8; 16]) }), Heard::Do(Action::Send(_))));
    assert_eq!((a.genome, a.preset_idx), ([8; 16], None));
    assert!(matches!(a.status, Status::Dealt));
}

#[test]
fn results() {
    let mut a = app();
    assert!(matches!(a.apply(Out::Seedling), Heard::Once));
    let key = key_of(&a);
    assert!(matches!(a.apply(Out::Patch { play: true, cue: 3, key }), Heard::Keep { play: true }));
    assert_eq!(a.cue, 3);
    assert!(matches!(a.apply(Out::LoopReady), Heard::KeepLoop));
    assert!(a.rendered_key.is_none());
    let named = Out::SavedPatch { name: Some("n".to_string()), msg: "ok".to_string() };
    assert!(matches!(a.apply(named), Heard::Relist));
    assert_eq!(a.user_sel.as_deref(), Some("n"));
    a.preset_idx = None;
    assert_eq!(a.current_label(), "n");
    let failed = Out::SavedPatch { name: None, msg: "no".to_string() };
    assert!(matches!(a.apply(failed), Heard::Nothing));
    assert!(matches!(&a.status, Status::Said(m) if m == "no"));
    a.apply(Out::Status("saved x".to_string()));
    assert!(matches!(&a.status, Status::Said(m) if m == "saved x"));
    assert!(a.busy);
    a.apply(Out::Idle);
    assert!(!a.busy);
}

#[test]
fn loops_are_asked_for() {
    let mut a = app();
    match a.request_loop(false, false, 138) {
        Some(Action::Send(Job::Loop { root: 29, pattern_idx: 0, groove: None, save: None, .. })) => {}
        _ => panic!("a loop on F1 is asked for"),
    }
    assert!(matches!(a.status, Status::Rendering));
    assert!(a.follow_edits(true).is_none());
    a.turn_knob(0, 0);
    assert!(a.follow_edits(false).is_none());
    assert!(a.follow_edits(true).is_some());
    assert!(a.follow_edits(true).is_none());
    a.pick_pattern(2);
    assert!(a.follow_edits(true).is_some());
    match a.request_loop(true, true, 138) {
        Some(Action::Send(Job::Loop { save: Some(f), .. })) => {
            assert_eq!(f, "loop_four_pulse_138bpm_F1.wav")
        }
        _ => panic!("a loop is saved"),
    }
    a.key = "H1".to_string();
    assert!(a.request_loop(false, false, 0).is_none());
    assert!(matches!(&a.status, Status::BadKey(k) if k == "H1"));
    assert!(a.follow_edits(true).is_none());
    assert!(matches!(a.press(Key::Loop, false, true), Some(Action::Stop)));
}

fn groove() -> Groove {
    Groove {
        name: "clip".to_string(),
        events: vec![Ev { tick: 0, len16: 16, semi: 0, vel: 100 }],
        tpb: 96,
        beats: 8,
    }
}

#[test]
fn grooves_play() {
    let mut a = app();
    match a.take_groove(groove(), true) {
        Some(Action::Send(Job::Loop { groove: Some(p), .. })) => {
            assert_eq!((p.events.len(), p.tpb, p.beats), (1, 96, 8))
        }
        _ => panic!("the groove is looped"),
    }
    assert!(matches!(&a.status, Status::Groove { name, bars: 2, key } if name == "clip" && key == "F1"));
    assert_eq!((a.groove_gen, a.use_groove), (1, true));
    match a.request_loop(true, true, 90) {
        Some(Action::Send(Job::Loop { save: Some(f), .. })) => assert_eq!(f, "loop_clip_90bpm_F1.wav"),
        _ => panic!("the groove is saved"),
    }
    a.pick_pattern(1);
    assert!(a.follow_edits(true).is_some());
    a.pick_groove();
    assert!(a.follow_edits(true).is_some());
    assert!(a.load_midi_groove(b"nothing", "x".to_string(), true).is_none());
    assert!(matches!(a.status, Status::NoGroove(GrooveError::NotMidi)));
}

#[test]
fn matching() {
    let mut a = app();
    a.start_match("hook.wav".to_string());
    assert!(a.matching);
    assert!(a.hear_match(MatchMsg::Progress { percent: 40, best: 9 }).is_none());
    assert_eq!(a.progress, 40);
    let done = MatchMsg::Done { genome: [4; 16], midi: 60, before: 1, after: 0 };
    assert!(matches!(a.hear_match(done), Some(Action::Send(Job::Patch { note: 60, play: true, .. }))));
    assert_eq!((a.genome, a.note, a.preset_idx, a.matching), ([4; 16], 60, None, false));
    a.restart_match();
    assert!(a.matching && a.progress == 0);
    a.hear_match(MatchMsg::Failed("why".to_string()));
    assert!(!a.matching);
    assert!(matches!(&a.status, Status::MatchFailed(e) if e == "why"));
}

#[test]
fn saving_and_loading_patches() {
    let mut a = app();
    a.patch_name = " deep bass ".to_string();
    match a.press(Key::Save, false, false) {
        Some(Action::Send(Job::SavePatch { name, note: 36, .. })) => assert_eq!(name, "deep_bass"),
        _ => panic!("the patch is saved"),
    }
    a.load_user_patch("mine".to_string(), [6; 16], None);
    assert_eq!((a.genome, a.note), ([6; 16], 36));
    a.load_user_patch("yours".to_string(), [7; 16], Some(44));
    assert_eq!((a.genome, a.note, a.patch_name.as_str()), ([7; 16], 44, "yours"));
    assert_eq!(a.current_label(), "yours");
}

#[test]
fn keys_are_answered() {
    let mut a = app();
    assert!(a.answers(Key::Undo, true, true));
    assert!(!a.answers(Key::Play, true, false));
    assert!(!a.answers(Key::Play, false, true));
    assert!(a.answers(Key::Play, false, false));
    a.shot = true;
    assert!(!a.answers(Key::Play, false, false));
    a.shot = false;
    a.press(Key::Help, false, false);
    a.press(Key::Keys, false, false);
    assert!(a.show_help && a.show_keys);
    assert!(a.press(Key::Escape, true, false).is_none());
    assert!(!a.show_help && !a.show_keys);
    assert!(matches!(a.press(Key::Escape, true, false), Some(Action::Stop)));
}

#[test]
fn screenshots() {
    let (mut a, _) = App::new(None, true, |_| 7);
    assert!(a.begin_frame(true).is_none());
    match a.begin_frame(true) {
        Some(Action::Run(Job::Grow { arch: 5, note: 52, rng_seed: 2, .. })) => {}
        _ => panic!("stabs grow on the second frame"),
    }
    assert!(a.show_help && a.note == 52);
    assert!(a.begin_frame(true).is_none());
    let mut b = app();
    b.begin_frame(false);
    assert!(b.begin_frame(false).is_none());
    assert_eq!(b.frame, 2);
}
