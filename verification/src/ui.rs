//! What the app holds and how it answers: editing, undo, A/B, presets, growing,
//! loops, the worker's results and the keyboard. Painting, playing and rendering
//! are outside work that the answers ask for.
//!
//! Values that the synth computes with are the bits of singles.

use crate::func::{of1, pure1};
use crate::garden::{
    home_note, law_listed_archetypes_exist, Seedling, ARCHETYPE_NAMES, HOME_NOTES,
    N_ARCHETYPES,
};
use crate::genome::{Genome, N_PARAMS};
use crate::history::{
    edited, is_history, law_undo_takes_back_an_edit, redone, undone, History, Slot, MAX_UNDO,
};
use crate::jobs::{is_valid, Job, Phrase};
use crate::library::{loop_file, loop_file_name, name_to_save, saved_name, UNNAMED};
use crate::loops::{N_PATTERNS, PATTERN_NAMES};
use crate::midiio::{load_groove, loads_groove, Ev, Groove, GrooveError};
use crate::notes::{has_octave, note_number, note_to_midi, NoteError};
use crate::presets::{is_thousandths, preset_genome, N_PRESETS, PRESETS};
use crate::single::{is_number, is_same, same_value};
use crate::text::nat_text;
use vstd::prelude::*;

verus! {

// ---- what is held -------------------------------------------------------------------------------

/// The notes that the keys reach.
pub const NOTE_LO: i32 = 12;

pub const NOTE_HI: i32 = 96;

/// The note of a patch that was opened from a file.
pub const OPENED_NOTE: i32 = 36;

/// 138, as a single.
pub const BPM: u32 = 0x430a0000;

/// 0.12, as a single.
pub const SWING: u32 = 0x3df5c28f;

/// 0.3, as a single.
pub const UNISON: u32 = 0x3e99999a;

/// 0.15, as a single.
pub const GROW_AMOUNT: u32 = 0x3e19999a;

/// The frame on which a screenshot's scene is set, and what is grown for it.
pub const SCENE_FRAME: u64 = 2;

pub const SCENE_ARCH: usize = 5;

/// What a rendered patch was rendered from.
#[derive(Clone, Copy, Debug)]
pub struct PatchKey {
    pub genome: Genome<u32>,
    pub note: i32,
    pub unison: u32,
}

/// Everything that a loop depends on. `groove` is 0 for a pattern, else the number
/// of the groove's import.
#[derive(Clone, Copy, Debug)]
pub struct LoopSig {
    pub genome: Genome<u32>,
    pub root: i32,
    pub pattern_idx: usize,
    pub bpm: u32,
    pub swing: u32,
    pub unison: u32,
    pub groove: u64,
}

/// What the status line says.
#[derive(Debug)]
pub enum Status {
    Welcome,
    Rolling,
    BadKey(String),
    Rendering,
    Groove { name: String, bars: usize, key: String },
    NoGroove(GrooveError),
    Growing,
    /// How many seedlings, and from what: 0 is this patch, else one more than the
    /// archetype's row.
    Grew { n: usize, arch: usize },
    Looping,
    Dealt,
    AllDuds,
    Said(String),
    Cloning(String),
    Recloning,
    Matching { percent: usize, best: u32 },
    Cloned { midi: i32, before: u32, after: u32 },
    MatchFailed(String),
    Preset(usize),
    Patch(String),
    Saving(String),
    Adopted,
}

/// What the app asks for.
#[derive(Debug)]
pub enum Action {
    /// Do the job now, and hand its result back.
    Run(Job),
    /// Give the job to the worker.
    Send(Job),
    /// Play the patch that was rendered last.
    PlayKept,
    /// Stop playing.
    Stop,
}

/// What came of a job.
#[derive(Debug)]
pub enum Out {
    Patch { play: bool, cue: u32, key: PatchKey },
    LoopReady,
    Seedling,
    Grown { seedlings: Vec<Seedling>, arch: usize },
    Lucky { genome: Option<Genome<u32>> },
    SavedPatch { name: Option<String>, msg: String },
    Status(String),
    Idle,
}

/// What to do with the sound that came with a result.
#[derive(Debug)]
pub enum Heard {
    Nothing,
    /// Keep it as the current sound, and perhaps play it.
    Keep { play: bool },
    /// Keep it, and loop it in the place of the loop that plays.
    KeepLoop,
    /// Play it once.
    Once,
    /// List the user's patches again.
    Relist,
    Do(Action),
}

/// News of a match.
#[derive(Debug)]
pub enum MatchMsg {
    Progress { percent: usize, best: u32 },
    Done { genome: Genome<u32>, midi: i32, before: u32, after: u32 },
    Failed(String),
}

/// The app.
#[derive(Debug)]
pub struct App {
    pub genome: Genome<u32>,
    pub note: i32,
    pub status: Status,
    pub preset_idx: Option<usize>,
    pub undo: Vec<Slot>,
    pub redo: Vec<Slot>,
    pub ab_other: Slot,
    pub ab_is_b: bool,
    pub target_name: String,
    pub matching: bool,
    pub progress: usize,
    pub seedlings: Vec<Seedling>,
    /// 0 grows from this patch, else one more than an archetype's row.
    pub grow_arch: usize,
    pub grow_amount: u32,
    pub bpm: u32,
    pub key: String,
    pub pattern_idx: usize,
    pub swing: u32,
    pub unison: u32,
    pub patch_name: String,
    pub user_sel: Option<String>,
    pub show_help: bool,
    pub show_keys: bool,
    /// A screenshot is being taken: jobs run at once.
    pub shot: bool,
    /// A seedling was adopted, and the next generation is being grown at once.
    pub adopting: bool,
    pub frame: u64,
    pub busy: bool,
    pub cue: u32,
    /// What the kept sound was rendered from.
    pub rendered_key: Option<PatchKey>,
    /// What the loop that plays, or was asked for, is rendered from.
    pub last_loop_sig: Option<LoopSig>,
    pub groove: Option<Groove>,
    pub use_groove: bool,
    pub groove_gen: u64,
}

// ---- same values -----------------------------------------------------------------------------------

/// Two genomes are equal, value by value.
pub open spec fn same_genome(a: Genome<u32>, b: Genome<u32>) -> bool {
    forall|i: int| 0 <= i < N_PARAMS ==> same_value(#[trigger] a@[i], b@[i])
}

fn is_same_genome(a: &Genome<u32>, b: &Genome<u32>) -> (r: bool)
    ensures
        r == same_genome(*a, *b),
{
    let mut i: usize = 0;
    while i < N_PARAMS
        invariant
            i <= N_PARAMS,
            forall|k: int| 0 <= k < i ==> same_value(#[trigger] a@[k], b@[k]),
        decreases N_PARAMS - i,
    {
        if !is_same(a[i], b[i]) {
            return false;
        }
        i = i + 1;
    }
    true
}

impl PatchKey {
    pub open spec fn same(self, k: PatchKey) -> bool {
        same_genome(self.genome, k.genome) && self.note == k.note && self.unison == k.unison
    }

    fn is_same(&self, k: &PatchKey) -> (r: bool)
        ensures
            r == self.same(*k),
    {
        self.note == k.note && self.unison == k.unison && is_same_genome(&self.genome, &k.genome)
    }
}

impl LoopSig {
    pub open spec fn same(self, s: LoopSig) -> bool {
        &&& same_genome(self.genome, s.genome)
        &&& self.root == s.root
        &&& self.pattern_idx == s.pattern_idx
        &&& self.bpm == s.bpm
        &&& self.swing == s.swing
        &&& self.unison == s.unison
        &&& self.groove == s.groove
    }

    fn is_same(&self, s: &LoopSig) -> (r: bool)
        ensures
            r == self.same(*s),
    {
        self.root == s.root && self.pattern_idx == s.pattern_idx && self.bpm == s.bpm && self.swing
            == s.swing && self.unison == s.unison && self.groove == s.groove && is_same_genome(
            &self.genome,
            &s.genome,
        )
    }
}

impl App {
    pub open spec fn slot(&self) -> Slot {
        Slot { genome: self.genome, note: self.note }
    }

    pub open spec fn history(&self) -> History {
        History { now: self.slot(), undo: self.undo@, redo: self.redo@ }
    }

    /// The indices stand for something, and the history is within its bounds.
    pub open spec fn inv(&self) -> bool {
        &&& is_history(self.history())
        &&& self.preset_idx matches Some(i) ==> i < N_PRESETS
        &&& self.grow_arch <= N_ARCHETYPES
        &&& self.pattern_idx < N_PATTERNS
    }

    // ---- rendering a patch ---------------------------------------------------------------------------

    pub open spec fn key_of_patch(&self) -> PatchKey {
        PatchKey { genome: self.genome, note: self.note, unison: self.unison }
    }

    /// The patch is what the kept sound was rendered from.
    pub open spec fn is_rendered(&self) -> bool {
        self.rendered_key matches Some(k) && k.same(self.key_of_patch())
    }

    /// What is asked for when the patch is to be rendered, and perhaps played.
    pub open spec fn patch_request(&self, play: bool) -> Action {
        let job = Job::Patch { genome: self.genome, note: self.note, unison: self.unison, play };
        if self.shot {
            Action::Run(job)
        } else if play && self.is_rendered() {
            Action::PlayKept
        } else {
            Action::Send(job)
        }
    }

    /// `self` asks to render its patch, and is busy if that goes to the worker.
    pub open spec fn asks_for_patch(&self, was_busy: bool, play: bool, a: Action) -> bool {
        a == self.patch_request(play) && self.busy == (was_busy || a is Send)
    }

    /// What the kept sound would have to be rendered from.
    fn patch_key(&self) -> (r: PatchKey)
        ensures
            r == self.key_of_patch(),
    {
        PatchKey { genome: self.genome, note: self.note, unison: self.unison }
    }

    /// Asks for the patch to be rendered, and perhaps played. If it has been
    /// rendered already, playing it is instant.
    pub fn request_patch(&mut self, play: bool) -> (a: Action)
        ensures
            *final(self) == (App { busy: final(self).busy, ..*old(self) }),
            final(self).asks_for_patch(old(self).busy, play, a),
    {
        let job = Job::Patch { genome: self.genome, note: self.note, unison: self.unison, play };
        if self.shot {
            return Action::Run(job);
        }
        if play {
            if let Some(k) = &self.rendered_key {
                if k.is_same(&self.patch_key()) {
                    return Action::PlayKept;
                }
            }
        }
        self.busy = true;
        Action::Send(job)
    }
}

/// The genome is that of the `i`th preset.
pub open spec fn is_preset(g: Genome<u32>, i: int) -> bool {
    forall|j: int| 0 <= j < N_PARAMS ==> is_thousandths(PRESETS@[i].2@[j] as int, #[trigger] g@[j])
}

impl App {
    /// Opens the app, with a patch that was opened or with the first preset, and
    /// asks for it to be rendered. `score` is the taste model's.
    pub fn new<F: Fn(Genome<u32>) -> u32>(opened: Option<Genome<u32>>, shot: bool, score: F) -> (r: (
        App,
        Action,
    ))
        requires
            pure1(score),
        ensures
            r.0.inv(),
            match opened {
                Some(g) => r.0.genome == g && r.0.note == OPENED_NOTE && r.0.preset_idx is None,
                None => is_preset(r.0.genome, 0) && r.0.note == PRESETS@[0].1 && r.0.preset_idx
                    == Some(0usize),
            },
            r.0.ab_other == r.0.slot(),
            r.0.undo@.len() == 0,
            r.0.redo@.len() == 0,
            r.0.seedlings@.len() == 0,
            r.0.status == Status::Welcome,
            r.0.shot == shot,
            !r.0.adopting,
            r.0.cue == of1(score, r.0.genome),
            (r.0.bpm, r.0.swing, r.0.unison, r.0.grow_amount) == (BPM, SWING, UNISON, GROW_AMOUNT),
            r.0.key@ == "F1"@,
            r.0.patch_name@ == UNNAMED@,
            r.0.target_name@.len() == 0,
            (r.0.pattern_idx, r.0.grow_arch, r.0.progress) == (0usize, 0usize, 0usize),
            (r.0.frame, r.0.groove_gen) == (0u64, 0u64),
            r.0.user_sel is None,
            r.0.rendered_key is None,
            r.0.last_loop_sig is None,
            r.0.groove is None,
            !r.0.ab_is_b && !r.0.matching && !r.0.show_help && !r.0.show_keys && !r.0.use_groove,
            r.0.asks_for_patch(false, false, r.1),
    {
        let (genome, note, preset_idx): (Genome<u32>, i32, Option<usize>) = match opened {
            Some(g) => (g, OPENED_NOTE, None),
            None => (preset_genome(0), PRESETS[0].1, Some(0)),
        };
        let cue: u32 = score(genome);
        let mut app = App {
            genome,
            note,
            status: Status::Welcome,
            preset_idx,
            undo: Vec::new(),
            redo: Vec::new(),
            ab_other: Slot { genome, note },
            ab_is_b: false,
            target_name: String::new(),
            matching: false,
            progress: 0,
            seedlings: Vec::new(),
            grow_arch: 0,
            grow_amount: GROW_AMOUNT,
            bpm: BPM,
            key: "F1".to_owned(),
            pattern_idx: 0,
            swing: SWING,
            unison: UNISON,
            patch_name: UNNAMED.to_owned(),
            user_sel: None,
            show_help: false,
            show_keys: false,
            shot,
            adopting: false,
            frame: 0,
            busy: false,
            cue,
            rendered_key: None,
            last_loop_sig: None,
            groove: None,
            use_groove: false,
            groove_gen: 0,
        };
        let a = app.request_patch(false);
        (app, a)
    }

    // ---- editing -------------------------------------------------------------------------------------

    /// Remembers the patch, so that an edit can be undone.
    pub fn checkpoint(&mut self)
        ensures
            *final(self) == (App {
                undo: final(self).undo,
                redo: final(self).redo,
                ..*old(self)
            }),
            final(self).history() == edited(old(self).history(), old(self).slot()),
    {
        self.undo.push(Slot { genome: self.genome, note: self.note });
        if self.undo.len() > MAX_UNDO {
            self.undo.remove(0);
        }
        self.redo.clear();
    }

    /// `t` is `s` with its patch replaced: it can be undone to, and the new one is
    /// asked for.
    pub open spec fn patched(s: App, t: App, to: Slot, play: bool, a: Action) -> bool {
        t.history() == edited(s.history(), to) && t.asks_for_patch(s.busy, play, a)
    }

    /// Replaces the patch.
    pub fn set_patch(&mut self, g: Genome<u32>, note: i32, play: bool) -> (a: Action)
        ensures
            *final(self) == (App {
                genome: final(self).genome,
                note: final(self).note,
                undo: final(self).undo,
                redo: final(self).redo,
                busy: final(self).busy,
                ..*old(self)
            }),
            App::patched(*old(self), *final(self), (Slot { genome: g, note }), play, a),
    {
        self.checkpoint();
        self.genome = g;
        self.note = note;
        self.request_patch(play)
    }

    /// Turns a knob: the patch is then no preset's.
    pub fn turn_knob(&mut self, i: usize, value: u32) -> (a: Action)
        requires
            i < N_PARAMS,
        ensures
            *final(self) == (App {
                genome: final(self).genome,
                preset_idx: None,
                busy: final(self).busy,
                ..*old(self)
            }),
            final(self).genome@ == old(self).genome@.update(i as int, value),
            final(self).asks_for_patch(old(self).busy, false, a),
    {
        self.genome[i] = value;
        self.preset_idx = None;
        self.request_patch(false)
    }

    /// Sets how wide the unison is.
    pub fn set_unison(&mut self, value: u32) -> (a: Action)
        ensures
            *final(self) == (App { unison: value, busy: final(self).busy, ..*old(self) }),
            final(self).asks_for_patch(old(self).busy, false, a),
    {
        self.unison = value;
        self.request_patch(false)
    }

    pub open spec fn played(s: App, t: App, playing: bool, a: Action) -> bool {
        if playing {
            a == Action::Stop && t == s
        } else {
            t == (App { busy: t.busy, ..s }) && t.asks_for_patch(s.busy, true, a)
        }
    }

    /// Stops what plays, or plays the patch.
    pub fn toggle_play(&mut self, playing: bool) -> (a: Action)
        ensures
            App::played(*old(self), *final(self), playing, a),
    {
        if playing {
            Action::Stop
        } else {
            self.request_patch(true)
        }
    }

    /// The note `d` away, within what the keys reach.
    pub open spec fn nudged_note(note: int, d: int) -> int {
        if note + d < NOTE_LO {
            NOTE_LO as int
        } else if note + d > NOTE_HI {
            NOTE_HI as int
        } else {
            note + d
        }
    }

    pub open spec fn nudged(s: App, t: App, d: int, a: Action) -> bool {
        &&& t == (App { note: t.note, busy: t.busy, ..s })
        &&& t.note == App::nudged_note(s.note as int, d)
        &&& t.asks_for_patch(s.busy, false, a)
    }

    /// Moves the note.
    pub fn nudge_note(&mut self, d: i32) -> (a: Action)
        requires
            i32::MIN <= old(self).note + d <= i32::MAX,
        ensures
            App::nudged(*old(self), *final(self), d as int, a),
    {
        let n: i32 = self.note + d;
        self.note = if n < NOTE_LO {
            NOTE_LO
        } else if n > NOTE_HI {
            NOTE_HI
        } else {
            n
        };
        self.request_patch(false)
    }

    pub open spec fn swapped(s: App, t: App, a: Action) -> bool {
        &&& t == (App {
            genome: s.ab_other.genome,
            note: s.ab_other.note,
            ab_other: s.slot(),
            ab_is_b: !s.ab_is_b,
            busy: t.busy,
            ..s
        })
        &&& t.asks_for_patch(s.busy, true, a)
    }

    /// Swaps the patch with the one in the other slot.
    pub fn swap_ab(&mut self) -> (a: Action)
        ensures
            App::swapped(*old(self), *final(self), a),
    {
        let here = Slot { genome: self.genome, note: self.note };
        self.genome = self.ab_other.genome;
        self.note = self.ab_other.note;
        self.ab_other = here;
        self.ab_is_b = !self.ab_is_b;
        self.request_patch(true)
    }

    /// `t` is `s` after a step in its history, which asks for the patch if there was
    /// one.
    pub open spec fn stepped(s: App, t: App, h: History, moved: bool, a: Option<Action>) -> bool {
        &&& t == (App {
            genome: t.genome,
            note: t.note,
            undo: t.undo,
            redo: t.redo,
            busy: t.busy,
            ..s
        })
        &&& t.history() == h
        &&& match a {
            Some(a) => moved && t.asks_for_patch(s.busy, false, a),
            None => !moved && t.busy == s.busy,
        }
    }

    pub open spec fn was_undone(s: App, t: App, a: Option<Action>) -> bool {
        App::stepped(s, t, undone(s.history()), s.undo@.len() > 0, a)
    }

    pub open spec fn was_redone(s: App, t: App, a: Option<Action>) -> bool {
        App::stepped(s, t, redone(s.history()), s.redo@.len() > 0, a)
    }

    /// Takes the last edit back.
    pub fn do_undo(&mut self) -> (a: Option<Action>)
        ensures
            App::was_undone(*old(self), *final(self), a),
    {
        match self.undo.pop() {
            Some(p) => {
                self.redo.push(Slot { genome: self.genome, note: self.note });
                self.genome = p.genome;
                self.note = p.note;
                Some(self.request_patch(false))
            },
            None => None,
        }
    }

    /// Brings the last edit that was taken back, back.
    pub fn do_redo(&mut self) -> (a: Option<Action>)
        ensures
            App::was_redone(*old(self), *final(self), a),
    {
        match self.redo.pop() {
            Some(p) => {
                self.undo.push(Slot { genome: self.genome, note: self.note });
                self.genome = p.genome;
                self.note = p.note;
                Some(self.request_patch(false))
            },
            None => None,
        }
    }

    // ---- presets and patches -------------------------------------------------------------------------

    pub open spec fn preset_loaded(s: App, t: App, i: int, a: Action) -> bool {
        &&& t == (App {
            genome: t.genome,
            note: t.note,
            undo: t.undo,
            redo: t.redo,
            busy: t.busy,
            preset_idx: Some(i as usize),
            user_sel: None,
            status: Status::Preset(i as usize),
            ..s
        })
        &&& is_preset(t.genome, i)
        &&& App::patched(s, t, (Slot { genome: t.genome, note: PRESETS@[i].1 }), true, a)
    }

    /// Loads a preset and plays it.
    pub fn load_preset(&mut self, i: usize) -> (a: Action)
        requires
            i < N_PRESETS,
        ensures
            App::preset_loaded(*old(self), *final(self), i as int, a),
    {
        self.preset_idx = Some(i);
        self.user_sel = None;
        let g = preset_genome(i);
        let a = self.set_patch(g, PRESETS[i].1, true);
        self.status = Status::Preset(i);
        a
    }

    /// The preset next to the current one, round and round; the first if there is
    /// no current one.
    pub open spec fn next_preset(&self, dir: int) -> int {
        match self.preset_idx {
            Some(i) => (i + dir) % N_PRESETS as int,
            None => 0,
        }
    }

    /// Loads the next preset, or the one before.
    pub fn step_preset(&mut self, dir: i32) -> (a: Action)
        requires
            old(self).inv(),
        ensures
            App::preset_loaded(*old(self), *final(self), old(self).next_preset(dir as int), a),
    {
        let i: usize = match self.preset_idx {
            Some(i) => {
                let n: i64 = (i as i64 + dir as i64) % (N_PRESETS as i64);
                if n < 0 {
                    (n + N_PRESETS as i64) as usize
                } else {
                    n as usize
                }
            },
            None => 0,
        };
        self.load_preset(i)
    }

    /// Loads a patch of the user's library and plays it, at its own note if it has
    /// one.
    pub fn load_user_patch(&mut self, name: String, g: Genome<u32>, note: Option<i32>) -> (a: Action)
        ensures
            *final(self) == (App {
                genome: final(self).genome,
                note: final(self).note,
                undo: final(self).undo,
                redo: final(self).redo,
                busy: final(self).busy,
                preset_idx: None,
                user_sel: Some(name),
                patch_name: name,
                status: Status::Patch(name),
                ..*old(self)
            }),
            App::patched(
                *old(self),
                *final(self),
                (Slot {
                    genome: g,
                    note: match note {
                        Some(n) => n,
                        None => old(self).note,
                    },
                }),
                true,
                a,
            ),
    {
        self.preset_idx = None;
        self.user_sel = Some(name.clone());
        self.patch_name = name.clone();
        let n: i32 = match note {
            Some(n) => n,
            None => self.note,
        };
        let a = self.set_patch(g, n, true);
        self.status = Status::Patch(name);
        a
    }

    pub open spec fn saving(s: App, t: App, a: Action) -> bool {
        &&& t == (App { busy: true, status: t.status, ..s })
        &&& t.status matches Status::Saving(n) && n@ == saved_name(s.patch_name@)
        &&& a matches Action::Send(Job::SavePatch { genome, note, unison, name }) && {
            &&& genome == s.genome
            &&& note == s.note
            &&& unison == s.unison
            &&& name@ == saved_name(s.patch_name@)
        }
    }

    /// Saves the patch under its name.
    pub fn save_current_patch(&mut self) -> (a: Action)
        ensures
            App::saving(*old(self), *final(self), a),
    {
        let name = name_to_save(self.patch_name.as_str());
        self.status = Status::Saving(name.clone());
        self.busy = true;
        Action::Send(
            Job::SavePatch { genome: self.genome, note: self.note, unison: self.unison, name },
        )
    }

    /// What the current patch is called.
    pub fn current_label(&self) -> (r: String)
        requires
            self.inv(),
        ensures
            r@ == match (self.preset_idx, self.user_sel) {
                (Some(i), _) => PRESETS@[i as int].0@,
                (None, Some(s)) => s@,
                (None, None) => "custom"@,
            },
    {
        match self.preset_idx {
            Some(i) => PRESETS[i].0.to_owned(),
            None => match &self.user_sel {
                Some(s) => s.clone(),
                None => "custom".to_owned(),
            },
        }
    }
}

impl App {
    // ---- generating ----------------------------------------------------------------------------------

    pub open spec fn rolled(s: App, t: App, a: Action) -> bool {
        &&& t == (App { busy: true, status: Status::Rolling, ..s })
        &&& a == Action::Send(Job::LuckyDip { note: s.note, rng_seed: s.frame })
    }

    /// Asks for a random patch.
    pub fn random_patch(&mut self) -> (a: Action)
        ensures
            App::rolled(*old(self), *final(self), a),
    {
        self.status = Status::Rolling;
        self.busy = true;
        Action::Send(Job::LuckyDip { note: self.note, rng_seed: self.frame })
    }

    /// The note at which seedlings grow: the patch's, or one that suits the
    /// archetype.
    pub open spec fn grow_note(&self) -> i32 {
        if self.grow_arch == 0 {
            self.note
        } else {
            HOME_NOTES@[self.grow_arch - 1]
        }
    }

    pub open spec fn growing(s: App, t: App, a: Action) -> bool {
        let job = Job::Grow {
            seed: s.genome,
            arch: s.grow_arch,
            note: s.grow_note(),
            amount: s.grow_amount,
            rng_seed: s.frame,
        };
        if s.shot {
            a == Action::Run(job) && t == (App { note: s.grow_note(), ..s })
        } else {
            a == Action::Send(job) && t == (App {
                note: s.grow_note(),
                status: Status::Growing,
                busy: true,
                ..s
            })
        }
    }

    /// Asks for seedlings, of the patch or of an archetype, whose note the patch
    /// then takes.
    pub fn grow(&mut self) -> (a: Action)
        requires
            old(self).inv(),
        ensures
            App::growing(*old(self), *final(self), a),
    {
        if self.grow_arch != 0 {
            proof {
                law_listed_archetypes_exist(self.grow_arch - 1);
            }
            self.note = home_note(ARCHETYPE_NAMES[self.grow_arch - 1]);
        }
        let job = Job::Grow {
            seed: self.genome,
            arch: self.grow_arch,
            note: self.note,
            amount: self.grow_amount,
            rng_seed: self.frame,
        };
        if self.shot {
            return Action::Run(job);
        }
        self.status = Status::Growing;
        self.busy = true;
        Action::Send(job)
    }

    /// Asks to hear a seedling.
    pub fn hear_seedling(&mut self, i: usize) -> (a: Action)
        requires
            i < old(self).seedlings@.len(),
        ensures
            *final(self) == (App { busy: true, ..*old(self) }),
            a == Action::Send(
                Job::Seedling {
                    genome: old(self).seedlings@[i as int].genome,
                    note: old(self).note,
                    unison: old(self).unison,
                },
            ),
    {
        self.busy = true;
        let genome = self.seedlings[i].genome;
        Action::Send(Job::Seedling { genome, note: self.note, unison: self.unison })
    }

    /// The `i`th seedling becomes the patch and is played, and the next generation
    /// grows from it.
    pub open spec fn adopted(s: App, t: App, i: int, r: (Action, Action)) -> bool {
        let job = Job::Grow {
            seed: t.genome,
            arch: 0,
            note: t.note,
            amount: s.grow_amount,
            rng_seed: s.frame,
        };
        &&& t == (App {
            genome: t.genome,
            note: t.note,
            undo: t.undo,
            redo: t.redo,
            busy: s.busy || !s.shot,
            preset_idx: None,
            grow_arch: 0,
            adopting: s.shot,
            status: Status::Adopted,
            ..s
        })
        &&& t.history() == edited(
            s.history(),
            (Slot { genome: s.seedlings@[i].genome, note: s.note }),
        )
        &&& r.0 == t.patch_request(true)
        &&& r.1 == if s.shot {
            Action::Run(job)
        } else {
            Action::Send(job)
        }
    }

    /// Adopts a seedling. The adoption is what the status says, also when the next
    /// generation has been grown at once.
    pub fn adopt(&mut self, i: usize) -> (r: (Action, Action))
        requires
            old(self).inv(),
            i < old(self).seedlings@.len(),
        ensures
            App::adopted(*old(self), *final(self), i as int, r),
    {
        let g = self.seedlings[i].genome;
        self.preset_idx = None;
        let note: i32 = self.note;
        let first = self.set_patch(g, note, true);
        self.grow_arch = 0;
        let second = self.grow();
        self.adopting = self.shot;
        self.status = Status::Adopted;
        (first, second)
    }

    // ---- loops ---------------------------------------------------------------------------------------

    /// The groove plays in place of a pattern.
    pub open spec fn grooves(&self) -> bool {
        self.use_groove && self.groove is Some
    }

    /// What a loop on that root would be rendered from.
    pub open spec fn sig(&self, root: i32) -> LoopSig {
        LoopSig {
            genome: self.genome,
            root,
            pattern_idx: self.pattern_idx,
            bpm: self.bpm,
            swing: self.swing,
            unison: self.unison,
            groove: if self.grooves() {
                self.groove_gen
            } else {
                0
            },
        }
    }

    pub fn loop_sig(&self, root: i32) -> (r: LoopSig)
        ensures
            r == self.sig(root),
    {
        LoopSig {
            genome: self.genome,
            root,
            pattern_idx: self.pattern_idx,
            bpm: self.bpm,
            swing: self.swing,
            unison: self.unison,
            groove: if self.use_groove && self.groove.is_some() {
                self.groove_gen
            } else {
                0
            },
        }
    }

    /// What a loop is made of: the groove's name, or the pattern's.
    pub open spec fn loop_what(&self) -> Seq<char> {
        if self.grooves() {
            self.groove->0.name@
        } else {
            PATTERN_NAMES@[self.pattern_idx as int]@
        }
    }

    /// The job renders the loop that `self` describes, on that root.
    pub open spec fn is_loop_job(&self, job: Job, root: i32, save: bool, whole_bpm: u32) -> bool {
        &&& job matches Job::Loop {
            genome,
            root: r,
            pattern_idx,
            bpm,
            swing,
            unison,
            groove,
            save: file,
        }
        &&& (genome, r, pattern_idx) == (self.genome, root, self.pattern_idx)
        &&& (bpm, swing, unison) == (self.bpm, self.swing, self.unison)
        &&& match groove {
            Some(p) => {
                &&& self.grooves()
                &&& p.events@ == self.groove->0.events@
                &&& p.tpb == self.groove->0.tpb
                &&& p.beats == self.groove->0.beats
            },
            None => !self.grooves(),
        }
        &&& match file {
            Some(f) => save && f@ == loop_file_name(self.loop_what(), whole_bpm, self.key@),
            None => !save,
        }
    }

    pub open spec fn looped(
        s: App,
        t: App,
        save: bool,
        looping: bool,
        whole_bpm: u32,
        a: Option<Action>,
    ) -> bool {
        match note_number(s.key@) {
            Err(_) => {
                &&& a is None
                &&& t == (App { status: t.status, ..s })
                &&& t.status matches Status::BadKey(k) && k@ == s.key@
            },
            Ok(root) => {
                &&& a matches Some(Action::Send(job)) && s.is_loop_job(job, root, save, whole_bpm)
                &&& t == (App {
                    busy: true,
                    last_loop_sig: if save {
                        s.last_loop_sig
                    } else {
                        Some(s.sig(root))
                    },
                    status: if !save && !looping {
                        Status::Rendering
                    } else {
                        s.status
                    },
                    ..s
                })
            },
        }
    }

    /// Asks for the loop to be rendered, to play it or to save it. `whole_bpm` is
    /// the tempo without its fraction.
    pub fn request_loop(&mut self, save: bool, looping: bool, whole_bpm: u32) -> (a: Option<Action>)
        requires
            old(self).inv(),
            has_octave(old(self).key@),
        ensures
            App::looped(*old(self), *final(self), save, looping, whole_bpm, a),
    {
        let root: i32 = match note_to_midi(self.key.as_str()) {
            Ok(r) => r,
            Err(_) => {
                self.status = Status::BadKey(self.key.clone());
                return None;
            },
        };
        if !save {
            self.last_loop_sig = Some(self.loop_sig(root));
            if !looping {
                self.status = Status::Rendering;
            }
        }
        let phrase: Option<Phrase> = if self.use_groove {
            match &self.groove {
                Some(g) => Some(
                    Phrase { events: copy_events(&g.events), tpb: g.tpb, beats: g.beats },
                ),
                None => None,
            }
        } else {
            None
        };
        let file: Option<String> = if save {
            let what: &str = if self.use_groove {
                match &self.groove {
                    Some(g) => g.name.as_str(),
                    None => PATTERN_NAMES[self.pattern_idx],
                }
            } else {
                PATTERN_NAMES[self.pattern_idx]
            };
            Some(loop_file(what, whole_bpm, self.key.as_str()))
        } else {
            None
        };
        self.busy = true;
        Some(
            Action::Send(
                Job::Loop {
                    genome: self.genome,
                    root,
                    pattern_idx: self.pattern_idx,
                    bpm: self.bpm,
                    swing: self.swing,
                    unison: self.unison,
                    groove: phrase,
                    save: file,
                },
            ),
        )
    }

    pub open spec fn loop_toggled(s: App, t: App, looping: bool, a: Option<Action>) -> bool {
        if looping {
            a == Some(Action::Stop) && t == s
        } else {
            App::looped(s, t, false, false, 0, a)
        }
    }

    /// Stops the loop, or starts one.
    pub fn toggle_loop(&mut self, looping: bool) -> (a: Option<Action>)
        requires
            old(self).inv(),
            has_octave(old(self).key@),
        ensures
            App::loop_toggled(*old(self), *final(self), looping, a),
    {
        if looping {
            Some(Action::Stop)
        } else {
            self.request_loop(false, false, 0)
        }
    }

    /// While a loop plays, anything that it depends on was changed.
    pub open spec fn loop_is_stale(&self, looping: bool) -> bool {
        &&& !self.shot
        &&& looping
        &&& note_number(self.key@) matches Ok(root) && !(self.last_loop_sig matches Some(l)
            && l.same(self.sig(root)))
    }

    /// Follows edits while a loop plays: once anything that it depends on was
    /// changed, it is rendered anew.
    pub fn follow_edits(&mut self, looping: bool) -> (a: Option<Action>)
        requires
            old(self).inv(),
            has_octave(old(self).key@),
        ensures
            if old(self).loop_is_stale(looping) {
                App::looped(*old(self), *final(self), false, true, 0, a)
            } else {
                a is None && *final(self) == *old(self)
            },
    {
        if self.shot || !looping {
            return None;
        }
        match note_to_midi(self.key.as_str()) {
            Err(_) => None,
            Ok(root) => {
                let fresh: bool = match &self.last_loop_sig {
                    Some(l) => l.is_same(&self.loop_sig(root)),
                    None => false,
                };
                if fresh {
                    None
                } else {
                    self.request_loop(false, true, 0)
                }
            },
        }
    }

    /// Picks a pattern for the loop.
    pub fn pick_pattern(&mut self, i: usize)
        requires
            i < N_PATTERNS,
        ensures
            *final(self) == (App { pattern_idx: i, use_groove: false, ..*old(self) }),
    {
        self.pattern_idx = i;
        self.use_groove = false;
    }

    /// Picks the groove for the loop.
    pub fn pick_groove(&mut self)
        ensures
            *final(self) == (App { use_groove: true, ..*old(self) }),
    {
        self.use_groove = true;
    }

    /// A groove was imported: it plays.
    pub open spec fn grooved(s: App, t: App, g: Groove, looping: bool, a: Option<Action>) -> bool {
        exists|m: App| #[trigger] App::grooving(s, m, g) && App::looped(m, t, false, looping, 0, a)
    }

    /// `m` is `s` with a new groove.
    pub open spec fn grooving(s: App, m: App, g: Groove) -> bool {
        &&& m == (App {
            groove: Some(g),
            groove_gen: (s.groove_gen + 1) as u64,
            use_groove: true,
            status: m.status,
            ..s
        })
        &&& m.status matches Status::Groove { name, bars, key } && {
            &&& name@ == g.name@
            &&& bars == g.bar_count()
            &&& key@ == s.key@
        }
    }

    /// Takes a groove and starts to loop it.
    pub fn take_groove(&mut self, g: Groove, looping: bool) -> (a: Option<Action>)
        requires
            old(self).inv(),
            has_octave(old(self).key@),
            old(self).groove_gen < u64::MAX,
        ensures
            App::grooved(*old(self), *final(self), g, looping, a),
    {
        self.groove_gen = self.groove_gen + 1;
        self.use_groove = true;
        self.status = Status::Groove { name: g.name.clone(), bars: g.bars(), key: self.key.clone() };
        self.groove = Some(g);
        let ghost m = *self;
        let a = self.request_loop(false, looping, 0);
        assert(App::grooving(*old(self), m, g));
        a
    }

    /// What importing comes to: the groove plays, or the status says why not.
    pub open spec fn imported(
        s: App,
        t: App,
        r: Result<Groove, GrooveError>,
        looping: bool,
        a: Option<Action>,
    ) -> bool {
        match r {
            Ok(g) => App::grooved(s, t, g, looping, a),
            Err(e) => a is None && t == (App { status: Status::NoGroove(e), ..s }),
        }
    }

    /// Imports the bytes of a MIDI file as a groove and starts to loop it.
    pub fn load_midi_groove(&mut self, bytes: &[u8], name: String, looping: bool) -> (a: Option<
        Action,
    >)
        requires
            old(self).inv(),
            has_octave(old(self).key@),
            old(self).groove_gen < u64::MAX,
        ensures
            exists|r: Result<Groove, GrooveError>|
                loads_groove(bytes@, name, r) && #[trigger] App::imported(
                    *old(self),
                    *final(self),
                    r,
                    looping,
                    a,
                ),
    {
        let r = load_groove(bytes, name);
        let ghost loaded = r;
        let a = match r {
            Ok(g) => self.take_groove(g, looping),
            Err(e) => {
                self.status = Status::NoGroove(e);
                None
            },
        };
        assert(App::imported(*old(self), *self, loaded, looping, a));
        a
    }
}

fn copy_events(e: &Vec<Ev>) -> (r: Vec<Ev>)
    ensures
        r@ == e@,
{
    let mut r: Vec<Ev> = Vec::new();
    let mut i: usize = 0;
    while i < e.len()
        invariant
            i <= e@.len(),
            r@ == e@.take(i as int),
        decreases e@.len() - i,
    {
        r.push(e[i]);
        i = i + 1;
        assert(r@ =~= e@.take(i as int));
    }
    assert(r@ =~= e@);
    r
}

impl App {
    // ---- results of the worker -----------------------------------------------------------------------

    /// What a result does to the app.
    pub open spec fn applied(s: App, t: App, out: Out, h: Heard) -> bool {
        match out {
            Out::Patch { play, cue, key } => {
                &&& t == (App { rendered_key: Some(key), cue, ..s })
                &&& h == Heard::Keep { play }
            },
            Out::LoopReady => {
                &&& t == (App { rendered_key: None, status: Status::Looping, ..s })
                &&& h == Heard::KeepLoop
            },
            Out::Seedling => t == s && h == Heard::Once,
            Out::Grown { seedlings, arch } => {
                &&& t == (App {
                    seedlings,
                    status: if s.adopting {
                        Status::Adopted
                    } else {
                        Status::Grew { n: seedlings@.len() as usize, arch }
                    },
                    adopting: false,
                    ..s
                })
                &&& h == Heard::Nothing
            },
            Out::Lucky { genome: Some(g) } => {
                &&& t == (App {
                    genome: t.genome,
                    note: t.note,
                    undo: t.undo,
                    redo: t.redo,
                    busy: t.busy,
                    preset_idx: None,
                    status: Status::Dealt,
                    ..s
                })
                &&& h matches Heard::Do(a) && App::patched(
                    s,
                    t,
                    (Slot { genome: g, note: s.note }),
                    true,
                    a,
                )
            },
            Out::Lucky { genome: None } => {
                &&& t == (App { status: Status::AllDuds, ..s })
                &&& h == Heard::Nothing
            },
            Out::SavedPatch { name: Some(n), msg } => {
                &&& t == (App { user_sel: Some(n), status: Status::Said(msg), ..s })
                &&& h == Heard::Relist
            },
            Out::SavedPatch { name: None, msg } => {
                &&& t == (App { status: Status::Said(msg), ..s })
                &&& h == Heard::Nothing
            },
            Out::Status(msg) => {
                &&& t == (App { status: Status::Said(msg), ..s })
                &&& h == Heard::Nothing
            },
            Out::Idle => t == (App { busy: false, ..s }) && h == Heard::Nothing,
        }
    }

    /// Takes in what came of a job.
    pub fn apply(&mut self, out: Out) -> (h: Heard)
        ensures
            App::applied(*old(self), *final(self), out, h),
    {
        match out {
            Out::Patch { play, cue, key } => {
                self.rendered_key = Some(key);
                self.cue = cue;
                Heard::Keep { play }
            },
            Out::LoopReady => {
                self.rendered_key = None;
                self.status = Status::Looping;
                Heard::KeepLoop
            },
            Out::Seedling => Heard::Once,
            Out::Grown { seedlings, arch } => {
                self.status = if self.adopting {
                    Status::Adopted
                } else {
                    Status::Grew { n: seedlings.len(), arch }
                };
                self.adopting = false;
                self.seedlings = seedlings;
                Heard::Nothing
            },
            Out::Lucky { genome: Some(g) } => {
                self.preset_idx = None;
                let note: i32 = self.note;
                let a = self.set_patch(g, note, true);
                self.status = Status::Dealt;
                Heard::Do(a)
            },
            Out::Lucky { genome: None } => {
                self.status = Status::AllDuds;
                Heard::Nothing
            },
            Out::SavedPatch { name: Some(n), msg } => {
                self.user_sel = Some(n);
                self.status = Status::Said(msg);
                Heard::Relist
            },
            Out::SavedPatch { name: None, msg } => {
                self.status = Status::Said(msg);
                Heard::Nothing
            },
            Out::Status(msg) => {
                self.status = Status::Said(msg);
                Heard::Nothing
            },
            Out::Idle => {
                self.busy = false;
                Heard::Nothing
            },
        }
    }

    // ---- matching ------------------------------------------------------------------------------------

    /// A match of a sound that was opened has begun.
    pub fn start_match(&mut self, name: String)
        ensures
            *final(self) == (App {
                target_name: name,
                status: Status::Cloning(name),
                progress: 0,
                matching: true,
                ..*old(self)
            }),
    {
        self.status = Status::Cloning(name.clone());
        self.target_name = name;
        self.progress = 0;
        self.matching = true;
    }

    /// A match of the same sound has begun again.
    pub fn restart_match(&mut self)
        ensures
            *final(self) == (App {
                status: Status::Recloning,
                progress: 0,
                matching: true,
                ..*old(self)
            }),
    {
        self.status = Status::Recloning;
        self.progress = 0;
        self.matching = true;
    }

    /// What news of a match do to the app.
    pub open spec fn match_heard(s: App, t: App, m: MatchMsg, a: Option<Action>) -> bool {
        match m {
            MatchMsg::Progress { percent, best } => {
                &&& t == (App {
                    progress: percent,
                    status: Status::Matching { percent, best },
                    ..s
                })
                &&& a is None
            },
            MatchMsg::Done { genome, midi, before, after } => {
                &&& t == (App {
                    genome: t.genome,
                    note: t.note,
                    undo: t.undo,
                    redo: t.redo,
                    busy: t.busy,
                    matching: false,
                    preset_idx: None,
                    status: Status::Cloned { midi, before, after },
                    ..s
                })
                &&& a matches Some(x) && App::patched(s, t, (Slot { genome, note: midi }), true, x)
            },
            MatchMsg::Failed(e) => {
                &&& t == (App { matching: false, status: Status::MatchFailed(e), ..s })
                &&& a is None
            },
        }
    }

    /// Takes in news of a match.
    pub fn hear_match(&mut self, m: MatchMsg) -> (a: Option<Action>)
        ensures
            App::match_heard(*old(self), *final(self), m, a),
    {
        match m {
            MatchMsg::Progress { percent, best } => {
                self.progress = percent;
                self.status = Status::Matching { percent, best };
                None
            },
            MatchMsg::Done { genome, midi, before, after } => {
                self.matching = false;
                self.preset_idx = None;
                let a = self.set_patch(genome, midi, true);
                self.status = Status::Cloned { midi, before, after };
                Some(a)
            },
            MatchMsg::Failed(e) => {
                self.matching = false;
                self.status = Status::MatchFailed(e);
                None
            },
        }
    }

    // ---- frames and keys -----------------------------------------------------------------------------

    /// A frame begins. For a screenshot a scene is set: stabs grow, and the help is
    /// open if it is asked for.
    pub fn begin_frame(&mut self, help: bool) -> (a: Option<Action>)
        requires
            old(self).inv(),
            old(self).frame < u64::MAX,
        ensures
            final(self).frame == old(self).frame + 1,
            if old(self).shot && final(self).frame == SCENE_FRAME {
                a matches Some(x) && App::growing(
                    (App {
                        frame: final(self).frame,
                        grow_arch: SCENE_ARCH,
                        show_help: final(self).show_help,
                        ..*old(self)
                    }),
                    *final(self),
                    x,
                ) && final(self).show_help == (old(self).show_help || help)
            } else {
                a is None && *final(self) == (App { frame: final(self).frame, ..*old(self) })
            },
    {
        self.frame = self.frame + 1;
        if self.shot && self.frame == SCENE_FRAME {
            self.grow_arch = SCENE_ARCH;
            let a = self.grow();
            if help {
                self.show_help = true;
            }
            return Some(a);
        }
        None
    }
}

/// The keys that the app answers to.
#[derive(Clone, Copy, Debug, PartialEq, Eq, Structural)]
pub enum Key {
    Undo,
    Redo,
    Play,
    PresetBack,
    PresetOn,
    NoteUp,
    NoteDown,
    Random,
    Grow,
    Loop,
    Swap,
    Save,
    Keys,
    Help,
    Escape,
}

impl App {
    /// Whether a key is answered: undo and redo always, the others unless text is
    /// being typed, a list is open or a screenshot is being taken.
    pub fn answers(&self, key: Key, typing: bool, popup: bool) -> (r: bool)
        ensures
            r == (key == Key::Undo || key == Key::Redo || (!typing && !popup && !self.shot)),
    {
        match key {
            Key::Undo => true,
            Key::Redo => true,
            _ => !typing && !popup && !self.shot,
        }
    }

    /// Closes what is open over the app; if nothing is, stops playing.
    pub open spec fn escaped(s: App, t: App, a: Option<Action>) -> bool {
        if s.show_help || s.show_keys {
            a is None && t == (App { show_help: false, show_keys: false, ..s })
        } else {
            a == Some(Action::Stop) && t == s
        }
    }

    /// What a key does, while a sound or a loop plays or not.
    pub open spec fn pressed(
        s: App,
        t: App,
        key: Key,
        playing: bool,
        looping: bool,
        a: Option<Action>,
    ) -> bool {
        match key {
            Key::Undo => App::was_undone(s, t, a),
            Key::Redo => App::was_redone(s, t, a),
            Key::Play => a matches Some(x) && App::played(s, t, playing, x),
            Key::PresetBack => a matches Some(x) && App::preset_loaded(s, t, s.next_preset(-1), x),
            Key::PresetOn => a matches Some(x) && App::preset_loaded(s, t, s.next_preset(1), x),
            Key::NoteUp => a matches Some(x) && App::nudged(s, t, 1, x),
            Key::NoteDown => a matches Some(x) && App::nudged(s, t, -1, x),
            Key::Random => a matches Some(x) && App::rolled(s, t, x),
            Key::Grow => a matches Some(x) && App::growing(s, t, x),
            Key::Loop => App::loop_toggled(s, t, looping, a),
            Key::Swap => a matches Some(x) && App::swapped(s, t, x),
            Key::Save => a matches Some(x) && App::saving(s, t, x),
            Key::Keys => a is None && t == (App { show_keys: !s.show_keys, ..s }),
            Key::Help => a is None && t == (App { show_help: !s.show_help, ..s }),
            Key::Escape => App::escaped(s, t, a),
        }
    }

    /// Answers a key.
    pub fn press(&mut self, key: Key, playing: bool, looping: bool) -> (a: Option<Action>)
        requires
            old(self).inv(),
            key == Key::NoteUp ==> old(self).note < i32::MAX,
            key == Key::NoteDown ==> old(self).note > i32::MIN,
            key == Key::Loop ==> has_octave(old(self).key@),
        ensures
            App::pressed(*old(self), *final(self), key, playing, looping, a),
    {
        match key {
            Key::Undo => self.do_undo(),
            Key::Redo => self.do_redo(),
            Key::Play => Some(self.toggle_play(playing)),
            Key::PresetBack => Some(self.step_preset(-1)),
            Key::PresetOn => Some(self.step_preset(1)),
            Key::NoteUp => Some(self.nudge_note(1)),
            Key::NoteDown => Some(self.nudge_note(-1)),
            Key::Random => Some(self.random_patch()),
            Key::Grow => Some(self.grow()),
            Key::Loop => self.toggle_loop(looping),
            Key::Swap => Some(self.swap_ab()),
            Key::Save => Some(self.save_current_patch()),
            Key::Keys => {
                self.show_keys = !self.show_keys;
                None
            },
            Key::Help => {
                self.show_help = !self.show_help;
                None
            },
            Key::Escape => {
                if self.show_help || self.show_keys {
                    self.show_help = false;
                    self.show_keys = false;
                    None
                } else {
                    Some(Action::Stop)
                }
            },
        }
    }
}

// ---- what holds of the app ---------------------------------------------------------------------------

/// No key takes the app out of its bounds.
pub proof fn law_keys_keep_the_bounds(
    s: App,
    t: App,
    key: Key,
    playing: bool,
    looping: bool,
    a: Option<Action>,
)
    requires
        s.inv(),
        App::pressed(s, t, key, playing, looping, a),
    ensures
        t.inv(),
{
}

/// No result takes the app out of its bounds.
pub proof fn law_results_keep_the_bounds(s: App, t: App, out: Out, h: Heard)
    requires
        s.inv(),
        App::applied(s, t, out, h),
    ensures
        t.inv(),
{
}

/// An adoption stays what the status says while its jobs are done at once, as they
/// are for a screenshot; the seedlings that follow are those that were grown.
pub proof fn law_adoption_is_what_the_status_says(
    s: App,
    t: App,
    u: App,
    v: App,
    i: int,
    r: (Action, Action),
    patch: Out,
    grown: Out,
    h: Heard,
    k: Heard,
)
    requires
        s.shot,
        App::adopted(s, t, i, r),
        patch is Patch,
        App::applied(t, u, patch, h),
        grown is Grown,
        App::applied(u, v, grown, k),
    ensures
        t.status == Status::Adopted,
        v.status == Status::Adopted,
        v.seedlings == grown->seedlings,
        !v.adopting,
{
}

/// Swapping twice brings the patch and the other slot back.
pub proof fn law_swapping_twice(s: App, t: App, u: App, a: Action, b: Action)
    requires
        App::swapped(s, t, a),
        App::swapped(t, u, b),
    ensures
        u.slot() == s.slot(),
        u.ab_other == s.ab_other,
        u.ab_is_b == s.ab_is_b,
{
}

/// Undoing an edit to the patch brings it back, and asks for it: pressing undo
/// after any edit gives the patch that was there before.
pub proof fn law_undo_after_an_edit(
    s: App,
    t: App,
    u: App,
    to: Slot,
    play: bool,
    a: Action,
    b: Option<Action>,
)
    requires
        s.inv(),
        App::patched(s, t, to, play, a),
        App::was_undone(t, u, b),
    ensures
        u.slot() == s.slot(),
        b is Some,
{
    law_undo_takes_back_an_edit(s.history(), to);
}

/// Going on and back through the presets ends where it began, wherever there is a
/// current preset.
pub proof fn law_presets_go_round(s: App, t: App, u: App, a: Action, b: Action)
    requires
        s.inv(),
        s.preset_idx is Some,
        App::preset_loaded(s, t, s.next_preset(1), a),
        App::preset_loaded(t, u, t.next_preset(-1), b),
    ensures
        u.preset_idx == s.preset_idx,
{
}

/// A patch that was rendered plays at once: after its result came in, playing it
/// asks for no job, as long as it is a patch of numbers and nothing has changed.
pub proof fn law_rendered_patch_plays_at_once(s: App, t: App, cue: u32, play: bool, h: Heard)
    requires
        !s.shot,
        forall|i: int| 0 <= i < N_PARAMS ==> is_number(#[trigger] s.genome@[i]),
        App::applied(s, t, (Out::Patch { play, cue, key: s.key_of_patch() }), h),
    ensures
        t.patch_request(true) == Action::PlayKept,
{
}

/// Whatever a key asks for can be done.
pub proof fn law_keys_ask_for_valid_jobs(
    s: App,
    t: App,
    key: Key,
    playing: bool,
    looping: bool,
    a: Option<Action>,
)
    requires
        s.inv(),
        App::pressed(s, t, key, playing, looping, a),
    ensures
        a matches Some(Action::Send(job)) ==> is_valid(job),
        a matches Some(Action::Run(job)) ==> is_valid(job),
{
}

/// While a loop plays and nothing that it depends on is changed, it is not rendered
/// anew: a loop that was asked for is fresh, as long as the patch is one of numbers.
pub proof fn law_fresh_loop_is_left_alone(s: App, t: App, looping: bool, a: Option<Action>)
    requires
        s.inv(),
        App::looped(s, t, false, looping, 0, a),
        forall|i: int| 0 <= i < N_PARAMS ==> is_number(#[trigger] s.genome@[i]),
    ensures
        !t.loop_is_stale(true),
{
}

/// The patch as it stands is what is asked for: a job with its own genome, note and unison,
/// done at once for a screenshot and otherwise given to the worker. Only where it is to be
/// played and its sound is kept is there no job: the sound was rendered from the same note,
/// the same unison and, value by value, the same genome.
pub proof fn law_patches_are_asked_for_as_they_stand(s: App, play: bool)
    ensures
        s.shot ==> (s.patch_request(play) matches Action::Run(job) && job == (Job::Patch {
            genome: s.genome,
            note: s.note,
            unison: s.unison,
            play,
        })),
        !s.shot && play && (s.rendered_key matches Some(k) && k.note == s.note && k.unison == s.unison
            && forall|i: int| 0 <= i < 16 ==> same_value(#[trigger] k.genome@[i], s.genome@[i]))
            ==> s.patch_request(play) is PlayKept,
        !s.shot && !(play && (s.rendered_key matches Some(k) && k.note == s.note && k.unison == s.unison
            && forall|i: int| 0 <= i < 16 ==> same_value(#[trigger] k.genome@[i], s.genome@[i])))
            ==> (s.patch_request(play) matches Action::Send(job) && job == (Job::Patch {
            genome: s.genome,
            note: s.note,
            unison: s.unison,
            play,
        })),
{
    if let Some(k) = s.rendered_key {
        if k.same(s.key_of_patch()) {
            assert forall|i: int| 0 <= i < 16 implies same_value(
                #[trigger] k.genome@[i],
                s.genome@[i],
            ) by {}
        }
        if forall|i: int| 0 <= i < 16 ==> same_value(#[trigger] k.genome@[i], s.genome@[i]) {
            assert(same_genome(k.genome, s.genome));
        }
    }
}

/// A patch that is replaced is what undo goes back to: the new one stands in its place, the
/// old one on top of what can be undone, and nothing can be redone. The new one is what is
/// asked for.
pub proof fn law_replaced_patches_can_be_undone(s: App, t: App, to: Slot, play: bool, a: Action)
    requires
        App::patched(s, t, to, play, a),
    ensures
        t.genome == to.genome,
        t.note == to.note,
        t.undo@.len() > 0,
        t.undo@.last().genome == s.genome,
        t.undo@.last().note == s.note,
        t.redo@.len() == 0,
        a matches Action::Send(job) ==> job == (Job::Patch {
            genome: to.genome,
            note: to.note,
            unison: t.unison,
            play,
        }) && t.busy,
        a matches Action::Run(job) ==> job == (Job::Patch {
            genome: to.genome,
            note: to.note,
            unison: t.unison,
            play,
        }),
        a is Send || a is Run || a is PlayKept && play,
{
}

/// The note goes as far as it is moved, but not past the keys, from 12 to 96; the knobs stay,
/// and the patch is asked for at its new note, without being played.
pub proof fn law_notes_stay_on_the_keys(s: App, t: App, d: int, a: Action)
    requires
        App::nudged(s, t, d, a),
    ensures
        12 <= t.note <= 96,
        12 <= s.note + d <= 96 ==> t.note == s.note + d,
        s.note + d < 12 ==> t.note == 12,
        s.note + d > 96 ==> t.note == 96,
        t.genome == s.genome,
        t.undo == s.undo && t.redo == s.redo,
        !s.shot ==> a == Action::Send(
            Job::Patch { genome: s.genome, note: t.note, unison: s.unison, play: false },
        ) && t.busy,
{
}

/// Presets are walked through one by one, and from the last to the first and back; where
/// there is no current one the first is loaded. Each comes with its own knobs and its own
/// note, is played, and can be undone.
pub proof fn law_presets_are_walked_one_by_one(s: App, t: App, dir: int, a: Action)
    requires
        s.inv(),
        dir == 1 || dir == -1,
        App::preset_loaded(s, t, s.next_preset(dir), a),
    ensures
        t.preset_idx matches Some(i) && i < 12 && {
            &&& s.preset_idx is None ==> i == 0
            &&& s.preset_idx matches Some(j) ==> i == if dir == 1 && j == 11 {
                0
            } else if dir == -1 && j == 0 {
                11
            } else {
                j + dir
            }
            &&& t.note == PRESETS@[i as int].1
            &&& forall|k: int|
                0 <= k < 16 ==> is_thousandths(
                    PRESETS@[i as int].2@[k] as int,
                    #[trigger] t.genome@[k],
                )
            &&& t.status == Status::Preset(i)
        },
        t.user_sel is None,
        t.undo@.last() == s.slot(),
        t.undo@.len() > 0,
        a matches Action::Send(job) ==> job.plays(),
{
    assert forall|k: int| 0 <= k < 16 implies is_thousandths(
        PRESETS@[s.next_preset(dir)].2@[k] as int,
        #[trigger] t.genome@[k],
    ) by {}
}

/// The patch and the one in the other slot change places, and what then stands is played.
pub proof fn law_slots_change_places(s: App, t: App, a: Action)
    requires
        App::swapped(s, t, a),
    ensures
        t.genome == s.ab_other.genome && t.note == s.ab_other.note,
        t.ab_other.genome == s.genome && t.ab_other.note == s.note,
        t.ab_is_b != s.ab_is_b,
        t.undo == s.undo && t.redo == s.redo,
        a matches Action::Send(job) ==> job == (Job::Patch {
            genome: s.ab_other.genome,
            note: s.ab_other.note,
            unison: s.unison,
            play: true,
        }),
{
}

/// A step back goes to the newest edit, and a step forward to the newest that was taken back;
/// the patch that was left can be stepped to again. Without one nothing happens.
pub proof fn law_steps_go_to_the_newest(s: App, t: App, u: App, a: Option<Action>, b: Option<Action>)
    requires
        App::was_undone(s, t, a),
        App::was_redone(s, u, b),
    ensures
        s.undo@.len() > 0 ==> t.slot() == s.undo@.last() && t.redo@.last() == s.slot() && t.undo@
            == s.undo@.drop_last() && a is Some,
        s.undo@.len() == 0 ==> t.slot() == s.slot() && t.redo@ == s.redo@ && a is None,
        s.redo@.len() > 0 ==> u.slot() == s.redo@.last() && u.undo@.last() == s.slot() && u.redo@
            == s.redo@.drop_last() && b is Some,
        s.redo@.len() == 0 ==> u.slot() == s.slot() && u.undo@ == s.undo@ && b is None,
        a matches Some(Action::Send(job)) ==> job == (Job::Patch {
            genome: t.genome,
            note: t.note,
            unison: s.unison,
            play: false,
        }),
        b matches Some(Action::Send(job)) ==> job == (Job::Patch {
            genome: u.genome,
            note: u.note,
            unison: s.unison,
            play: false,
        }),
{
}

/// Seedlings grow from the patch at its own note, or from an archetype at the note that
/// suits it, which the patch then has; how far they go and the frame are the app's.
pub proof fn law_seedlings_grow_as_asked_for(s: App, t: App, a: Action)
    requires
        s.inv(),
        App::growing(s, t, a),
    ensures
        s.grow_arch == 0 ==> t.note == s.note,
        s.grow_arch > 0 ==> t.note == HOME_NOTES@[s.grow_arch - 1],
        t.genome == s.genome,
        ({
            let job = Job::Grow {
                seed: s.genome,
                arch: s.grow_arch,
                note: t.note,
                amount: s.grow_amount,
                rng_seed: s.frame,
            };
            if s.shot {
                a == Action::Run(job) && t.busy == s.busy && t.status == s.status
            } else {
                a == Action::Send(job) && t.busy && t.status is Growing
            }
        }),
{
}

/// A seedling that is adopted is the patch: its genome at the note that was, the old patch can
/// be undone to, it is played, and the next generation grows from it and from no archetype.
pub proof fn law_adopted_seedlings_are_the_patch(s: App, t: App, i: int, r: (Action, Action))
    requires
        App::adopted(s, t, i, r),
        !s.shot,
    ensures
        t.genome == s.seedlings@[i].genome,
        t.note == s.note,
        t.preset_idx is None,
        t.grow_arch == 0,
        t.undo@.len() > 0 && t.undo@.last() == s.slot(),
        t.redo@.len() == 0,
        t.busy,
        r.0 is PlayKept || r.0 == Action::Send(
            Job::Patch {
                genome: s.seedlings@[i].genome,
                note: s.note,
                unison: s.unison,
                play: true,
            },
        ),
        r.1 == Action::Send(
            Job::Grow {
                seed: s.seedlings@[i].genome,
                arch: 0,
                note: s.note,
                amount: s.grow_amount,
                rng_seed: s.frame,
            },
        ),
{
}

/// A loop is rendered on the root that the key names, of the patch and the tempo, swing and
/// voices that are set: of the groove where one was imported and is picked, else of the
/// pattern. One that is saved goes to a file that is named after all of that and leaves the
/// loop that plays alone; one that is played is from then on the loop that plays. A key that
/// names no note is what the status says, and no loop is rendered.
pub proof fn law_loops_are_rendered_as_set(
    s: App,
    t: App,
    save: bool,
    looping: bool,
    whole_bpm: u32,
    a: Option<Action>,
)
    requires
        App::looped(s, t, save, looping, whole_bpm, a),
    ensures
        note_number(s.key@) is Err ==> a is None && t.busy == s.busy && (t.status matches Status::BadKey(
            k,
        ) && k@ == s.key@) && t.last_loop_sig == s.last_loop_sig,
        note_number(s.key@) matches Ok(root) ==> (a matches Some(Action::Send(job)) && t.busy && (
        job matches Job::Loop { genome, root: r, pattern_idx, bpm, swing, unison, groove, save: file } && {
            &&& genome == s.genome
            &&& r == root
            &&& pattern_idx == s.pattern_idx
            &&& bpm == s.bpm
            &&& swing == s.swing
            &&& unison == s.unison
            &&& groove is Some <==> s.use_groove && s.groove is Some
            &&& groove matches Some(p) ==> p.events@ == s.groove->0.events@ && p.tpb == s.groove->0.tpb
                && p.beats == s.groove->0.beats
            &&& file is Some <==> save
            &&& file matches Some(f) ==> f@ == "loop_"@ + (if s.use_groove && s.groove is Some {
                s.groove->0.name@
            } else {
                PATTERN_NAMES@[s.pattern_idx as int]@
            }) + "_"@ + nat_text(whole_bpm as nat) + "bpm_"@ + s.key@ + ".wav"@
        })),
        note_number(s.key@) is Ok && save ==> t.last_loop_sig == s.last_loop_sig && t.status
            == s.status,
        note_number(s.key@) is Ok && !save ==> (t.last_loop_sig matches Some(l) && {
            &&& l.genome == s.genome
            &&& Ok::<i32, NoteError>(l.root) == note_number(s.key@)
            &&& l.pattern_idx == s.pattern_idx
            &&& l.bpm == s.bpm
            &&& l.swing == s.swing
            &&& l.unison == s.unison
            &&& s.use_groove && s.groove is Some ==> l.groove == s.groove_gen
            &&& !(s.use_groove && s.groove is Some) ==> l.groove == 0
        }) && (looping ==> t.status == s.status) && (!looping ==> t.status is Rendering),
        t.genome == s.genome && t.note == s.note && t.undo == s.undo && t.redo == s.redo,
{
}

/// A loop that plays is stale as soon as one thing that it depends on is not what it was
/// rendered from: the root, the pattern, the tempo, the swing, the voices, the groove or any
/// value of the genome. It is not before that, nor where nothing loops, where a screenshot
/// is being taken or where the key names no note.
pub proof fn law_loops_are_stale_when_anything_changed(s: App, looping: bool)
    ensures
        !looping || s.shot || note_number(s.key@) is Err ==> !s.loop_is_stale(looping),
        looping && !s.shot && note_number(s.key@) is Ok && s.last_loop_sig is None ==> s.loop_is_stale(
            looping,
        ),
        looping && !s.shot && note_number(s.key@) is Ok ==> (s.last_loop_sig matches Some(l) ==> (
        !s.loop_is_stale(looping) <==> {
            &&& Ok::<i32, NoteError>(l.root) == note_number(s.key@)
            &&& l.pattern_idx == s.pattern_idx
            &&& l.bpm == s.bpm
            &&& l.swing == s.swing
            &&& l.unison == s.unison
            &&& l.groove == if s.use_groove && s.groove is Some {
                s.groove_gen
            } else {
                0
            }
            &&& forall|i: int| 0 <= i < 16 ==> same_value(#[trigger] l.genome@[i], s.genome@[i])
        })),
{
    if let Some(l) = s.last_loop_sig {
        if same_genome(l.genome, s.genome) {
            assert forall|i: int| 0 <= i < 16 implies same_value(
                #[trigger] l.genome@[i],
                s.genome@[i],
            ) by {}
        }
        if forall|i: int| 0 <= i < 16 ==> same_value(#[trigger] l.genome@[i], s.genome@[i]) {
            assert(same_genome(l.genome, s.genome));
        }
    }
}

/// A groove that is imported is the groove from then on, under a number of its own, so that
/// a loop of the one before it is stale; and it is picked and looped at once.
pub proof fn law_imported_grooves_play(
    s: App,
    t: App,
    g: Groove,
    looping: bool,
    a: Option<Action>,
)
    requires
        App::grooved(s, t, g, looping, a),
        s.groove_gen < u64::MAX,
    ensures
        t.groove == Some(g),
        t.use_groove,
        t.groove_gen == s.groove_gen + 1,
        t.genome == s.genome && t.note == s.note,
        note_number(s.key@) is Ok ==> (a matches Some(Action::Send(job)) && (job matches Job::Loop {
            groove,
            save: None,
            ..
        } && (groove matches Some(p) && p.events@ == g.events@ && p.tpb == g.tpb && p.beats == g.beats)))
            && (t.last_loop_sig matches Some(l) && l.groove == s.groove_gen + 1),
        note_number(s.key@) is Err ==> a is None,
{
    let m = choose|m: App| #[trigger] App::grooving(s, m, g) && App::looped(
        m,
        t,
        false,
        looping,
        0,
        a,
    );
    assert(m.key == s.key);
}

/// A patch is saved as it stands, under its name with its blanks and odd characters cleaned.
pub proof fn law_patches_are_saved_as_they_stand(s: App, t: App, a: Action)
    requires
        App::saving(s, t, a),
    ensures
        t.busy,
        t.genome == s.genome && t.note == s.note && t.patch_name == s.patch_name,
        a matches Action::Send(job) && (job matches Job::SavePatch { genome, note, unison, name }
            && genome == s.genome && note == s.note && unison == s.unison && name@ == saved_name(
            s.patch_name@,
        )),
{
}

/// What a result does. A patch's sound is kept with what it was rendered from, a loop's in
/// place of it; a seedling is heard once. Seedlings that were grown replace those that were
/// there. A patch that was dealt is the patch, at the note that was, and is played; where none
/// was the patch stays. A patch that was saved is the one that is picked. Nothing else touches
/// the patch, and only the worker's rest ends being busy.
pub proof fn law_results_are_taken_in(s: App, t: App, out: Out, h: Heard)
    requires
        App::applied(s, t, out, h),
    ensures
        out matches Out::Patch { play, cue, key } ==> t.rendered_key == Some(key) && t.cue == cue && (
        h matches Heard::Keep { play: p } && p == play),
        out is LoopReady ==> t.rendered_key is None && h is KeepLoop && t.status is Looping,
        out is Seedling ==> h is Once && t.status == s.status,
        out matches Out::Grown { seedlings, arch } ==> t.seedlings@ == seedlings@ && h is Nothing && (
        !s.adopting ==> (t.status matches Status::Grew { n, arch: b } && n == seedlings.len() && b
            == arch)),
        out matches Out::Lucky { genome: Some(g) } ==> t.genome == g && t.note == s.note
            && t.preset_idx is None && t.undo@.len() > 0 && t.undo@.last() == s.slot() && (
        h matches Heard::Do(a) && (a is PlayKept || a is Send || a is Run) && (
        a matches Action::Send(job) ==> job == (Job::Patch {
            genome: g,
            note: s.note,
            unison: s.unison,
            play: true,
        }))),
        out matches Out::Lucky { genome: None } ==> h is Nothing && t.status is AllDuds,
        out matches Out::SavedPatch { name: Some(n), msg } ==> t.user_sel == Some(n) && h is Relist
            && t.status == Status::Said(msg),
        out matches Out::SavedPatch { name: None, msg } ==> t.user_sel == s.user_sel && h is Nothing
            && t.status == Status::Said(msg),
        out matches Out::Status(msg) ==> t.status == Status::Said(msg) && h is Nothing,
        out is Idle ==> !t.busy && h is Nothing,
        !(out is Idle) && s.busy ==> t.busy,
        !(out matches Out::Lucky { genome: Some(g) }) ==> t.slot() == s.slot() && t.undo == s.undo
            && t.redo == s.redo,
        !(out is Patch || out is LoopReady) ==> t.rendered_key == s.rendered_key,
        !(out is Grown) ==> t.seedlings == s.seedlings,
{
}

/// What news of a match do: progress is shown, what was found is the patch at the note that
/// was heard and is played, and the old one can be undone to; where it failed the patch stays.
pub proof fn law_matches_end_in_a_patch(s: App, t: App, m: MatchMsg, a: Option<Action>)
    requires
        App::match_heard(s, t, m, a),
    ensures
        m matches MatchMsg::Progress { percent, best } ==> t.progress == percent && a is None && t.slot()
            == s.slot() && t.matching == s.matching && t.status == (Status::Matching { percent, best }),
        m matches MatchMsg::Done { genome, midi, before, after } ==> t.genome == genome && t.note == midi
            && !t.matching && t.preset_idx is None && t.undo@.len() > 0 && t.undo@.last() == s.slot()
            && a is Some && (a matches Some(Action::Send(job)) ==> job == (Job::Patch {
            genome,
            note: midi,
            unison: s.unison,
            play: true,
        })) && t.status == (Status::Cloned { midi, before, after }),
        m matches MatchMsg::Failed(e) ==> !t.matching && a is None && t.slot() == s.slot() && t.status
            == Status::MatchFailed(e),
{
}

/// What a key does: undo and redo step through the edits; play stops what plays or plays the
/// patch; two keys walk through the presets and two move the note by one; one deals a random
/// patch, one grows seedlings, one starts or stops the loop, one swaps the slots, one saves;
/// two open and close what lies over the app; and escape closes that, or else stops.
pub proof fn law_keys_do_what_they_are_for(
    s: App,
    t: App,
    key: Key,
    playing: bool,
    looping: bool,
    a: Option<Action>,
)
    requires
        s.inv(),
        App::pressed(s, t, key, playing, looping, a),
    ensures
        key is Undo && s.undo@.len() > 0 ==> t.slot() == s.undo@.last(),
        key is Redo && s.redo@.len() > 0 ==> t.slot() == s.redo@.last(),
        key is Play && playing ==> a == Some(Action::Stop) && t == s,
        key is Play && !playing ==> a is Some && !(a == Some(Action::Stop)) && t.slot() == s.slot() && (
        a matches Some(Action::Send(job)) ==> job.plays()),
        key is PresetOn ==> (t.preset_idx matches Some(i) && (s.preset_idx matches Some(j) ==> i == (j
            + 1) % 12)),
        key is PresetBack ==> (t.preset_idx matches Some(i) && (s.preset_idx matches Some(j) ==> (i
            + 1) % 12 == j)),
        key is NoteUp && 11 <= s.note < 96 ==> t.note == s.note + 1 && t.genome == s.genome,
        key is NoteDown && 12 < s.note <= 97 ==> t.note == s.note - 1 && t.genome == s.genome,
        key is Random ==> a == Some(
            Action::Send(Job::LuckyDip { note: s.note, rng_seed: s.frame }),
        ) && t.busy && t.slot() == s.slot(),
        key is Grow ==> (a matches Some(Action::Send(job)) ==> job is Grow) && (
        a matches Some(Action::Run(job)) ==> job is Grow) && a is Some,
        key is Loop && looping ==> a == Some(Action::Stop) && t == s,
        key is Loop && !looping && note_number(s.key@) is Ok ==> (a matches Some(Action::Send(job))
            && job is Loop && job.kind() is Some),
        key is Swap ==> t.slot() == s.ab_other && t.ab_other == s.slot(),
        key is Save ==> (a matches Some(Action::Send(job)) && job is SavePatch),
        key is Keys ==> a is None && t.show_keys == !s.show_keys && t.show_help == s.show_help
            && t.slot() == s.slot(),
        key is Help ==> a is None && t.show_help == !s.show_help && t.show_keys == s.show_keys
            && t.slot() == s.slot(),
        key is Escape && (s.show_help || s.show_keys) ==> a is None && !t.show_help && !t.show_keys,
        key is Escape && !s.show_help && !s.show_keys ==> a == Some(Action::Stop) && t == s,
        key is Escape ==> t.slot() == s.slot(),
{
}

} // verus!
