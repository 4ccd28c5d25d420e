//! Jobs for the render worker.
//!
//! Rapid requests (plant and slider drags) coalesce: the latest of a kind wins.
//! Values that the synth computes with are the bits of singles.

use crate::garden::{ARCHETYPE_NAMES, N_ARCHETYPES};
use crate::genome::Genome;
use crate::library::{patch_file, patch_file_name, sound_file, sound_file_name};
use crate::loops::{N_PATTERNS, PATTERN_NAMES};
use crate::midiio::Ev;
use std::collections::VecDeque;
use vstd::prelude::*;

verus! {

/// What a loop plays when it does not play a pattern: the notes of a groove,
/// `tpb` ticks to the beat, in a loop of `beats`.
#[derive(Debug)]
pub struct Phrase {
    pub events: Vec<Ev>,
    pub tpb: u16,
    pub beats: u32,
}

/// Work for the render worker.
#[derive(Debug)]
pub enum Job {
    Patch { genome: Genome<u32>, note: i32, unison: u32, play: bool },
    Loop {
        genome: Genome<u32>,
        root: i32,
        pattern_idx: usize,
        bpm: u32,
        swing: u32,
        unison: u32,
        groove: Option<Phrase>,
        /// The file to save the loop to; a loop without one is a preview.
        save: Option<String>,
    },
    Seedling { genome: Genome<u32>, note: i32, unison: u32 },
    /// `arch` is 0 to grow from `seed`, else one more than an archetype's row.
    Grow { seed: Genome<u32>, arch: usize, note: i32, amount: u32, rng_seed: u64 },
    LuckyDip { note: i32, rng_seed: u64 },
    SavePatch { genome: Genome<u32>, note: i32, unison: u32, name: String },
}

/// The kinds of preview.
#[derive(Clone, Copy, Debug, PartialEq, Eq, Structural)]
pub enum Preview {
    Patch,
    Loop,
    Seedling,
    Grow,
    LuckyDip,
}

impl Job {
    /// The kind of preview that the job is; none if it saves something.
    pub open spec fn kind(&self) -> Option<Preview> {
        match self {
            Job::Patch { .. } => Some(Preview::Patch),
            Job::Loop { save: None, .. } => Some(Preview::Loop),
            Job::Loop { save: Some(_), .. } => None,
            Job::Seedling { .. } => Some(Preview::Seedling),
            Job::Grow { .. } => Some(Preview::Grow),
            Job::LuckyDip { .. } => Some(Preview::LuckyDip),
            Job::SavePatch { .. } => None,
        }
    }

    /// The job asks for a patch to be played.
    pub open spec fn plays(&self) -> bool {
        self matches Job::Patch { play: true, .. }
    }

    /// The same job, but a patch is to be played.
    pub open spec fn played(self) -> Job {
        match self {
            Job::Patch { genome, note, unison, .. } => Job::Patch {
                genome,
                note,
                unison,
                play: true,
            },
            j => j,
        }
    }

    fn preview(&self) -> (r: Option<Preview>)
        ensures
            r == self.kind(),
    {
        match self {
            Job::Patch { .. } => Some(Preview::Patch),
            Job::Loop { save, .. } => match save {
                None => Some(Preview::Loop),
                Some(_) => None,
            },
            Job::Seedling { .. } => Some(Preview::Seedling),
            Job::Grow { .. } => Some(Preview::Grow),
            Job::LuckyDip { .. } => Some(Preview::LuckyDip),
            Job::SavePatch { .. } => None,
        }
    }
}

/// There is a preview of that kind among the jobs.
pub open spec fn has_kind(q: Seq<Job>, kind: Preview) -> bool {
    exists|i: int| 0 <= i < q.len() && (#[trigger] q[i]).kind() == Some(kind)
}

/// Some job asks for a patch to be played.
pub open spec fn wants_play(q: Seq<Job>) -> bool {
    exists|i: int| 0 <= i < q.len() && (#[trigger] q[i]).plays()
}

/// The job is a preview that a later one of the same kind replaces.
pub open spec fn superseded(j: Job, later: Seq<Job>) -> bool {
    j.kind() matches Some(kind) && has_kind(later, kind)
}

/// The jobs that no later one supersedes.
pub open spec fn current(q: Seq<Job>) -> Seq<Job>
    decreases q.len(),
{
    if q.len() == 0 {
        Seq::empty()
    } else {
        let later = q.drop_first();
        if superseded(q[0], later) {
            current(later)
        } else {
            seq![q[0]] + current(later)
        }
    }
}

/// The queue without superseded previews. A request to play survives: where any
/// patch was to be played, the patch that is left is.
pub open spec fn coalesced(q: Seq<Job>) -> Seq<Job> {
    if wants_play(q) {
        current(q).map_values(|j: Job| j.played())
    } else {
        current(q)
    }
}

/// Which kinds of preview have been met.
struct Seen {
    patch: bool,
    loop_: bool,
    seedling: bool,
    grow: bool,
    lucky: bool,
}

impl Seen {
    spec fn has(&self, kind: Preview) -> bool {
        match kind {
            Preview::Patch => self.patch,
            Preview::Loop => self.loop_,
            Preview::Seedling => self.seedling,
            Preview::Grow => self.grow,
            Preview::LuckyDip => self.lucky,
        }
    }

    /// Notes that a job of this kind was met, and tells whether it is the first.
    fn meet(&mut self, kind: Preview) -> (first: bool)
        ensures
            first == !old(self).has(kind),
            forall|k: Preview| final(self).has(k) == (old(self).has(k) || k == kind),
    {
        match kind {
            Preview::Patch => {
                let first: bool = !self.patch;
                self.patch = true;
                first
            },
            Preview::Loop => {
                let first: bool = !self.loop_;
                self.loop_ = true;
                first
            },
            Preview::Seedling => {
                let first: bool = !self.seedling;
                self.seedling = true;
                first
            },
            Preview::Grow => {
                let first: bool = !self.grow;
                self.grow = true;
                first
            },
            Preview::LuckyDip => {
                let first: bool = !self.lucky;
                self.lucky = true;
                first
            },
        }
    }
}

/// Drops superseded previews, so that only the newest of each kind is left. Saves
/// are never dropped, and a request to play survives.
pub fn coalesce(q: &mut VecDeque<Job>)
    ensures
        final(q)@ == coalesced(old(q)@),
{
    let ghost all = q@;
    let mut seen = Seen { patch: false, loop_: false, seedling: false, grow: false, lucky: false };
    let mut play_any: bool = false;
    let mut keep: Vec<Job> = Vec::new();
    // the newest first: the first of a kind that is met is the one to keep
    while q.len() > 0
        invariant
            q@.len() <= all.len(),
            q@ == all.take(q@.len() as int),
            keep@.reverse() == current(all.skip(q@.len() as int)),
            forall|k: Preview| #[trigger] seen.has(k) == has_kind(all.skip(q@.len() as int), k),
            play_any == wants_play(all.skip(q@.len() as int)),
        decreases q@.len(),
    {
        let ghost n = q@.len() as int;
        let ghost later = all.skip(n);
        let ghost now = all.skip(n - 1);
        let ghost seen0 = seen;
        let ghost keep0 = keep@;
        if let Some(j) = q.pop_back() {
            proof {
                assert(j == all[n - 1]);
                assert(now.drop_first() =~= later);
                assert(now[0] == j);
                lemma_more_kinds(now);
            }
            let plays: bool = match &j {
                Job::Patch { play, .. } => *play,
                _ => false,
            };
            play_any = play_any || plays;
            let fresh: bool = match j.preview() {
                Some(kind) => seen.meet(kind),
                None => true,
            };
            if fresh {
                keep.push(j);
                proof {
                    assert(keep@.reverse() =~= seq![j] + keep0.reverse());
                }
            }
            assert(q@ =~= all.take(n - 1));
        }
    }
    proof {
        assert(all.skip(0) =~= all);
    }
    let ghost kept = keep@.reverse();
    while keep.len() > 0
        invariant
            keep@.len() <= kept.len(),
            play_any == wants_play(all),
            kept == current(all),
            keep@ == kept.skip(q@.len() as int).reverse(),
            q@.len() + keep@.len() == kept.len(),
            q@ == (if play_any {
                kept.map_values(|j: Job| j.played())
            } else {
                kept
            }).take(q@.len() as int),
        decreases keep@.len(),
    {
        let ghost n = q@.len() as int;
        let ghost keep0 = keep@;
        if let Some(j) = keep.pop() {
            assert(j == kept[n]);
            let k: Job = if play_any {
                play(j)
            } else {
                j
            };
            q.push_back(k);
            assert(keep@ =~= kept.skip(n + 1).reverse());
            assert(q@ =~= (if play_any {
                kept.map_values(|j: Job| j.played())
            } else {
                kept
            }).take(n + 1));
        }
    }
    assert(q@ =~= coalesced(all));
}

fn play(j: Job) -> (r: Job)
    ensures
        r == j.played(),
{
    match j {
        Job::Patch { genome, note, unison, .. } => Job::Patch { genome, note, unison, play: true },
        j => j,
    }
}

/// The first of the jobs adds its kind, and its request to play, to those of the
/// rest.
proof fn lemma_more_kinds(q: Seq<Job>)
    requires
        q.len() > 0,
    ensures
        forall|k: Preview| #[trigger]
            has_kind(q, k) == (has_kind(q.drop_first(), k) || q[0].kind() == Some(k)),
        wants_play(q) == (wants_play(q.drop_first()) || q[0].plays()),
{
    let later = q.drop_first();
    assert forall|i: int| 0 <= i < later.len() implies #[trigger] later[i] == q[i + 1] by {}
    assert forall|k: Preview| #[trigger]
        has_kind(q, k) == (has_kind(later, k) || q[0].kind() == Some(k)) by {
        if has_kind(later, k) {
            let i = choose|i: int| 0 <= i < later.len() && (#[trigger] later[i]).kind() == Some(k);
            assert(q[i + 1].kind() == Some(k));
        }
        if has_kind(q, k) {
            let i = choose|i: int| 0 <= i < q.len() && (#[trigger] q[i]).kind() == Some(k);
            if i > 0 {
                assert(later[i - 1].kind() == Some(k));
            }
        }
    }
    if wants_play(later) {
        let i = choose|i: int| 0 <= i < later.len() && (#[trigger] later[i]).plays();
        assert(q[i + 1].plays());
    }
    if wants_play(q) {
        let i = choose|i: int| 0 <= i < q.len() && (#[trigger] q[i]).plays();
        if i > 0 {
            assert(later[i - 1].plays());
        }
    }
}

// ---- what coalescing keeps -----------------------------------------------------------------------

/// A job that saves something.
pub open spec fn is_save() -> spec_fn(Job) -> bool {
    |j: Job| j.kind() is None
}

proof fn lemma_current_kinds(q: Seq<Job>)
    ensures
        forall|k: Preview| #[trigger] has_kind(current(q), k) == has_kind(q, k),
        forall|i: int, j: int|
            0 <= i < j < current(q).len() && (#[trigger] current(q)[i]).kind() is Some
                ==> current(q)[i].kind() != (#[trigger] current(q)[j]).kind(),
        forall|i: int| 0 <= i < current(q).len() ==> q.contains(#[trigger] current(q)[i]),
        q.len() > 0 ==> current(q).len() > 0,
    decreases q.len(),
{
    if q.len() > 0 {
        let later = q.drop_first();
        let c = current(q);
        let d = current(later);
        lemma_current_kinds(later);
        lemma_more_kinds(q);
        assert forall|i: int| 0 <= i < d.len() implies q.contains(#[trigger] d[i]) by {
            let k = choose|k: int| 0 <= k < later.len() && later[k] == d[i];
            assert(q[k + 1] == d[i]);
        }
        if !superseded(q[0], later) {
            assert(c.drop_first() =~= d);
            assert(q.contains(q[0]));
            lemma_more_kinds(c);
            assert forall|i: int, j: int|
                0 <= i < j < c.len() && (#[trigger] c[i]).kind() is Some implies c[i].kind() != (
            #[trigger] c[j]).kind() by {
                if i > 0 {
                    assert(c[i] == d[i - 1] && c[j] == d[j - 1]);
                } else {
                    let kind = q[0].kind()->0;
                    assert(c[j] == d[j - 1]);
                    assert(!has_kind(d, kind));
                }
            }
            assert forall|i: int| 0 <= i < c.len() implies q.contains(#[trigger] c[i]) by {
                if i > 0 {
                    assert(c[i] == d[i - 1]);
                }
            }
        } else {
            let kind = q[0].kind()->0;
            assert(has_kind(later, kind));
        }
    }
}

/// Only the newest of each kind of preview is left: no two jobs of a coalesced
/// queue are of one kind, and no kind is lost.
pub proof fn law_one_of_each_kind(q: Seq<Job>)
    ensures
        forall|k: Preview| #[trigger] has_kind(coalesced(q), k) == has_kind(q, k),
        forall|i: int, j: int|
            0 <= i < j < coalesced(q).len() && (#[trigger] coalesced(q)[i]).kind() is Some
                ==> coalesced(q)[i].kind() != (#[trigger] coalesced(q)[j]).kind(),
        q.len() > 0 ==> coalesced(q).len() > 0,
{
    let c = current(q);
    let r = coalesced(q);
    lemma_current_kinds(q);
    assert forall|i: int| 0 <= i < r.len() implies (#[trigger] r[i]).kind() == c[i].kind() by {}
    assert forall|k: Preview| #[trigger] has_kind(r, k) == has_kind(q, k) by {
        if has_kind(r, k) {
            let i = choose|i: int| 0 <= i < r.len() && (#[trigger] r[i]).kind() == Some(k);
            assert(c[i].kind() == Some(k));
        }
        if has_kind(c, k) {
            let i = choose|i: int| 0 <= i < c.len() && (#[trigger] c[i]).kind() == Some(k);
            assert(r[i].kind() == Some(k));
        }
    }
}

/// The newest job is never dropped: it is the last of the coalesced queue (a patch
/// to be played, if any patch was).
pub proof fn law_newest_is_kept(q: Seq<Job>)
    requires
        q.len() > 0,
    ensures
        coalesced(q).len() > 0,
        coalesced(q).last() == if wants_play(q) {
            q.last().played()
        } else {
            q.last()
        },
{
    lemma_current_last(q);
}

proof fn lemma_current_last(q: Seq<Job>)
    requires
        q.len() > 0,
    ensures
        current(q).len() > 0,
        current(q).last() == q.last(),
    decreases q.len(),
{
    let later = q.drop_first();
    if later.len() > 0 {
        lemma_current_last(later);
    } else {
        assert(current(later) =~= Seq::empty());
        assert(!superseded(q[0], later));
    }
}

/// A later job does not change what an earlier one of another kind becomes: adding
/// a job drops the previews of its own kind, and no other.
pub proof fn law_adding_replaces_its_kind(q: Seq<Job>, j: Job)
    ensures
        current(q.push(j)) == current(q).filter(
            |x: Job| x.kind() is None || x.kind() != j.kind(),
        ).push(j),
    decreases q.len(),
{
    reveal(Seq::filter);
    let other = |x: Job| x.kind() is None || x.kind() != j.kind();
    let all = q.push(j);
    if q.len() == 0 {
        assert(all.drop_first() =~= Seq::<Job>::empty());
        assert(!superseded(all[0], all.drop_first()));
        assert(current(all.drop_first()) =~= Seq::<Job>::empty());
        assert(current(all) =~= seq![j]);
        assert(current(q).filter(other).push(j) =~= seq![j]);
    } else {
        let later = q.drop_first();
        assert(all.drop_first() =~= later.push(j));
        law_adding_replaces_its_kind(later, j);
        lemma_kinds_of_push(later, j);
        let d = current(later);
        if superseded(q[0], later) {
            assert(superseded(all[0], later.push(j)));
        } else {
            lemma_filter_first(q[0], d, other);
            if superseded(all[0], later.push(j)) {
                assert(!other(q[0]));
            } else {
                assert(other(q[0]));
                assert(seq![q[0]] + d.filter(other).push(j) =~= (seq![q[0]] + d.filter(other)).push(
                    j,
                ));
            }
        }
    }
}

proof fn lemma_kinds_of_push(q: Seq<Job>, j: Job)
    ensures
        forall|k: Preview| #[trigger]
            has_kind(q.push(j), k) == (has_kind(q, k) || j.kind() == Some(k)),
{
    let all = q.push(j);
    assert forall|k: Preview| #[trigger] has_kind(all, k) == (has_kind(q, k) || j.kind() == Some(k)) by {
        if has_kind(q, k) {
            let i = choose|i: int| 0 <= i < q.len() && (#[trigger] q[i]).kind() == Some(k);
            assert(all[i].kind() == Some(k));
        }
        if j.kind() == Some(k) {
            assert(all[q.len() as int].kind() == Some(k));
        }
        if has_kind(all, k) {
            let i = choose|i: int| 0 <= i < all.len() && (#[trigger] all[i]).kind() == Some(k);
            if i < q.len() {
                assert(q[i].kind() == Some(k));
            }
        }
    }
}

proof fn lemma_filter_first(j: Job, s: Seq<Job>, pred: spec_fn(Job) -> bool)
    ensures
        (seq![j] + s).filter(pred) == if pred(j) {
            seq![j] + s.filter(pred)
        } else {
            s.filter(pred)
        },
    decreases s.len(),
{
    reveal(Seq::filter);
    let all = seq![j] + s;
    if s.len() == 0 {
        assert(all.drop_last() =~= Seq::<Job>::empty());
        assert(all.drop_last().filter(pred) =~= Seq::<Job>::empty());
        assert(all.filter(pred) =~= if pred(j) {
            seq![j] + s.filter(pred)
        } else {
            s.filter(pred)
        });
    } else {
        assert(all.drop_last() =~= seq![j] + s.drop_last());
        lemma_filter_first(j, s.drop_last(), pred);
        if pred(j) {
            assert(all.filter(pred) =~= seq![j] + s.filter(pred));
        } else {
            assert(all.filter(pred) =~= s.filter(pred));
        }
    }
}

/// Saves are never dropped: they all stay, in their order and as they are.
pub proof fn law_saves_are_kept(q: Seq<Job>)
    ensures
        coalesced(q).filter(is_save()) == q.filter(is_save()),
{
    lemma_current_saves(q);
    lemma_played_saves(current(q));
}

proof fn lemma_current_saves(q: Seq<Job>)
    ensures
        current(q).filter(is_save()) == q.filter(is_save()),
    decreases q.len(),
{
    reveal(Seq::filter);
    if q.len() > 0 {
        let later = q.drop_first();
        lemma_current_saves(later);
        assert(q =~= seq![q[0]] + later);
        lemma_filter_first(q[0], later, is_save());
        lemma_filter_first(q[0], current(later), is_save());
    }
}

proof fn lemma_played_saves(q: Seq<Job>)
    ensures
        q.map_values(|j: Job| j.played()).filter(is_save()) == q.filter(is_save()),
    decreases q.len(),
{
    reveal(Seq::filter);
    let p = q.map_values(|j: Job| j.played());
    if q.len() > 0 {
        lemma_played_saves(q.drop_last());
        assert(p.drop_last() =~= q.drop_last().map_values(|j: Job| j.played()));
        assert(p.last() == q.last().played());
    }
}

/// A request to play survives coalescing, and none is made up.
pub proof fn law_play_survives(q: Seq<Job>)
    ensures
        wants_play(coalesced(q)) == wants_play(q),
{
    let c = current(q);
    let r = coalesced(q);
    lemma_current_kinds(q);
    if wants_play(q) {
        let i = choose|i: int| 0 <= i < q.len() && (#[trigger] q[i]).plays();
        assert(q[i].kind() == Some(Preview::Patch));
        assert(has_kind(q, Preview::Patch));
        assert(has_kind(c, Preview::Patch));
        let k = choose|k: int| 0 <= k < c.len() && (#[trigger] c[k]).kind() == Some(Preview::Patch);
        assert(r[k] == c[k].played());
        assert(r[k].plays());
    } else if wants_play(r) {
        let k = choose|k: int| 0 <= k < r.len() && (#[trigger] r[k]).plays();
        assert(q.contains(c[k]));
        let i = choose|i: int| 0 <= i < q.len() && q[i] == c[k];
        assert(q[i].plays());
    }
}

/// Coalescing a coalesced queue changes nothing.
pub proof fn law_coalescing_is_idempotent(q: Seq<Job>)
    ensures
        coalesced(coalesced(q)) == coalesced(q),
{
    let r = coalesced(q);
    law_one_of_each_kind(q);
    law_play_survives(q);
    lemma_current_of_distinct(r);
    if wants_play(q) {
        assert(r.map_values(|j: Job| j.played()) =~= r);
    }
}

proof fn lemma_current_of_distinct(q: Seq<Job>)
    requires
        forall|i: int, j: int|
            0 <= i < j < q.len() && (#[trigger] q[i]).kind() is Some ==> q[i].kind() != (
            #[trigger] q[j]).kind(),
    ensures
        current(q) == q,
    decreases q.len(),
{
    if q.len() > 0 {
        let later = q.drop_first();
        assert forall|i: int, j: int|
            0 <= i < j < later.len() && (#[trigger] later[i]).kind() is Some implies later[i].kind()
            != (#[trigger] later[j]).kind() by {
            assert(q[i + 1].kind() != q[j + 1].kind());
        }
        lemma_current_of_distinct(later);
        if superseded(q[0], later) {
            let kind = q[0].kind()->0;
            let i = choose|i: int| 0 <= i < later.len() && (#[trigger] later[i]).kind() == Some(kind);
            assert(q[0].kind() != q[i + 1].kind());
        }
        assert(current(q) =~= q);
    } else {
        assert(current(q) =~= q);
    }
}

// ---- the worker's queue ------------------------------------------------------------------------------

/// The queue of the render worker.
#[derive(Debug)]
pub struct Worker {
    queue: VecDeque<Job>,
}

impl View for Worker {
    type V = Seq<Job>;

    closed spec fn view(&self) -> Seq<Job> {
        self.queue@
    }
}

impl Worker {
    /// A worker with nothing to do.
    pub fn new() -> (r: Self)
        ensures
            r@ == Seq::<Job>::empty(),
    {
        Worker { queue: VecDeque::new() }
    }

    /// Whether there is nothing to do, so that the worker waits for a job or says
    /// that it is idle.
    pub fn is_idle(&self) -> (r: bool)
        ensures
            r == (self@.len() == 0),
    {
        self.queue.len() == 0
    }

    /// A job came in.
    pub fn take(&mut self, job: Job)
        ensures
            final(self)@ == old(self)@.push(job),
    {
        self.queue.push_back(job);
    }

    /// The job to do next: the first of the coalesced queue.
    pub fn next(&mut self) -> (job: Job)
        requires
            old(self)@.len() > 0,
        ensures
            coalesced(old(self)@).len() > 0,
            job == coalesced(old(self)@)[0],
            final(self)@ == coalesced(old(self)@).drop_first(),
    {
        coalesce(&mut self.queue);
        proof {
            law_one_of_each_kind(old(self)@);
        }
        self.queue.pop_front().unwrap()
    }
}

// ---- doing a job -------------------------------------------------------------------------------------

/// Seedlings of a generation.
pub const LITTER: usize = 8;

/// Patches of a lucky dip's pool.
pub const POOL: usize = 12;

/// Bars of a pattern's loop.
pub const LOOP_BARS: usize = 2;

/// What is done with a note that was rendered.
#[derive(Clone, Copy, Debug, PartialEq, Eq, Structural)]
pub enum Then {
    /// It is the current patch's sound, and perhaps is played.
    Keep { play: bool },
    /// It is a seedling's, and is played.
    Hear,
}

/// How a job is done.
#[derive(Debug)]
pub enum Plan {
    /// Render a note.
    Note { genome: Genome<u32>, note: i32, unison: u32, then: Then },
    /// Render a loop of a pattern; save it, or hand it over to be played.
    Pattern {
        genome: Genome<u32>,
        root: i32,
        pattern: &'static str,
        bars: usize,
        bpm: u32,
        swing: u32,
        unison: u32,
        save: Option<String>,
    },
    /// Render a loop of a groove; save it, or hand it over to be played.
    Groove {
        genome: Genome<u32>,
        root: i32,
        phrase: Phrase,
        bpm: u32,
        unison: u32,
        save: Option<String>,
    },
    /// Grow `n` seedlings, of a family or of `seed`.
    Grow {
        seed: Genome<u32>,
        family: Option<&'static str>,
        arch: usize,
        note: i32,
        n: usize,
        amount: u32,
        rng_seed: u64,
    },
    /// Deal a random patch.
    Dip { note: i32, pool: usize, rng_seed: u64 },
    /// Save a patch and its sound under these names.
    Save {
        genome: Genome<u32>,
        note: i32,
        unison: u32,
        name: String,
        patch_file: String,
        sound_file: String,
    },
}

impl Plan {
    /// What is rendered is a loop.
    pub open spec fn loops(&self) -> bool {
        self is Pattern || self is Groove
    }

    /// Whether what is rendered is a loop.
    pub fn is_loop(&self) -> (r: bool)
        ensures
            r == self.loops(),
    {
        match self {
            Plan::Pattern { .. } => true,
            Plan::Groove { .. } => true,
            _ => false,
        }
    }
}

/// The indices in a job stand for something.
pub open spec fn is_valid(job: Job) -> bool {
    match job {
        Job::Loop { pattern_idx, .. } => pattern_idx < N_PATTERNS,
        Job::Grow { arch, .. } => arch <= N_ARCHETYPES,
        _ => true,
    }
}

/// `p` is how `job` is done.
pub open spec fn is_plan(job: Job, p: Plan) -> bool {
    match job {
        Job::Patch { genome, note, unison, play } => p == (Plan::Note {
            genome,
            note,
            unison,
            then: Then::Keep { play },
        }),
        Job::Seedling { genome, note, unison } => p == (Plan::Note {
            genome,
            note,
            unison,
            then: Then::Hear,
        }),
        Job::Loop { genome, root, pattern_idx, bpm, swing, unison, groove, save } => match groove {
            Some(phrase) => p == (Plan::Groove { genome, root, phrase, bpm, unison, save }),
            None => p == (Plan::Pattern {
                genome,
                root,
                pattern: PATTERN_NAMES@[pattern_idx as int],
                bars: LOOP_BARS,
                bpm,
                swing,
                unison,
                save,
            }),
        },
        Job::Grow { seed, arch, note, amount, rng_seed } => p == (Plan::Grow {
            seed,
            family: if arch == 0 {
                None
            } else {
                Some(ARCHETYPE_NAMES@[arch - 1])
            },
            arch,
            note,
            n: LITTER,
            amount,
            rng_seed,
        }),
        Job::LuckyDip { note, rng_seed } => p == (Plan::Dip { note, pool: POOL, rng_seed }),
        Job::SavePatch { genome, note, unison, name } => {
            &&& p matches Plan::Save {
                genome: g,
                note: n,
                unison: u,
                name: s,
                patch_file: f,
                sound_file: w,
            }
            &&& (g, n, u, s) == (genome, note, unison, name)
            &&& f@ == patch_file_name(name@)
            &&& w@ == sound_file_name(name@)
        },
    }
}

/// How a job is done.
pub fn plan(job: Job) -> (p: Plan)
    requires
        is_valid(job),
    ensures
        is_plan(job, p),
{
    match job {
        Job::Patch { genome, note, unison, play } => Plan::Note {
            genome,
            note,
            unison,
            then: Then::Keep { play },
        },
        Job::Seedling { genome, note, unison } => Plan::Note {
            genome,
            note,
            unison,
            then: Then::Hear,
        },
        Job::Loop { genome, root, pattern_idx, bpm, swing, unison, groove, save } => match groove {
            Some(phrase) => Plan::Groove { genome, root, phrase, bpm, unison, save },
            None => Plan::Pattern {
                genome,
                root,
                pattern: PATTERN_NAMES[pattern_idx],
                bars: LOOP_BARS,
                bpm,
                swing,
                unison,
                save,
            },
        },
        Job::Grow { seed, arch, note, amount, rng_seed } => {
            let family: Option<&'static str> = if arch == 0 {
                None
            } else {
                Some(ARCHETYPE_NAMES[arch - 1])
            };
            Plan::Grow { seed, family, arch, note, n: LITTER, amount, rng_seed }
        },
        Job::LuckyDip { note, rng_seed } => Plan::Dip { note, pool: POOL, rng_seed },
        Job::SavePatch { genome, note, unison, name } => {
            let patch_file = patch_file(name.as_str());
            let sound_file = sound_file(name.as_str());
            Plan::Save { genome, note, unison, name, patch_file, sound_file }
        },
    }
}

/// A job is done as a loop exactly where it asks for one.
pub proof fn law_only_loops_are_looped(job: Job, p: Plan)
    requires
        is_plan(job, p),
    ensures
        p.loops() <==> job is Loop,
{
}

/// What can be done can still be done after coalescing.
pub proof fn law_coalescing_keeps_jobs_valid(q: Seq<Job>, i: int)
    requires
        forall|k: int| 0 <= k < q.len() ==> is_valid(#[trigger] q[k]),
        0 <= i < coalesced(q).len(),
    ensures
        is_valid(coalesced(q)[i]),
{
    lemma_current_kinds(q);
    let c = current(q)[i];
    assert(q.contains(c));
}

/// What a job saves is never a preview, and every other job is one: a patch with a name and a
/// loop with a file are saves, and previews are of one kind exactly where they ask for the
/// same thing.
pub proof fn law_saves_are_no_previews(a: Job, b: Job)
    ensures
        a.kind() is None <==> a is SavePatch || (a matches Job::Loop { save, .. } && save is Some),
        a.kind() is Some && b.kind() is Some ==> (a.kind() == b.kind() <==> {
            ||| a is Patch && b is Patch
            ||| a is Loop && b is Loop
            ||| a is Seedling && b is Seedling
            ||| a is Grow && b is Grow
            ||| a is LuckyDip && b is LuckyDip
        }),
{
}

/// Coalescing makes nothing up: every job that is left came in as it is, but that a patch is
/// to be played where any patch was.
pub proof fn law_no_job_is_made_up(q: Seq<Job>, i: int)
    requires
        0 <= i < coalesced(q).len(),
    ensures
        match coalesced(q)[i] {
            Job::Patch { genome, note, unison, play } => {
                &&& exists|k: int, p: bool|
                    0 <= k < q.len() && #[trigger] is_patch(q[k], genome, note, unison, p) && (p
                        ==> play)
                &&& play <==> exists|k: int|
                    0 <= k < q.len() && #[trigger] q[k] is Patch && q[k]->play
            },
            j => q.contains(j),
        },
{
    lemma_current_kinds(q);
    let c = current(q)[i];
    assert(q.contains(c));
    let k = choose|k: int| 0 <= k < q.len() && q[k] == c;
    assert(coalesced(q)[i] == if wants_play(q) {
        c.played()
    } else {
        c
    });
    match c {
        Job::Patch { genome, note, unison, play } => {
            assert(is_patch(q[k], genome, note, unison, play));
            let r = coalesced(q)[i];
            assert(r is Patch && r->Patch_genome == genome && r->Patch_note == note && r->Patch_unison
                == unison && (play ==> r->play));
            assert(r->play == wants_play(q));
            if wants_play(q) {
                let w = choose|w: int| 0 <= w < q.len() && (#[trigger] q[w]).plays();
                assert(q[w] is Patch && q[w]->play);
            } else {
                assert(!q[k].plays());
                assert forall|w: int| 0 <= w < q.len() implies !(#[trigger] q[w] is Patch
                    && q[w]->play) by {
                    assert(!q[w].plays());
                }
            }
        },
        _ => {
            assert(coalesced(q)[i] == c);
        },
    }
}

/// The job asks for this patch.
pub open spec fn is_patch(j: Job, genome: Genome<u32>, note: i32, unison: u32, play: bool) -> bool {
    j == (Job::Patch { genome, note, unison, play })
}

/// A preview is dropped exactly where a later job of its kind came in: of the previews of a
/// kind the last stays, and none that came before it.
pub proof fn law_the_last_of_a_kind_stays(q: Seq<Job>, i: int, k: int)
    requires
        0 <= i < q.len(),
        0 <= k < current(q).len(),
        q[i].kind() is Some,
        current(q)[k].kind() == q[i].kind(),
        forall|j: int| i < j < q.len() ==> (#[trigger] q[j]).kind() != q[i].kind(),
    ensures
        current(q)[k] == q[i],
    decreases q.len(),
{
    let later = q.drop_first();
    let kind = q[i].kind()->0;
    if i == 0 {
        if has_kind(later, kind) {
            let j = choose|j: int| 0 <= j < later.len() && (#[trigger] later[j]).kind() == Some(kind);
            assert(q[j + 1].kind() == Some(kind));
        }
        lemma_current_kinds(later);
        if k > 0 {
            assert(current(q)[k] == current(later)[k - 1]);
            assert(has_kind(current(later), kind));
        }
    } else {
        assert(later[i - 1] == q[i]);
        assert(has_kind(later, kind));
        assert forall|j: int| i - 1 < j < later.len() implies (#[trigger] later[j]).kind() != later[i
            - 1].kind() by {
            assert(q[j + 1].kind() != q[i].kind());
        }
        if superseded(q[0], later) {
            law_the_last_of_a_kind_stays(later, i - 1, k);
        } else {
            assert(k > 0);
            assert(current(q)[k] == current(later)[k - 1]);
            law_the_last_of_a_kind_stays(later, i - 1, k - 1);
        }
    }
}

/// A job is done with what it asked for: a note or a loop is rendered of its own genome, at
/// its own note, tempo, swing and voices; a loop of a groove plays the groove and one of a
/// pattern two bars of the pattern in the job's row; eight seedlings are grown, of the family
/// that the job names or else of its seed; a dip has pools of twelve; and a patch is saved
/// under its own name.
pub proof fn law_jobs_are_done_with_what_they_ask_for(job: Job, p: Plan)
    requires
        is_plan(job, p),
    ensures
        job matches Job::Patch { genome, note, unison, play } ==> (p matches Plan::Note {
            genome: g,
            note: n,
            unison: u,
            then,
        } && g == genome && n == note && u == unison && (then matches Then::Keep { play: q } && q
            == play)),
        job matches Job::Seedling { genome, note, unison } ==> (p matches Plan::Note {
            genome: g,
            note: n,
            unison: u,
            then,
        } && g == genome && n == note && u == unison && then is Hear),
        job matches Job::Loop { genome, root, pattern_idx, bpm, swing, unison, groove: None, save }
            ==> (p matches Plan::Pattern {
            genome: g,
            root: r,
            pattern,
            bars,
            bpm: b,
            swing: s,
            unison: u,
            save: f,
        } && g == genome && r == root && pattern == PATTERN_NAMES@[pattern_idx as int] && bars == 2 && b
            == bpm && s == swing && u == unison && f == save),
        job matches Job::Loop { genome, root, bpm, unison, groove: Some(phrase), save, .. } ==> (
        p matches Plan::Groove { genome: g, root: r, phrase: h, bpm: b, unison: u, save: f } && g
            == genome && r == root && h == phrase && b == bpm && u == unison && f == save),
        job matches Job::Grow { seed, arch, note, amount, rng_seed } ==> (p matches Plan::Grow {
            seed: s,
            family,
            arch: a,
            note: n,
            n: many,
            amount: x,
            rng_seed: z,
        } && s == seed && a == arch && n == note && many == 8 && x == amount && z == rng_seed && (arch
            == 0 ==> family is None) && (arch > 0 ==> family == Some(ARCHETYPE_NAMES@[arch - 1]))),
        job matches Job::LuckyDip { note, rng_seed } ==> (p matches Plan::Dip {
            note: n,
            pool,
            rng_seed: z,
        } && n == note && pool == 12 && z == rng_seed),
        job matches Job::SavePatch { genome, note, unison, name } ==> (p matches Plan::Save {
            genome: g,
            note: n,
            unison: u,
            name: s,
            patch_file: f,
            sound_file: w,
        } && g == genome && n == note && u == unison && s == name && f@ == name@ + ".genome.txt"@ && w@
            == name@ + ".wav"@),
{
}

} // verus!
