//! MIDI grooves: any clip of a standard MIDI file becomes a loop.
//!
//! The file's tempo map is ignored, and the groove's lowest note is mapped onto
//! the loop's key, so grooves transpose. Times stay in ticks: a beat is
//! `tpb` ticks.

use crate::order::{is_order, law_order_is_unique, lemma_order_exists, order_of, stable_order};
use crate::smf::{find_trap, law_cut_is_readable, readable, trap};
use midly::MidiMessage::{NoteOff, NoteOn};
use midly::TrackEventKind::Midi;
use midly::{Smf, Timing};
use std::collections::HashMap;
use vstd::prelude::*;
use vstd::slice::slice_subrange;

verus! {

/// Longest groove: 16 bars of 4/4.
pub const MAX_BEATS: u64 = 64;

/// Most notes that a groove plays.
pub const MAX_NOTES: usize = 256;

/// Longest track, in ticks: times are counted in 64 bits.
pub const MAX_TICKS: u64 = 0xffff_ffff_ffff_ffff;

/// What a track event says about notes.
#[derive(Clone, Copy, Debug)]
pub enum MidiKind {
    NoteOn { channel: u8, key: u8, vel: u8 },
    NoteOff { channel: u8, key: u8 },
    Other,
}

/// A track event, `delta` ticks after the one before it.
#[derive(Clone, Copy, Debug)]
pub struct MidiEvent {
    pub delta: u32,
    pub kind: MidiKind,
}

/// What a tick is: a part of a beat, or of a second.
#[derive(Clone, Copy, Debug)]
pub enum MidiTiming {
    /// Ticks per beat.
    Metrical(u16),
    Timecode,
}

/// The part of a standard MIDI file that a groove is made from.
#[derive(Debug)]
pub struct MidiFile {
    pub timing: MidiTiming,
    pub tracks: Vec<Vec<MidiEvent>>,
}

/// A MIDI file as a value.
pub struct MidiSong {
    pub timing: MidiTiming,
    pub tracks: Seq<Seq<MidiEvent>>,
}

impl View for MidiFile {
    type V = MidiSong;

    open spec fn view(&self) -> MidiSong {
        MidiSong {
            timing: self.timing,
            tracks: self.tracks@.map_values(|t: Vec<MidiEvent>| t@),
        }
    }
}

/// `midly`'s error.
#[verifier::external_type_specification]
#[verifier::external_body]
pub struct ExMidlyError(midly::Error);

/// The song in the bytes of a standard MIDI file, if they are one.
pub uninterp spec fn smf_song(bytes: Seq<u8>) -> Option<MidiSong>;

/// `midly::Smf::parse`. Claimed: whether the bytes are a standard MIDI file, and
/// what its header's timing and its tracks' events are, is settled by the bytes.
/// It negates the first byte of every timing that it comes to, which overflows where
/// that is the least number of its type, so such bytes are kept from it.
#[verifier::external_body]
fn parse_smf(bytes: &[u8]) -> (r: Result<MidiFile, midly::Error>)
    requires
        readable(bytes@),
    ensures
        match r {
            Ok(f) => smf_song(bytes@) == Some(f@),
            Err(_) => smf_song(bytes@) is None,
        },
{
    let smf = Smf::parse(bytes)?;
    Ok(MidiFile {
        timing: match smf.header.timing {
            Timing::Metrical(t) => MidiTiming::Metrical(t.as_int()),
            Timing::Timecode(..) => MidiTiming::Timecode,
        },
        tracks: smf.tracks.iter().map(|t| t.iter().map(|e| MidiEvent { delta: e.delta.as_int(), kind: match e.kind {
            Midi { channel, message: NoteOn { key, vel } } => MidiKind::NoteOn { channel: channel.as_int(), key: key.as_int(), vel: vel.as_int() },
            Midi { channel, message: NoteOff { key, .. } } => MidiKind::NoteOff { channel: channel.as_int(), key: key.as_int() },
            _ => MidiKind::Other,
        } }).collect()).collect(),
    })
}

// ---- from events to notes ----------------------------------------------------------------

/// A note: when it starts and how long it is held, in ticks.
#[derive(Clone, Copy, Debug)]
pub struct Note {
    pub start: u64,
    pub len: u64,
    pub key: u8,
    pub vel: u8,
}

/// Where the walk along a track stands: the time, the notes that are held
/// (with the time at which they were struck and their velocity), and the notes
/// that have ended.
pub struct Walk {
    pub tick: int,
    pub held: Map<(u8, u8), (int, u8)>,
    pub notes: Seq<Note>,
}

/// Ends the note of a key, if it is held.
pub open spec fn release(w: Walk, channel: u8, key: u8) -> Walk {
    if w.held.dom().contains((channel, key)) {
        let (start, vel) = w.held[(channel, key)];
        Walk {
            tick: w.tick,
            held: w.held.remove((channel, key)),
            notes: w.notes.push(
                Note { start: start as u64, len: (w.tick - start) as u64, key, vel },
            ),
        }
    } else {
        w
    }
}

/// One event further: a note that is struck is held, struck again it starts
/// anew; a note-off, or a note-on without velocity, ends it.
pub open spec fn walk_step(w: Walk, e: MidiEvent) -> Walk {
    let w = Walk { tick: w.tick + e.delta, held: w.held, notes: w.notes };
    match e.kind {
        MidiKind::NoteOn { channel, key, vel } => if vel > 0 {
            Walk { held: w.held.insert((channel, key), (w.tick, vel)), ..w }
        } else {
            release(w, channel, key)
        },
        MidiKind::NoteOff { channel, key } => release(w, channel, key),
        MidiKind::Other => w,
    }
}

/// The walk along a track.
pub open spec fn walk(track: Seq<MidiEvent>) -> Walk
    decreases track.len(),
{
    if track.len() == 0 {
        Walk { tick: 0, held: Map::empty(), notes: Seq::empty() }
    } else {
        walk_step(walk(track.drop_last()), track.last())
    }
}

/// The notes of all tracks, track by track, in the order in which they end.
pub open spec fn all_notes(tracks: Seq<Seq<MidiEvent>>) -> Seq<Note>
    decreases tracks.len(),
{
    if tracks.len() == 0 {
        Seq::empty()
    } else {
        all_notes(tracks.drop_last()) + walk(tracks.last()).notes
    }
}

/// Every track's times can be counted.
pub open spec fn ticks_fit(tracks: Seq<Seq<MidiEvent>>) -> bool {
    forall|i: int| 0 <= i < tracks.len() ==> walk(#[trigger] tracks[i]).tick <= MAX_TICKS
}

/// Where a key of a channel is kept.
spec fn slot(channel: u8, key: u8) -> u32 {
    (channel * 256 + key) as u32
}

/// `m` keeps the held notes `h`.
spec fn keeps(m: Map<u32, (u64, u8)>, h: Map<(u8, u8), (int, u8)>) -> bool {
    forall|c: u8, k: u8|
        {
            &&& #[trigger] m.dom().contains(slot(c, k)) == h.dom().contains((c, k))
            &&& m.dom().contains(slot(c, k)) ==> m[slot(c, k)].0 == h[(c, k)].0 && m[slot(c, k)].1
                == h[(c, k)].1
        }
}

proof fn lemma_tick_grows(track: Seq<MidiEvent>, i: int)
    requires
        0 <= i <= track.len(),
    ensures
        walk(track.take(i)).tick <= walk(track).tick,
    decreases track.len() - i,
{
    if i == track.len() {
        assert(track.take(i) =~= track);
    } else {
        assert(track.take(i + 1).drop_last() =~= track.take(i));
        lemma_tick_grows(track, i + 1);
    }
}

/// Notes that a walk has collected were struck and ended by its time.
proof fn lemma_notes_in_time(track: Seq<MidiEvent>)
    requires
        walk(track).tick <= MAX_TICKS,
    ensures
        0 <= walk(track).tick,
        forall|c: u8, k: u8| #[trigger]
            walk(track).held.dom().contains((c, k)) ==> 0 <= walk(track).held[(c, k)].0 <= walk(
                track,
            ).tick,
        forall|i: int|
            0 <= i < walk(track).notes.len() ==> (#[trigger] walk(track).notes[i]).start + walk(
                track,
            ).notes[i].len <= walk(track).tick,
    decreases track.len(),
{
    if track.len() > 0 {
        lemma_tick_grows(track, track.len() - 1);
        assert(track.take(track.len() - 1) =~= track.drop_last());
        lemma_notes_in_time(track.drop_last());
    }
}

/// Whether the times of a track can be counted.
fn track_fits(track: &Vec<MidiEvent>) -> (r: bool)
    ensures
        r == (walk(track@).tick <= MAX_TICKS),
{
    let mut tick: u64 = 0;
    let mut i: usize = 0;
    while i < track.len()
        invariant
            i <= track@.len(),
            tick == walk(track@.take(i as int)).tick,
        decreases track@.len() - i,
    {
        assert(track@.take(i + 1).drop_last() =~= track@.take(i as int));
        let delta: u64 = track[i].delta as u64;
        if delta > MAX_TICKS - tick {
            proof {
                lemma_tick_grows(track@, i + 1);
            }
            return false;
        }
        tick = tick + delta;
        i = i + 1;
    }
    assert(track@.take(track@.len() as int) =~= track@);
    true
}

/// Ends the note of a key, if it is held.
fn end_note(
    held: &mut HashMap<u32, (u64, u8)>,
    out: &mut Vec<Note>,
    tick: u64,
    channel: u8,
    key: u8,
    w: Ghost<Walk>,
)
    requires
        keeps(old(held)@, w@.held),
        w@.tick == tick,
        forall|c: u8, k: u8| #[trigger]
            w@.held.dom().contains((c, k)) ==> 0 <= w@.held[(c, k)].0 <= tick,
    ensures
        keeps(final(held)@, release(w@, channel, key).held),
        final(out)@ == old(out)@ + release(w@, channel, key).notes.skip(w@.notes.len() as int),
        release(w@, channel, key).notes.len() >= w@.notes.len(),
        release(w@, channel, key).notes.take(w@.notes.len() as int) == w@.notes,
{
    broadcast use vstd::std_specs::hash::group_hash_axioms;

    let at: u32 = channel as u32 * 256 + key as u32;
    let ghost w1 = release(w@, channel, key);
    assert(at == slot(channel, key));
    assert(held@.dom().contains(slot(channel, key)) == w@.held.dom().contains((channel, key)));
    match held.remove(&at) {
        Some((start, vel)) => {
            out.push(Note { start, len: tick - start, key, vel });
            assert(w1.notes.skip(w@.notes.len() as int) =~= seq![w1.notes.last()]);
            assert(w1.notes.take(w@.notes.len() as int) =~= w@.notes);
        },
        None => {
            assert(w1.notes.skip(w@.notes.len() as int) =~= Seq::<Note>::empty());
            assert(w1.notes.take(w@.notes.len() as int) =~= w@.notes);
        },
    }
    assert(keeps(held@, w1.held)) by {
        assert forall|c: u8, k: u8| #[trigger]
            held@.dom().contains(slot(c, k)) == w1.held.dom().contains((c, k)) && (
            held@.dom().contains(slot(c, k)) ==> held@[slot(c, k)].0 == w1.held[(c, k)].0
                && held@[slot(c, k)].1 == w1.held[(c, k)].1) by {
            assert(old(held)@.dom().contains(slot(c, k)) == w@.held.dom().contains((c, k)));
            if slot(c, k) == at {
                assert(c == channel && k == key);
            }
        }
    }
    assert(out@ =~= old(out)@ + w1.notes.skip(w@.notes.len() as int));
}

/// Appends the notes of a track.
fn track_notes(track: &Vec<MidiEvent>, out: &mut Vec<Note>)
    requires
        walk(track@).tick <= MAX_TICKS,
    ensures
        final(out)@ == old(out)@ + walk(track@).notes,
{
    broadcast use vstd::std_specs::hash::group_hash_axioms;

    let mut held: HashMap<u32, (u64, u8)> = HashMap::new();
    let mut tick: u64 = 0;
    let mut i: usize = 0;
    let ghost start = out@;
    assert(keeps(held@, walk(track@.take(0)).held));
    assert(out@ =~= start + walk(track@.take(0)).notes);
    while i < track.len()
        invariant
            i <= track@.len(),
            walk(track@).tick <= MAX_TICKS,
            tick == walk(track@.take(i as int)).tick,
            keeps(held@, walk(track@.take(i as int)).held),
            out@ == start + walk(track@.take(i as int)).notes,
        decreases track@.len() - i,
    {
        let ghost w = walk(track@.take(i as int));
        proof {
            assert(track@.take(i + 1).drop_last() =~= track@.take(i as int));
            lemma_tick_grows(track@, i as int);
            lemma_tick_grows(track@, i + 1);
            lemma_notes_in_time(track@.take(i as int));
        }
        let e: MidiEvent = track[i];
        tick = tick + e.delta as u64;
        let ghost w1 = Walk { tick: w.tick + e.delta, held: w.held, notes: w.notes };
        match e.kind {
            MidiKind::NoteOn { channel, key, vel } => {
                if vel > 0 {
                    let at: u32 = channel as u32 * 256 + key as u32;
                    let ghost h0 = held@;
                    held.insert(at, (tick, vel));
                    assert(keeps(held@, w1.held.insert((channel, key), (w1.tick, vel)))) by {
                        let h1 = w1.held.insert((channel, key), (w1.tick, vel));
                        assert forall|c: u8, k: u8| #[trigger]
                            held@.dom().contains(slot(c, k)) == h1.dom().contains((c, k)) && (
                            held@.dom().contains(slot(c, k)) ==> held@[slot(c, k)].0 == h1[(
                                c,
                                k,
                            )].0 && held@[slot(c, k)].1 == h1[(c, k)].1) by {
                            assert(h0.dom().contains(slot(c, k)) == w.held.dom().contains((c, k)));
                            if slot(c, k) == at {
                                assert(c == channel && k == key);
                            }
                        }
                    }
                } else {
                    end_note(&mut held, out, tick, channel, key, Ghost(w1));
                    let ghost w2 = release(w1, channel, key);
                    assert(w2.notes =~= w1.notes + w2.notes.skip(w1.notes.len() as int));
                    assert(out@ =~= start + w2.notes);
                }
            },
            MidiKind::NoteOff { channel, key } => {
                end_note(&mut held, out, tick, channel, key, Ghost(w1));
                let ghost w2 = release(w1, channel, key);
                assert(w2.notes =~= w1.notes + w2.notes.skip(w1.notes.len() as int));
                assert(out@ =~= start + w2.notes);
            },
            MidiKind::Other => {},
        }
        i = i + 1;
    }
    assert(track@.take(track@.len() as int) =~= track@);
}

/// The notes of all tracks.
fn collect_notes(tracks: &Vec<Vec<MidiEvent>>) -> (r: Vec<Note>)
    requires
        ticks_fit(tracks@.map_values(|t: Vec<MidiEvent>| t@)),
    ensures
        r@ == all_notes(tracks@.map_values(|t: Vec<MidiEvent>| t@)),
{
    let ghost ts = tracks@.map_values(|t: Vec<MidiEvent>| t@);
    let mut r: Vec<Note> = Vec::new();
    let mut i: usize = 0;
    assert(r@ =~= all_notes(ts.take(0)));
    while i < tracks.len()
        invariant
            i <= tracks@.len(),
            ts == tracks@.map_values(|t: Vec<MidiEvent>| t@),
            ticks_fit(ts),
            r@ == all_notes(ts.take(i as int)),
        decreases tracks@.len() - i,
    {
        assert(ts.take(i + 1).drop_last() =~= ts.take(i as int));
        assert(ts[i as int] == tracks@[i as int]@);
        track_notes(&tracks[i], &mut r);
        i = i + 1;
    }
    assert(ts.take(ts.len() as int) =~= ts);
    r
}

// ---- from notes to a groove --------------------------------------------------------------

/// One note of a groove: its onset in ticks, its length in sixteenths of a tick,
/// semitones above the loop's root, and the velocity it was struck with.
#[derive(Clone, Copy, Debug)]
pub struct Ev {
    pub tick: u64,
    pub len16: u128,
    pub semi: i32,
    pub vel: u8,
}

/// A groove: `tpb` ticks make a beat, and the loop is `beats` long.
#[derive(Debug)]
pub struct Groove {
    pub name: String,
    pub events: Vec<Ev>,
    pub tpb: u16,
    pub beats: u32,
}

/// Why a file is no groove.
#[derive(Clone, Copy, PartialEq, Eq, Structural, Debug)]
pub enum GrooveError {
    /// The bytes are not a standard MIDI file.
    NotMidi,
    /// The file is timed in seconds rather than in beats.
    Timecode,
    /// The file has no notes.
    NoNotes,
    /// The file has notes, but none that starts within the longest groove, or
    /// its times are out of range.
    Unplayable,
}

impl Groove {
    /// The loop's length in bars of four beats, rounded to the nearest (a half
    /// up), at least one.
    pub open spec fn bar_count(&self) -> int {
        if self.beats < 2 {
            1
        } else {
            (self.beats as int + 2) / 4
        }
    }

    pub fn bars(&self) -> (r: usize)
        ensures
            r == self.bar_count(),
    {
        if self.beats < 2 {
            1
        } else {
            ((self.beats as u64 + 2) / 4) as usize
        }
    }
}

/// The onsets of a list of notes.
pub open spec fn starts(notes: Seq<Note>) -> Seq<u64> {
    notes.map_values(|n: Note| n.start)
}

/// The notes by onset, notes that start together as they came.
pub open spec fn by_start(notes: Seq<Note>) -> Seq<Note> {
    order_of(starts(notes)).map_values(|i: usize| notes[i as int])
}

/// The note starts before the longest groove ends.
pub open spec fn starts_in_time(n: Note, tpb: u16) -> bool {
    n.start < MAX_BEATS * tpb
}

/// The notes that a groove plays: by onset, those that start in time, and at
/// most `MAX_NOTES` of them.
pub open spec fn kept_notes(notes: Seq<Note>, tpb: u16) -> Seq<Note> {
    let timely = by_start(notes).filter(|n: Note| starts_in_time(n, tpb));
    if timely.len() > MAX_NOTES {
        timely.take(MAX_NOTES as int)
    } else {
        timely
    }
}

/// The lowest key of a list of notes.
pub open spec fn lowest_key(notes: Seq<Note>) -> u8
    decreases notes.len(),
{
    if notes.len() <= 1 {
        notes[0].key
    } else {
        let low = lowest_key(notes.drop_last());
        if notes.last().key < low {
            notes.last().key
        } else {
            low
        }
    }
}

/// A note's length in sixteenths of a tick: as long as it is held, but at least
/// a sixteenth of a beat.
pub open spec fn note_len16(n: Note, tpb: u16) -> int {
    if 16 * n.len < tpb {
        tpb as int
    } else {
        16 * n.len
    }
}

/// When the last of a list of notes ends, in sixteenths of a tick.
pub open spec fn end16(notes: Seq<Note>, tpb: u16) -> int
    decreases notes.len(),
{
    if notes.len() == 0 {
        0
    } else {
        let e = end16(notes.drop_last(), tpb);
        let f = 16 * notes.last().start + note_len16(notes.last(), tpb);
        if f > e {
            f
        } else {
            e
        }
    }
}

/// The beats of a loop that ends at `end`: whole bars of four beats, one bar at
/// least and `MAX_BEATS` at most.
pub open spec fn loop_beats(end: int, tpb: u16) -> int {
    let bar = 64 * tpb;
    let bars = (end + bar - 1) / bar;
    if bars < 1 {
        4
    } else if bars > 16 {
        64
    } else {
        4 * bars
    }
}

/// A note as the groove plays it, `low` lying on the loop's root.
pub open spec fn event_of(n: Note, low: u8, tpb: u16) -> Ev {
    Ev {
        tick: n.start,
        len16: note_len16(n, tpb) as u128,
        semi: (n.key - low) as i32,
        vel: n.vel,
    }
}

/// `g` is the groove of a list of notes.
pub open spec fn is_groove(g: Groove, notes: Seq<Note>, tpb: u16) -> bool {
    let kept = kept_notes(notes, tpb);
    &&& g.tpb == tpb
    &&& g.events@ == kept.map_values(|n: Note| event_of(n, lowest_key(kept), tpb))
    &&& g.beats == loop_beats(end16(kept, tpb), tpb)
}

/// A groove that can be looped: its lowest note lies on the root; it is whole
/// bars long, from one to sixteen; it has at most `MAX_NOTES` notes, in the order
/// of their onsets, which all lie inside the loop; no note is shorter than a
/// sixteenth of a beat; and the loop is long enough for every note to end,
/// unless it is as long as loops get.
pub open spec fn is_loop(g: Groove) -> bool {
    let ev = g.events@;
    &&& 1 <= ev.len() <= MAX_NOTES
    &&& forall|i: int| 0 <= i < ev.len() ==> (#[trigger] ev[i]).semi >= 0
    &&& exists|i: int| 0 <= i < ev.len() && (#[trigger] ev[i]).semi == 0
    &&& 4 <= g.beats <= MAX_BEATS && g.beats % 4 == 0
    &&& forall|i: int, j: int|
        0 <= i <= j < ev.len() ==> (#[trigger] ev[i]).tick <= (#[trigger] ev[j]).tick
    &&& forall|i: int| 0 <= i < ev.len() ==> (#[trigger] ev[i]).tick < g.beats * g.tpb
    &&& forall|i: int| 0 <= i < ev.len() ==> (#[trigger] ev[i]).len16 >= g.tpb
    &&& g.beats < MAX_BEATS ==> forall|i: int|
        0 <= i < ev.len() ==> 16 * (#[trigger] ev[i]).tick + ev[i].len16 <= 16 * (g.beats * g.tpb)
}

/// A song that can be played as a groove, or that has no notes to play: its
/// times are in range, and some note starts in time.
pub open spec fn playable(song: MidiSong) -> bool {
    match song.timing {
        MidiTiming::Timecode => true,
        MidiTiming::Metrical(tpb) => {
            &&& ticks_fit(song.tracks)
            &&& all_notes(song.tracks).len() == 0 || exists|i: int|
                0 <= i < all_notes(song.tracks).len() && starts_in_time(
                    #[trigger] all_notes(song.tracks)[i],
                    tpb,
                )
        },
    }
}

/// Whether a file can be played as a groove.
pub fn is_playable(file: &MidiFile) -> (r: bool)
    ensures
        r == playable(file@),
{
    let tpb: u16 = match file.timing {
        MidiTiming::Timecode => {
            return true;
        },
        MidiTiming::Metrical(t) => t,
    };
    let ghost ts = file@.tracks;
    let mut i: usize = 0;
    while i < file.tracks.len()
        invariant
            i <= file.tracks@.len(),
            ts == file.tracks@.map_values(|t: Vec<MidiEvent>| t@),
            ts == file@.tracks,
            file.timing == MidiTiming::Metrical(tpb),
            forall|k: int| 0 <= k < i ==> walk(#[trigger] ts[k]).tick <= MAX_TICKS,
        decreases file.tracks@.len() - i,
    {
        assert(ts[i as int] == file.tracks@[i as int]@);
        if !track_fits(&file.tracks[i]) {
            assert(!ticks_fit(ts));
            return false;
        }
        i = i + 1;
    }
    let notes = collect_notes(&file.tracks);
    if notes.len() == 0 {
        return true;
    }
    let mut k: usize = 0;
    while k < notes.len()
        invariant
            k <= notes@.len(),
            notes@ == all_notes(ts),
            ts == file@.tracks,
            ticks_fit(ts),
            file.timing == MidiTiming::Metrical(tpb),
            forall|j: int| 0 <= j < k ==> !starts_in_time(#[trigger] notes@[j], tpb),
        decreases notes@.len() - k,
    {
        if notes[k].start < MAX_BEATS * tpb as u64 {
            assert(starts_in_time(all_notes(ts)[k as int], tpb));
            return true;
        }
        k = k + 1;
    }
    false
}

/// The notes that a groove plays.
fn keep_notes(notes: &Vec<Note>, tpb: u16) -> (r: Vec<Note>)
    ensures
        r@ == kept_notes(notes@, tpb),
{
    let mut keys: Vec<u64> = Vec::new();
    let mut i: usize = 0;
    while i < notes.len()
        invariant
            i <= notes@.len(),
            keys@ == starts(notes@).take(i as int),
        decreases notes@.len() - i,
    {
        keys.push(notes[i].start);
        assert(keys@ =~= starts(notes@).take(i + 1));
        i = i + 1;
    }
    assert(keys@ =~= starts(notes@));
    let order = stable_order(keys.as_slice());
    proof {
        law_order_is_unique(keys@, order@, order_of(keys@));
    }
    let ghost sorted = by_start(notes@);
    let ghost timely = |n: Note| starts_in_time(n, tpb);
    let mut r: Vec<Note> = Vec::new();
    let mut j: usize = 0;
    proof {
        reveal(Seq::filter);
    }
    assert(sorted.take(0) =~= Seq::<Note>::empty());
    assert(r@ =~= sorted.take(0).filter(timely));
    while j < order.len()
        invariant
            j <= order@.len(),
            is_order(keys@, order@),
            keys@.len() == notes@.len(),
            sorted == order@.map_values(|i: usize| notes@[i as int]),
            timely == (|n: Note| starts_in_time(n, tpb)),
            r@ == sorted.take(j as int).filter(timely),
        decreases order@.len() - j,
    {
        proof {
            reveal(Seq::filter);
            assert(order@.contains(order@[j as int]));
            assert(sorted.take(j + 1).drop_last() =~= sorted.take(j as int));
        }
        let n: Note = notes[order[j]];
        if n.start < MAX_BEATS * tpb as u64 {
            r.push(n);
        }
        j = j + 1;
    }
    assert(sorted.take(sorted.len() as int) =~= sorted);
    if r.len() > MAX_NOTES {
        let mut head: Vec<Note> = Vec::new();
        let mut k: usize = 0;
        while k < MAX_NOTES
            invariant
                k <= MAX_NOTES < r@.len(),
                head@ == r@.take(k as int),
            decreases MAX_NOTES - k,
        {
            head.push(r[k]);
            assert(head@ =~= r@.take(k + 1));
            k = k + 1;
        }
        return head;
    }
    r
}

proof fn lemma_filter_picks(s: Seq<Note>, pred: spec_fn(Note) -> bool, i: int)
    requires
        0 <= i < s.filter(pred).len(),
    ensures
        s.contains(s.filter(pred)[i]),
    decreases s.len(),
{
    reveal(Seq::filter);
    if s.len() > 0 {
        let front = s.drop_last();
        if i < front.filter(pred).len() {
            lemma_filter_picks(front, pred, i);
            let k = choose|k: int| 0 <= k < front.len() && front[k] == front.filter(pred)[i];
            assert(s[k] == s.filter(pred)[i]);
        } else {
            assert(s[s.len() - 1] == s.filter(pred)[i]);
        }
    }
}

/// The notes of `notes` that are kept start in time and are among `notes`; if
/// one of them starts in time, at least one is kept.
proof fn lemma_kept(notes: Seq<Note>, tpb: u16)
    requires
        notes.len() <= usize::MAX,
    ensures
        kept_notes(notes, tpb).len() <= MAX_NOTES,
        forall|i: int|
            0 <= i < kept_notes(notes, tpb).len() ==> {
                &&& notes.contains(#[trigger] kept_notes(notes, tpb)[i])
                &&& starts_in_time(kept_notes(notes, tpb)[i], tpb)
            },
        forall|i: int|
            0 <= i < notes.len() && starts_in_time(#[trigger] notes[i], tpb) ==> kept_notes(
                notes,
                tpb,
            ).len() > 0,
{
    let sorted = by_start(notes);
    let timely = |n: Note| starts_in_time(n, tpb);
    let f = sorted.filter(timely);
    let order = order_of(starts(notes));
    lemma_order_exists(starts(notes));
    assert forall|i: int| 0 <= i < f.len() implies notes.contains(#[trigger] f[i]) && starts_in_time(
        f[i],
        tpb,
    ) by {
        broadcast use vstd::seq_lib::group_filter_ensures;

        lemma_filter_picks(sorted, timely, i);
        let k = choose|k: int| 0 <= k < sorted.len() && sorted[k] == f[i];
        assert(order.contains(order[k]));
        assert(notes[order[k] as int] == f[i]);
    }
    assert forall|i: int| 0 <= i < notes.len() && starts_in_time(#[trigger] notes[i], tpb) implies f.len()
        > 0 by {
        broadcast use vstd::seq_lib::group_filter_ensures;

        assert(order.contains(i as usize));
        let k = choose|k: int| 0 <= k < order.len() && order[k] == i as usize;
        assert(sorted[k] == notes[i]);
        assert(f.contains(sorted[k]));
    }
}

/// The lowest key is one of the keys, and none is below it.
proof fn lemma_lowest_key(notes: Seq<Note>)
    requires
        notes.len() > 0,
    ensures
        forall|i: int| 0 <= i < notes.len() ==> lowest_key(notes) <= (#[trigger] notes[i]).key,
        exists|i: int| 0 <= i < notes.len() && (#[trigger] notes[i]).key == lowest_key(notes),
    decreases notes.len(),
{
    if notes.len() == 1 {
        assert(notes[0].key == lowest_key(notes));
    } else {
        let front = notes.drop_last();
        lemma_lowest_key(front);
        let k = choose|k: int| 0 <= k < front.len() && (#[trigger] front[k]).key == lowest_key(front);
        assert(notes[k].key == lowest_key(front));
        assert(notes[notes.len() - 1] == notes.last());
        assert forall|i: int| 0 <= i < notes.len() implies lowest_key(notes) <= (
        #[trigger] notes[i]).key by {
            if i < front.len() {
                assert(front[i] == notes[i]);
            }
        }
    }
}

/// No note ends after the end.
proof fn lemma_end16(notes: Seq<Note>, tpb: u16)
    ensures
        0 <= end16(notes, tpb),
        forall|i: int|
            0 <= i < notes.len() ==> 16 * (#[trigger] notes[i]).start + note_len16(notes[i], tpb)
                <= end16(notes, tpb),
    decreases notes.len(),
{
    if notes.len() > 0 {
        let front = notes.drop_last();
        lemma_end16(front, tpb);
        assert forall|i: int| 0 <= i < notes.len() implies 16 * (#[trigger] notes[i]).start
            + note_len16(notes[i], tpb) <= end16(notes, tpb) by {
            if i < front.len() {
                assert(front[i] == notes[i]);
            }
        }
    }
}

/// The length of a loop that ends at `end` sixteenths of a tick, in beats.
fn beats_of(end: u128, tpb: u16) -> (r: u32)
    requires
        tpb > 0,
        end <= 32 * (MAX_TICKS as u128),
    ensures
        r == loop_beats(end as int, tpb),
{
    let bar: u128 = 64 * tpb as u128;
    let bars: u128 = (end + bar - 1) / bar;
    if bars < 1 {
        4
    } else if bars > 16 {
        64
    } else {
        4 * bars as u32
    }
}

/// The groove of a list of notes.
fn assemble(notes: &Vec<Note>, tpb: u16, name: String) -> (g: Groove)
    requires
        exists|i: int| 0 <= i < notes@.len() && starts_in_time(#[trigger] notes@[i], tpb),
    ensures
        is_groove(g, notes@, tpb),
        g.name == name,
{
    let kept = keep_notes(notes, tpb);
    proof {
        assert(notes@.len() == notes.len());
        lemma_kept(notes@, tpb);
    }
    let mut low: u8 = kept[0].key;
    let mut end: u128 = 0;
    let mut i: usize = 0;
    while i < kept.len()
        invariant
            i <= kept@.len(),
            kept@.len() > 0,
            low == (if i == 0 {
                kept@[0].key
            } else {
                lowest_key(kept@.take(i as int))
            }),
            end == end16(kept@.take(i as int), tpb),
            end <= 32 * MAX_TICKS,
        decreases kept@.len() - i,
    {
        let n: Note = kept[i];
        assert(kept@.take(i + 1).drop_last() =~= kept@.take(i as int));
        if n.key < low {
            low = n.key;
        }
        let len16: u128 = if 16 * (n.len as u128) < tpb as u128 {
            tpb as u128
        } else {
            16 * (n.len as u128)
        };
        let last: u128 = 16 * n.start as u128 + len16;
        if last > end {
            end = last;
        }
        i = i + 1;
    }
    assert(kept@.take(kept@.len() as int) =~= kept@);
    proof {
        lemma_lowest_key(kept@);
    }
    let ghost f = |n: Note| event_of(n, lowest_key(kept@), tpb);
    let mut events: Vec<Ev> = Vec::new();
    let mut j: usize = 0;
    while j < kept.len()
        invariant
            j <= kept@.len(),
            low == lowest_key(kept@),
            f == (|n: Note| event_of(n, lowest_key(kept@), tpb)),
            events@ == kept@.map_values(f).take(j as int),
            forall|i: int| 0 <= i < kept@.len() ==> low <= (#[trigger] kept@[i]).key,
        decreases kept@.len() - j,
    {
        let n: Note = kept[j];
        let len16: u128 = if 16 * (n.len as u128) < tpb as u128 {
            tpb as u128
        } else {
            16 * (n.len as u128)
        };
        events.push(Ev { tick: n.start, len16, semi: n.key as i32 - low as i32, vel: n.vel });
        assert(events@ =~= kept@.map_values(f).take(j + 1));
        j = j + 1;
    }
    assert(events@ =~= kept@.map_values(f));
    Groove { name, events, tpb, beats: beats_of(end, tpb) }
}

/// The groove of a MIDI file, under the given name.
pub fn build_groove(file: &MidiFile, name: String) -> (r: Result<Groove, GrooveError>)
    requires
        playable(file@),
    ensures
        match file@.timing {
            MidiTiming::Timecode => r == Err::<Groove, GrooveError>(GrooveError::Timecode),
            MidiTiming::Metrical(tpb) => {
                let notes = all_notes(file@.tracks);
                if notes.len() == 0 {
                    r == Err::<Groove, GrooveError>(GrooveError::NoNotes)
                } else {
                    r matches Ok(g) && is_groove(g, notes, tpb) && is_loop(g) && g.name == name
                }
            },
        },
{
    let tpb: u16 = match file.timing {
        MidiTiming::Timecode => {
            return Err(GrooveError::Timecode);
        },
        MidiTiming::Metrical(t) => t,
    };
    let notes = collect_notes(&file.tracks);
    if notes.len() == 0 {
        return Err(GrooveError::NoNotes);
    }
    let g = assemble(&notes, tpb, name);
    proof {
        assert(notes@.len() == notes.len());
        law_groove(g, notes@, tpb);
    }
    Ok(g)
}

/// The song in the bytes of a file. A header whose timing cannot be read makes the
/// file none where it is the first; a later one ends it.
pub open spec fn song_in(bytes: Seq<u8>) -> Option<MidiSong> {
    match trap(bytes) {
        None => smf_song(bytes),
        Some((_, false)) => None,
        Some((at, true)) => smf_song(bytes.take(at)),
    }
}

/// What comes of the bytes of a MIDI file, under the given name.
pub open spec fn loads_groove(bytes: Seq<u8>, name: String, r: Result<Groove, GrooveError>) -> bool {
    match song_in(bytes) {
        None => r == Err::<Groove, GrooveError>(GrooveError::NotMidi),
        Some(song) => if !playable(song) {
            r == Err::<Groove, GrooveError>(GrooveError::Unplayable)
        } else {
            match song.timing {
                MidiTiming::Timecode => r == Err::<Groove, GrooveError>(GrooveError::Timecode),
                MidiTiming::Metrical(tpb) => {
                    let notes = all_notes(song.tracks);
                    if notes.len() == 0 {
                        r == Err::<Groove, GrooveError>(GrooveError::NoNotes)
                    } else {
                        r matches Ok(g) && is_groove(g, notes, tpb) && is_loop(g) && g.name == name
                    }
                },
            }
        },
    }
}

/// The song in the bytes of a file, as far as its headers can be read.
fn read_song(bytes: &[u8]) -> (r: Option<MidiFile>)
    ensures
        match r {
            Some(f) => song_in(bytes@) == Some(f@),
            None => song_in(bytes@) is None,
        },
{
    let part: &[u8] = match find_trap(bytes) {
        None => bytes,
        Some((at, begun)) => {
            if !begun {
                return None;
            }
            proof {
                law_cut_is_readable(bytes@);
            }
            let cut = slice_subrange(bytes, 0, at);
            assert(cut@ =~= bytes@.take(at as int));
            cut
        },
    };
    match parse_smf(part) {
        Ok(f) => Some(f),
        Err(_) => None,
    }
}

/// The groove in the bytes of a MIDI file, under the given name.
pub fn load_groove(bytes: &[u8], name: String) -> (r: Result<Groove, GrooveError>)
    ensures
        loads_groove(bytes@, name, r),
{
    match read_song(bytes) {
        None => Err(GrooveError::NotMidi),
        Some(file) => if is_playable(&file) {
            build_groove(&file, name)
        } else {
            Err(GrooveError::Unplayable)
        },
    }
}

// ---- what holds of every groove ------------------------------------------------------------

proof fn lemma_filter_sorted(s: Seq<Note>, pred: spec_fn(Note) -> bool)
    requires
        forall|i: int, j: int| 0 <= i <= j < s.len() ==> (#[trigger] s[i]).start <= (
        #[trigger] s[j]).start,
    ensures
        forall|i: int, j: int|
            0 <= i <= j < s.filter(pred).len() ==> (#[trigger] s.filter(pred)[i]).start <= (
            #[trigger] s.filter(pred)[j]).start,
    decreases s.len(),
{
    reveal(Seq::filter);
    if s.len() > 0 {
        let front = s.drop_last();
        assert forall|i: int, j: int| 0 <= i <= j < front.len() implies (#[trigger] front[i]).start
            <= (#[trigger] front[j]).start by {
            assert(s[i].start <= s[j].start);
        }
        lemma_filter_sorted(front, pred);
        let f = s.filter(pred);
        let g = front.filter(pred);
        assert forall|i: int, j: int| 0 <= i <= j < f.len() implies (#[trigger] f[i]).start <= (
        #[trigger] f[j]).start by {
            if j < g.len() {
                assert(f[i] == g[i] && f[j] == g[j]);
            } else if i < j {
                lemma_filter_picks(front, pred, i);
                let k = choose|k: int| 0 <= k < front.len() && front[k] == g[i];
                assert(s[k].start <= s[s.len() - 1].start);
            }
        }
    }
}

/// The groove of a list of notes of which one starts in time can be looped.
pub proof fn law_groove(g: Groove, notes: Seq<Note>, tpb: u16)
    requires
        is_groove(g, notes, tpb),
        notes.len() <= usize::MAX,
        exists|i: int| 0 <= i < notes.len() && starts_in_time(#[trigger] notes[i], tpb),
    ensures
        is_loop(g),
{
    let kept = kept_notes(notes, tpb);
    let low = lowest_key(kept);
    let ev = g.events@;
    lemma_kept(notes, tpb);
    lemma_lowest_key(kept);
    lemma_end16(kept, tpb);
    let end = end16(kept, tpb);
    assert forall|i: int| 0 <= i < kept.len() implies (#[trigger] kept[i]).start >= 0 && ev[i]
        == event_of(kept[i], low, tpb) && ev[i].len16 == note_len16(
        kept[i],
        tpb,
    ) && ev[i].semi == kept[i].key - low by {
        assert(notes.contains(kept[i]));
    }
    let k = choose|k: int| 0 <= k < kept.len() && (#[trigger] kept[k]).key == low;
    assert(ev[k].semi == 0);
    // by onset
    let sorted = by_start(notes);
    let order = order_of(starts(notes));
    lemma_order_exists(starts(notes));
    assert forall|i: int, j: int| 0 <= i <= j < sorted.len() implies (#[trigger] sorted[i]).start
        <= (#[trigger] sorted[j]).start by {
        assert(order.contains(order[i]) && order.contains(order[j]));
        if i < j {
            assert(crate::order::before(starts(notes), order[i], order[j]));
        }
    }
    let timely = |n: Note| starts_in_time(n, tpb);
    lemma_filter_sorted(sorted, timely);
    assert forall|i: int, j: int| 0 <= i <= j < ev.len() implies (#[trigger] ev[i]).tick <= (
    #[trigger] ev[j]).tick by {
        let f = sorted.filter(timely);
        assert(kept[i] == f[i] && kept[j] == f[j]);
    }
    // within the loop
    let bar = 64 * tpb;
    assert(tpb > 0);
    let bars = (end + bar - 1) / bar;
    assert(bars * bar >= end) by (nonlinear_arith)
        requires
            bars == (end + bar - 1) / bar,
            bar > 0,
    ;
    assert(end > 0);
    assert(bars >= 1) by (nonlinear_arith)
        requires
            bars * bar >= end,
            end > 0,
            bar > 0,
    ;
    let beats = g.beats as int;
    assert(beats < 64 ==> 16 * (beats * tpb) >= end) by {
        if beats < 64 {
            assert(beats == 4 * bars);
            assert(16 * (beats * tpb) == bars * bar) by (nonlinear_arith)
                requires
                    beats == 4 * bars,
                    bar == 64 * tpb,
            ;
        }
    }
    assert forall|i: int| 0 <= i < ev.len() implies (#[trigger] ev[i]).tick < beats * tpb by {
        assert(starts_in_time(kept[i], tpb));
        assert(16 * kept[i].start + note_len16(kept[i], tpb) <= end);
    }
    assert(beats < 64 ==> forall|i: int|
        0 <= i < ev.len() ==> 16 * (#[trigger] ev[i]).tick + ev[i].len16 <= 16 * (beats * tpb)) by {
        if beats < 64 {
            assert forall|i: int| 0 <= i < ev.len() implies 16 * (#[trigger] ev[i]).tick
                + ev[i].len16 <= 16 * (beats * tpb) by {
                assert(16 * kept[i].start + note_len16(kept[i], tpb) <= end);
            }
        }
    }
}

/// Every groove that is loaded can be looped.
pub proof fn law_loaded_grooves_loop(bytes: Seq<u8>, name: String, g: Groove)
    requires
        loads_groove(bytes, name, Ok(g)),
    ensures
        is_loop(g),
{
}

// ---- which notes there are -------------------------------------------------------------------

/// `t` is the time before each event of a track: none before the first, and every event is
/// as late as it says.
pub open spec fn are_times(track: Seq<MidiEvent>, t: Seq<int>) -> bool {
    &&& t.len() == track.len() + 1
    &&& t[0] == 0
    &&& forall|i: int| 0 <= i < track.len() ==> t[i + 1] == t[i] + (#[trigger] track[i]).delta
}

/// The event strikes the key of a channel with that velocity.
pub open spec fn strikes(e: MidiEvent, channel: u8, key: u8, vel: u8) -> bool {
    e.kind == (MidiKind::NoteOn { channel, key, vel }) && vel > 0
}

/// The event lets go of the key of a channel: it says so, or strikes it with no velocity.
pub open spec fn lets_go(e: MidiEvent, channel: u8, key: u8) -> bool {
    e.kind == (MidiKind::NoteOff { channel, key }) || e.kind == (MidiKind::NoteOn {
        channel,
        key,
        vel: 0,
    })
}

/// The event is about the key of a channel.
pub open spec fn is_about(e: MidiEvent, channel: u8, key: u8) -> bool {
    match e.kind {
        MidiKind::NoteOn { channel: c, key: k, .. } => c == channel && k == key,
        MidiKind::NoteOff { channel: c, key: k } => c == channel && k == key,
        MidiKind::Other => false,
    }
}

/// A key that is struck and then let go of, with nothing else about it between, is a note:
/// it starts when it was struck, it is as long as the key was held, and it has the key and
/// the velocity that it was struck with.
pub proof fn law_what_is_struck_and_let_go_is_a_note(
    track: Seq<MidiEvent>,
    t: Seq<int>,
    a: int,
    b: int,
    channel: u8,
    key: u8,
    vel: u8,
)
    requires
        are_times(track, t),
        t[track.len() as int] <= u64::MAX,
        0 <= a < b < track.len(),
        strikes(track[a], channel, key, vel),
        lets_go(track[b], channel, key),
        forall|i: int| a < i < b ==> !is_about(#[trigger] track[i], channel, key),
    ensures
        walk(track).tick == t[track.len() as int],
        walk(track).notes.contains(
            (Note { start: t[a + 1] as u64, len: (t[b + 1] - t[a + 1]) as u64, key, vel }),
        ),
{
    lemma_times(track, t, track.len() as int);
    assert(track.take(track.len() as int) =~= track);
    lemma_times(track, t, b);
    lemma_held_on(track, t, a, b, channel, key, vel);
    let n = lemma_let_go(track, b, channel, key);
    assert(t[b + 1] == t[b] + track[b].delta);
    assert(n == (Note { start: t[a + 1] as u64, len: (t[b + 1] - t[a + 1]) as u64, key, vel }));
}

/// A key that is held when it is let go of becomes a note, which stays.
proof fn lemma_let_go(track: Seq<MidiEvent>, b: int, channel: u8, key: u8) -> (n: Note)
    requires
        0 <= b < track.len(),
        lets_go(track[b], channel, key),
        walk(track.take(b)).held.dom().contains((channel, key)),
    ensures
        ({
            let w = walk(track.take(b));
            let (start, vel) = w.held[(channel, key)];
            n == (Note {
                start: start as u64,
                len: (w.tick + track[b].delta - start) as u64,
                key,
                vel,
            })
        }),
        walk(track).notes.contains(n),
{
    let w = walk(track.take(b));
    let (start, vel) = w.held[(channel, key)];
    let n = Note { start: start as u64, len: (w.tick + track[b].delta - start) as u64, key, vel };
    assert(track.take(b + 1).drop_last() =~= track.take(b));
    assert(track.take(b + 1).last() == track[b]);
    let v = walk(track.take(b + 1));
    assert(v.notes == w.notes.push(n));
    lemma_notes_stay(track, b + 1, track.len() as int);
    assert(v.notes[v.notes.len() - 1] == n);
    assert(walk(track).notes[v.notes.len() - 1] == n);
    n
}

proof fn lemma_times(track: Seq<MidiEvent>, t: Seq<int>, n: int)
    requires
        are_times(track, t),
        0 <= n <= track.len(),
    ensures
        walk(track.take(n)).tick == t[n],
    decreases n,
{
    if n > 0 {
        lemma_times(track, t, n - 1);
        assert(track.take(n).drop_last() =~= track.take(n - 1));
        assert(t[n - 1 + 1] == t[n - 1] + track[n - 1].delta);
    } else {
        assert(track.take(0) =~= Seq::<MidiEvent>::empty());
    }
}

proof fn lemma_held_on(
    track: Seq<MidiEvent>,
    t: Seq<int>,
    a: int,
    b: int,
    channel: u8,
    key: u8,
    vel: u8,
)
    requires
        are_times(track, t),
        0 <= a < b <= track.len(),
        strikes(track[a], channel, key, vel),
        forall|i: int| a < i < b ==> !is_about(#[trigger] track[i], channel, key),
    ensures
        walk(track.take(b)).held.dom().contains((channel, key)),
        walk(track.take(b)).held[(channel, key)] == (t[a + 1], vel),
    decreases b - a,
{
    assert(track.take(b).drop_last() =~= track.take(b - 1));
    if b == a + 1 {
        lemma_times(track, t, b);
    } else {
        lemma_held_on(track, t, a, b - 1, channel, key, vel);
        assert(!is_about(track[b - 1], channel, key));
    }
}

proof fn lemma_notes_stay(track: Seq<MidiEvent>, k: int, n: int)
    requires
        0 <= k <= n <= track.len(),
    ensures
        walk(track.take(k)).notes.len() <= walk(track.take(n)).notes.len(),
        forall|i: int|
            0 <= i < walk(track.take(k)).notes.len() ==> #[trigger] walk(track.take(n)).notes[i]
                == walk(track.take(k)).notes[i],
        n == track.len() ==> walk(track.take(n)) == walk(track),
    decreases n - k,
{
    if n == track.len() {
        assert(track.take(n) =~= track);
    }
    if k < n {
        lemma_notes_stay(track, k, n - 1);
        assert(track.take(n).drop_last() =~= track.take(n - 1));
    }
}

/// `n` is the note of a key of a channel that event `a` struck and event `b` let go of.
pub open spec fn is_note_of(
    track: Seq<MidiEvent>,
    t: Seq<int>,
    a: int,
    b: int,
    channel: u8,
    n: Note,
) -> bool {
    &&& 0 <= a < b < track.len()
    &&& strikes(track[a], channel, n.key, n.vel)
    &&& lets_go(track[b], channel, n.key)
    &&& forall|i: int| a < i < b ==> !is_about(#[trigger] track[i], channel, n.key)
    &&& n.start == t[a + 1]
    &&& n.len == t[b + 1] - t[a + 1]
}

/// Nothing else is a note: each was struck by one event and let go of by a later one, with
/// nothing else about its key between.
pub proof fn law_every_note_was_struck_and_let_go(track: Seq<MidiEvent>, t: Seq<int>, i: int)
    requires
        are_times(track, t),
        t[track.len() as int] <= u64::MAX,
        0 <= i < walk(track).notes.len(),
    ensures
        exists|a: int, b: int, c: u8| #[trigger] is_note_of(track, t, a, b, c, walk(track).notes[i]),
{
    assert(track.take(track.len() as int) =~= track);
    lemma_notes_were_struck(track, t, track.len() as int);
    assert(was_held(track, t, walk(track).notes[i]));
}

proof fn lemma_times_grow(track: Seq<MidiEvent>, t: Seq<int>, a: int, b: int)
    requires
        are_times(track, t),
        0 <= a <= b <= track.len(),
    ensures
        0 <= t[a] <= t[b],
    decreases b,
{
    if a < b {
        lemma_times_grow(track, t, a, b - 1);
        assert(t[b - 1 + 1] == t[b - 1] + track[b - 1].delta);
    } else if a > 0 {
        lemma_times_grow(track, t, a - 1, a - 1);
        assert(t[a - 1 + 1] == t[a - 1] + track[a - 1].delta);
    }
}

/// The note was struck by one event and let go of by a later one.
spec fn was_held(track: Seq<MidiEvent>, t: Seq<int>, n: Note) -> bool {
    exists|a: int, b: int, c: u8| #[trigger] is_note_of(track, t, a, b, c, n)
}

/// The key was struck by event `a`, and nothing before event `n` was about it since.
spec fn struck_by(track: Seq<MidiEvent>, t: Seq<int>, n: int, a: int, c: u8, k: u8, at: (int, u8)) -> bool {
    &&& 0 <= a < n
    &&& strikes(track[a], c, k, at.1)
    &&& at.0 == t[a + 1]
    &&& forall|i: int| a < i < n ==> !is_about(#[trigger] track[i], c, k)
}

#[verifier::rlimit(40)]
proof fn lemma_notes_were_struck(track: Seq<MidiEvent>, t: Seq<int>, n: int)
    requires
        are_times(track, t),
        t[track.len() as int] <= u64::MAX,
        0 <= n <= track.len(),
    ensures
        forall|c: u8, k: u8| #[trigger]
            walk(track.take(n)).held.dom().contains((c, k)) ==> exists|a: int| #[trigger]
                struck_by(track, t, n, a, c, k, walk(track.take(n)).held[(c, k)]),
        forall|i: int|
            0 <= i < walk(track.take(n)).notes.len() ==> was_held(
                track,
                t,
                #[trigger] walk(track.take(n)).notes[i],
            ),
    decreases n,
{
    if n == 0 {
        assert(track.take(0) =~= Seq::<MidiEvent>::empty());
    } else {
        lemma_notes_were_struck(track, t, n - 1);
        assert(track.take(n).drop_last() =~= track.take(n - 1));
        lemma_times(track, t, n);
        lemma_times(track, t, n - 1);
        assert(t[n - 1 + 1] == t[n - 1] + track[n - 1].delta);
        let w = walk(track.take(n - 1));
        let v = walk(track.take(n));
        let e = track[n - 1];
        assert forall|c: u8, k: u8| #[trigger] v.held.dom().contains((c, k)) implies exists|a: int| #[trigger]
            struck_by(track, t, n, a, c, k, v.held[(c, k)]) by {
            if is_about(e, c, k) {
                assert(struck_by(track, t, n, n - 1, c, k, v.held[(c, k)]));
            } else {
                assert(w.held.dom().contains((c, k)));
                let a = choose|a: int| #[trigger]
                    struck_by(track, t, n - 1, a, c, k, w.held[(c, k)]);
                assert(struck_by(track, t, n, a, c, k, v.held[(c, k)]));
            }
        }
        assert forall|i: int| 0 <= i < v.notes.len() implies was_held(
            track,
            t,
            #[trigger] v.notes[i],
        ) by {
            if i < w.notes.len() {
                assert(v.notes[i] == w.notes[i]);
            } else {
                let (c, k) = match e.kind {
                    MidiKind::NoteOn { channel, key, .. } => (channel, key),
                    MidiKind::NoteOff { channel, key } => (channel, key),
                    MidiKind::Other => (0u8, 0u8),
                };
                assert(w.held.dom().contains((c, k)));
                let a = choose|a: int| #[trigger]
                    struck_by(track, t, n - 1, a, c, k, w.held[(c, k)]);
                lemma_times_grow(track, t, a + 1, n);
                lemma_times_grow(track, t, n, track.len() as int);
                assert(lets_go(e, c, k));
                assert(is_note_of(track, t, a, n - 1, c, v.notes[i]));
            }
        }
    }
}

/// Every track counts: the notes of each are among those of the song, and come in the order
/// in which they ended, behind those of the tracks before it.
pub proof fn law_every_track_counts(tracks: Seq<Seq<MidiEvent>>, i: int, j: int)
    requires
        0 <= i < tracks.len(),
        0 <= j < walk(tracks[i]).notes.len(),
    ensures
        all_notes(tracks.take(i)).len() + j < all_notes(tracks).len(),
        all_notes(tracks)[all_notes(tracks.take(i)).len() + j] == walk(tracks[i]).notes[j],
        all_notes(tracks.take(i + 1)).len() == all_notes(tracks.take(i)).len() + walk(
            tracks[i],
        ).notes.len(),
    decreases tracks.len(),
{
    let front = tracks.drop_last();
    if i == tracks.len() - 1 {
        assert(tracks.take(i) =~= front);
        assert(tracks.take(i + 1) =~= tracks);
    } else {
        law_every_track_counts(front, i, j);
        assert(front.take(i) =~= tracks.take(i));
        assert(front.take(i + 1) =~= tracks.take(i + 1));
        assert(front[i] == tracks[i]);
    }
}

/// No note is lost without need: one that starts within the first 64 beats is kept, unless
/// 256 are that start no later.
pub proof fn law_no_note_is_lost_without_need(notes: Seq<Note>, tpb: u16, i: int)
    requires
        notes.len() <= usize::MAX,
        0 <= i < notes.len(),
        notes[i].start < 64 * tpb,
    ensures
        kept_notes(notes, tpb).contains(notes[i]) || (kept_notes(notes, tpb).len() == 256 && forall|
            k: int,
        |
            0 <= k < 256 ==> (#[trigger] kept_notes(notes, tpb)[k]).start <= notes[i].start),
{
    broadcast use vstd::seq_lib::group_filter_ensures;

    let sorted = by_start(notes);
    let timely = |n: Note| starts_in_time(n, tpb);
    let f = sorted.filter(timely);
    let order = order_of(starts(notes));
    lemma_order_exists(starts(notes));
    assert forall|a: int, b: int| 0 <= a <= b < sorted.len() implies (#[trigger] sorted[a]).start
        <= (#[trigger] sorted[b]).start by {
        assert(order.contains(order[a]) && order.contains(order[b]));
        if a < b {
            assert(crate::order::before(starts(notes), order[a], order[b]));
        }
    }
    lemma_filter_sorted(sorted, timely);
    assert(order.contains(i as usize));
    let p = choose|p: int| 0 <= p < order.len() && order[p] == i as usize;
    assert(sorted[p] == notes[i]);
    assert(f.contains(sorted[p]));
    let q = choose|q: int| 0 <= q < f.len() && f[q] == notes[i];
    let kept = kept_notes(notes, tpb);
    if q < 256 {
        assert(kept[q] == notes[i]);
    } else {
        assert forall|k: int| 0 <= k < 256 implies (#[trigger] kept[k]).start <= notes[i].start by {
            assert(kept[k] == f[k]);
            assert(f[k].start <= f[q].start);
        }
    }
}

/// A groove plays its notes as they are: each starts when it did and with the velocity it
/// was struck with, is as long as it was held but at least a sixteenth of a beat, and lies as
/// far above the root as its key lies above the lowest.
pub proof fn law_grooves_play_their_notes(g: Groove, notes: Seq<Note>, tpb: u16, i: int, low: u8)
    requires
        is_groove(g, notes, tpb),
        0 <= i < kept_notes(notes, tpb).len(),
        forall|k: int|
            0 <= k < kept_notes(notes, tpb).len() ==> low <= (#[trigger] kept_notes(
                notes,
                tpb,
            )[k]).key,
        exists|k: int|
            0 <= k < kept_notes(notes, tpb).len() && low == (#[trigger] kept_notes(
                notes,
                tpb,
            )[k]).key,
    ensures
        ({
            let n = kept_notes(notes, tpb)[i];
            let e = g.events@[i];
            &&& g.tpb == tpb
            &&& g.events@.len() == kept_notes(notes, tpb).len()
            &&& e.tick == n.start
            &&& e.vel == n.vel
            &&& e.semi == n.key - low
            &&& 16 * n.len >= tpb ==> e.len16 == 16 * n.len
            &&& 16 * n.len < tpb ==> e.len16 == tpb
        }),
{
    let kept = kept_notes(notes, tpb);
    lemma_lowest_key(kept);
    let k = choose|k: int| 0 <= k < kept.len() && low == (#[trigger] kept[k]).key;
    let j = choose|j: int| 0 <= j < kept.len() && (#[trigger] kept[j]).key == lowest_key(kept);
    assert(lowest_key(kept) <= kept[k].key && low <= kept[j].key);
    assert(kept[i].key >= low);
}

/// A loop is whole bars of four beats, from one to sixteen: no shorter than its notes need
/// unless it is as long as loops get, and no longer than they need unless it is one bar.
pub proof fn law_loops_are_as_long_as_needed(end: int, tpb: u16, beats: int)
    requires
        0 < tpb,
        0 <= end,
        beats == loop_beats(end, tpb),
    ensures
        4 <= beats <= 64,
        beats % 4 == 0,
        beats < 64 ==> end <= 16 * (beats * tpb),
        4 < beats ==> 16 * ((beats - 4) * tpb) < end,
{
    let bar = 64 * tpb as int;
    let bars = (end + bar - 1) / bar;
    assert(bars * bar >= end && (bars - 1) * bar < end && 0 <= bars) by (nonlinear_arith)
        requires
            bars == (end + bar - 1) / bar,
            bar > 0,
            end >= 0,
    ;
    if beats < 64 {
        if bars < 1 {
            assert(bars == 0);
            assert(end <= 0) by (nonlinear_arith)
                requires
                    bars * bar >= end,
                    bars == 0,
            ;
            assert(0 <= 16 * (4 * tpb as int)) by (nonlinear_arith)
                requires
                    tpb > 0,
            ;
        } else {
            assert(16 * (beats * tpb) == bars * bar) by (nonlinear_arith)
                requires
                    beats == 4 * bars,
                    bar == 64 * tpb as int,
            ;
        }
    }
    if 4 < beats {
        let b = beats / 4;
        assert(b <= bars);
        assert(16 * ((beats - 4) * tpb) == (b - 1) * bar) by (nonlinear_arith)
            requires
                beats == 4 * b,
                bar == 64 * tpb as int,
        ;
        assert((b - 1) * bar <= (bars - 1) * bar) by (nonlinear_arith)
            requires
                b <= bars,
                bar > 0,
        ;
    }
}

/// The end of a list of notes is where one of them ends, and none ends later.
pub proof fn law_the_end_is_where_the_last_note_ends(notes: Seq<Note>, tpb: u16, i: int)
    requires
        0 <= i < notes.len(),
    ensures
        16 * (notes[i].start + notes[i].len) <= end16(notes, tpb),
        16 * notes[i].start + tpb <= end16(notes, tpb),
        exists|k: int|
            0 <= k < notes.len() && (end16(notes, tpb) == 16 * ((#[trigger] notes[k]).start
                + notes[k].len) || end16(notes, tpb) == 16 * notes[k].start + tpb),
{
    lemma_end16(notes, tpb);
    lemma_end_is_reached(notes, tpb);
}

proof fn lemma_end_is_reached(notes: Seq<Note>, tpb: u16)
    requires
        0 < notes.len(),
    ensures
        exists|k: int|
            0 <= k < notes.len() && (end16(notes, tpb) == 16 * ((#[trigger] notes[k]).start
                + notes[k].len) || end16(notes, tpb) == 16 * notes[k].start + tpb),
    decreases notes.len(),
{
    let front = notes.drop_last();
    let last = notes.len() - 1;
    let f = 16 * notes[last].start + note_len16(notes[last], tpb);
    lemma_end16(front, tpb);
    if f > end16(front, tpb) || front.len() == 0 {
        assert(end16(notes, tpb) == f || end16(front, tpb) == 0);
        assert(notes[last] == notes.last());
    } else {
        lemma_end_is_reached(front, tpb);
        let k = choose|k: int|
            0 <= k < front.len() && (end16(front, tpb) == 16 * ((#[trigger] front[k]).start
                + front[k].len) || end16(front, tpb) == 16 * front[k].start + tpb);
        assert(notes[k] == front[k]);
    }
}

/// A loop's length in bars is the whole number nearest to a quarter of its beats, a half
/// counting up, and one at least.
pub proof fn law_bars_are_rounded(g: Groove)
    ensures
        g.bar_count() >= 1,
        g.beats >= 2 ==> g.beats - 2 < 4 * g.bar_count() <= g.beats + 2,
        g.beats < 2 ==> g.bar_count() == 1,
{
}

/// Notes are sorted by their onset, and those that start together stay as they came: no note
/// is gained or lost, and of two that follow each other the first starts earlier, or came
/// first.
pub proof fn law_notes_that_start_together_stay_as_they_came(notes: Seq<Note>) -> (o: Seq<usize>)
    requires
        notes.len() <= usize::MAX,
    ensures
        o.len() == notes.len(),
        by_start(notes).len() == notes.len(),
        o.no_duplicates(),
        forall|i: int| 0 <= i < o.len() ==> (#[trigger] o[i]) < notes.len(),
        forall|i: int| 0 <= i < o.len() ==> #[trigger] by_start(notes)[i] == notes[o[i] as int],
        forall|i: int, j: int|
            0 <= i < j < o.len() ==> notes[#[trigger] o[i] as int].start < notes[#[trigger] o[j]
                as int].start || (notes[o[i] as int].start == notes[o[j] as int].start && o[i] < o[j]),
{
    let keys = starts(notes);
    let o = order_of(keys);
    lemma_order_exists(keys);
    assert forall|i: int| 0 <= i < o.len() implies (#[trigger] o[i]) < notes.len() by {
        assert(o.contains(o[i]));
    }
    assert forall|i: int, j: int| 0 <= i < j < o.len() implies notes[#[trigger] o[i] as int].start
        < notes[#[trigger] o[j] as int].start || (notes[o[i] as int].start == notes[o[j] as int].start
        && o[i] < o[j]) by {
        assert(crate::order::before(keys, o[i], o[j]));
        assert(keys[o[i] as int] == notes[o[i] as int].start);
        assert(keys[o[j] as int] == notes[o[j] as int].start);
    }
    o
}

/// Bytes are no MIDI where no song can be read in them: where there is none, where the first
/// header cannot be read, and where there is none in what stands before a later one that
/// cannot.
pub proof fn law_bytes_without_a_song_are_no_midi(
    bytes: Seq<u8>,
    name: String,
    r: Result<Groove, GrooveError>,
)
    requires
        loads_groove(bytes, name, r),
        match trap(bytes) {
            None => smf_song(bytes) is None,
            Some(t) => !t.1 || smf_song(bytes.take(t.0)) is None,
        },
    ensures
        r == Err::<Groove, GrooveError>(GrooveError::NotMidi),
{
}

/// What comes of a song, which is that of all bytes, or of those before a later header that
/// cannot be read. One timed in frames is refused as that. One timed in beats is unplayable
/// where its times run out of range or all of its notes start too late, and has no notes where
/// there is none; every other one is a groove of its notes, under the name it was given.
pub proof fn law_songs_are_grooves_or_say_why_not(
    bytes: Seq<u8>,
    name: String,
    r: Result<Groove, GrooveError>,
    song: MidiSong,
)
    requires
        loads_groove(bytes, name, r),
        match trap(bytes) {
            None => smf_song(bytes) == Some(song),
            Some(t) => t.1 && smf_song(bytes.take(t.0)) == Some(song),
        },
    ensures
        song.timing is Timecode ==> r == Err::<Groove, GrooveError>(GrooveError::Timecode),
        song.timing matches MidiTiming::Metrical(tpb) ==> {
            let notes = all_notes(song.tracks);
            let fits = forall|i: int|
                0 <= i < song.tracks.len() ==> walk(#[trigger] song.tracks[i]).tick <= u64::MAX;
            &&& !fits ==> r == Err::<Groove, GrooveError>(GrooveError::Unplayable)
            &&& fits && notes.len() == 0 ==> r == Err::<Groove, GrooveError>(GrooveError::NoNotes)
            &&& notes.len() > 0 && (forall|i: int|
                0 <= i < notes.len() ==> (#[trigger] notes[i]).start >= 64 * tpb) ==> r == Err::<
                Groove,
                GrooveError,
            >(GrooveError::Unplayable)
            &&& fits && (exists|i: int|
                0 <= i < notes.len() && (#[trigger] notes[i]).start < 64 * tpb) ==> (r matches Ok(g)
                && is_groove(g, notes, tpb) && g.name == name)
        },
{
    if let MidiTiming::Metrical(tpb) = song.timing {
        let notes = all_notes(song.tracks);
        if forall|i: int|
            0 <= i < song.tracks.len() ==> walk(#[trigger] song.tracks[i]).tick <= u64::MAX {
            assert(ticks_fit(song.tracks));
        }
        if exists|i: int| 0 <= i < notes.len() && (#[trigger] notes[i]).start < 64 * tpb {
            let i = choose|i: int| 0 <= i < notes.len() && (#[trigger] notes[i]).start < 64 * tpb;
            assert(starts_in_time(notes[i], tpb));
        }
        if notes.len() > 0 && forall|i: int|
            0 <= i < notes.len() ==> (#[trigger] notes[i]).start >= 64 * tpb {
            assert forall|i: int| 0 <= i < notes.len() implies !starts_in_time(
                #[trigger] notes[i],
                tpb,
            ) by {}
        }
    }
}

} // verus!
