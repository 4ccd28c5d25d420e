use synfection::midiio::{
    build_groove, is_playable, load_groove, GrooveError, MidiEvent, MidiFile, MidiKind, MidiTiming,
};
use synfection::smf::{find_trap, is_readable};

/// Minimal SMF-0: F2 on beat 1 (one beat), F3 on beat 3 (half beat).
fn smf(timing: u16, t: &[u8]) -> Vec<u8> {
    let mut b = vec![];
    b.extend(b"MThd");
    b.extend(6u32.to_be_bytes());
    b.extend(0u16.to_be_bytes()); // format 0
    b.extend(1u16.to_be_bytes()); // one track
    b.extend(timing.to_be_bytes());
    b.extend(b"MTrk");
    b.extend((t.len() as u32).to_be_bytes());
    b.extend(t);
    b
}

fn test_track() -> Vec<u8> {
    let mut t: Vec<u8> = vec![];
    t.extend([0x00, 0x90, 41, 100]); // t=0       F2 on, vel 100
    t.extend([0x83, 0x60, 0x80, 41, 0]); // +480     F2 off (1 beat)
    t.extend([0x83, 0x60, 0x90, 53, 64]); // +480    F3 on at beat 2...
    t.extend([0x81, 0x70, 0x80, 53, 0]); // +240     F3 off (half beat)
    t.extend([0x00, 0xFF, 0x2F, 0x00]); // end of track
    t
}

#[test]
fn parses_groove() {
    let g = load_groove(&smf(480, &test_track()), "clip".to_string()).unwrap();
    let beat = |tick: u64| tick as f32 / g.tpb as f32;
    let dur = |len16: u128| len16 as f32 / 16.0 / g.tpb as f32;
    assert_eq!(g.events.len(), 2);
    assert_eq!(g.beats as f32, 4.0); // rounded up to a whole bar
    assert_eq!(g.bars(), 1);
    // first note: lowest -> semi 0, one beat long, at beat 0
    assert_eq!(g.events[0].semi, 0);
    assert!((beat(g.events[0].tick) - 0.0).abs() < 1e-4);
    assert!((dur(g.events[0].len16) - 1.0).abs() < 1e-4);
    // second note: an octave up, at beat 2, half a beat
    assert_eq!(g.events[1].semi, 12);
    assert!((beat(g.events[1].tick) - 2.0).abs() < 1e-4);
    assert!((dur(g.events[1].len16) - 0.5).abs() < 1e-4);
    // velocity maps into the pattern gain range
    assert!(g.events[0].vel > g.events[1].vel);
    assert_eq!(g.name, "clip");
}

#[test]
fn files_that_are_no_groove() {
    let name = || "x".to_string();
    assert!(matches!(load_groove(b"not midi", name()), Err(GrooveError::NotMidi)));
    assert!(matches!(load_groove(&[], name()), Err(GrooveError::NotMidi)));
    // 25 frames a second, 40 subframes
    assert!(matches!(load_groove(&smf(0xE728, &test_track()), name()), Err(GrooveError::Timecode)));
    let empty = smf(480, &[0x00, 0xFF, 0x2F, 0x00]);
    assert!(matches!(load_groove(&empty, name()), Err(GrooveError::NoNotes)));
    // the only note starts on beat 64: 64 * 480 ticks
    let late = smf(
        480,
        &[0x81, 0xF0, 0x00, 0x90, 41, 100, 0x10, 0x80, 41, 0, 0x00, 0xFF, 0x2F, 0x00],
    );
    assert!(matches!(load_groove(&late, name()), Err(GrooveError::Unplayable)));
}

fn on(delta: u32, key: u8, vel: u8) -> MidiEvent {
    MidiEvent { delta, kind: MidiKind::NoteOn { channel: 0, key, vel } }
}

fn off(delta: u32, key: u8) -> MidiEvent {
    MidiEvent { delta, kind: MidiKind::NoteOff { channel: 0, key } }
}

fn file(tracks: Vec<Vec<MidiEvent>>) -> MidiFile {
    MidiFile { timing: MidiTiming::Metrical(96), tracks }
}

#[test]
fn notes_of_all_tracks_in_order() {
    let f = file(vec![
        vec![on(96, 60, 90), off(48, 60)],
        vec![on(0, 48, 80), on(24, 48, 0), MidiEvent { delta: 5, kind: MidiKind::Other }, off(1, 48)],
    ]);
    assert!(is_playable(&f));
    let g = build_groove(&f, "two".to_string()).unwrap();
    assert_eq!(g.events.len(), 2);
    assert_eq!((g.events[0].tick, g.events[0].len16, g.events[0].semi), (0, 24 * 16, 0));
    assert_eq!((g.events[1].tick, g.events[1].len16, g.events[1].semi), (96, 48 * 16, 12));
    assert_eq!((g.tpb, g.beats), (96, 4));
}

#[test]
fn short_notes_last_a_sixteenth_of_a_beat() {
    let f = file(vec![vec![on(0, 60, 90), off(1, 60)]]);
    let g = build_groove(&f, String::new()).unwrap();
    assert_eq!(g.events[0].len16, 96);
}

#[test]
fn grooves_are_whole_bars() {
    // four beats and a tick
    let f = file(vec![vec![on(0, 60, 90), off(4 * 96 + 1, 60)]]);
    assert_eq!(build_groove(&f, String::new()).unwrap().beats, 8);
    assert_eq!(build_groove(&f, String::new()).unwrap().bars(), 2);
    // as long as grooves get
    let f = file(vec![vec![on(63 * 96, 60, 90), off(100 * 96, 60)]]);
    assert_eq!(build_groove(&f, String::new()).unwrap().beats, 64);
    assert_eq!(build_groove(&f, String::new()).unwrap().bars(), 16);
}

#[test]
fn notes_are_held_as_long_as_tracks_are() {
    let events = vec![on(0, 60, 90), on(u32::MAX, 61, 90), off(u32::MAX, 60), off(u32::MAX, 61)];
    let g = build_groove(&file(vec![events]), String::new()).unwrap();
    assert_eq!(g.events.len(), 1);
    assert_eq!(g.events[0].len16, 16 * 2 * u32::MAX as u128);
    assert_eq!(g.beats, 64);
}

#[test]
fn grooves_have_a_limit_of_notes() {
    let mut t = vec![];
    for _ in 0..300 {
        t.push(on(1, 60, 90));
        t.push(off(1, 60));
    }
    let g = build_groove(&file(vec![t]), String::new()).unwrap();
    assert_eq!(g.events.len(), 256);
    assert_eq!(g.events[255].tick, 511);
}

#[test]
fn a_key_struck_again_starts_anew() {
    let f = file(vec![vec![on(0, 60, 90), on(10, 60, 70), off(10, 60), off(10, 60)]]);
    let g = build_groove(&f, String::new()).unwrap();
    assert_eq!(g.events.len(), 1);
    assert_eq!((g.events[0].tick, g.events[0].vel), (10, 70));
}

#[test]
fn unplayable_files() {
    let zero = MidiFile { timing: MidiTiming::Metrical(0), tracks: vec![vec![on(0, 60, 90), off(1, 60)]] };
    assert!(!is_playable(&zero));
}

fn header(format: u16, timing: [u8; 2]) -> Vec<u8> {
    let mut b = b"MThd".to_vec();
    b.extend(6u32.to_be_bytes());
    b.extend(format.to_be_bytes());
    b.extend(1u16.to_be_bytes());
    b.extend(timing);
    b
}

fn track(t: &[u8]) -> Vec<u8> {
    let mut b = b"MTrk".to_vec();
    b.extend((t.len() as u32).to_be_bytes());
    b.extend(t);
    b
}

fn rmid(chunks: &[(&[u8; 4], Vec<u8>)]) -> Vec<u8> {
    let mut body = b"RMID".to_vec();
    for (id, data) in chunks {
        body.extend(*id);
        body.extend((data.len() as u32).to_le_bytes());
        body.extend(data);
        if data.len() % 2 == 1 {
            body.push(0);
        }
    }
    let mut b = b"RIFF".to_vec();
    b.extend((body.len() as u32).to_le_bytes());
    b.extend(body);
    b
}

const TRAP: [u8; 2] = [0x80, 0x28];

const TICKS: [u8; 2] = [0x01, 0xE0];

#[test]
fn a_first_header_that_cannot_be_read_is_no_midi() {
    let name = || "x".to_string();
    let bare = header(0, TRAP);
    assert_eq!(find_trap(&bare), Some((0, false)));
    assert!(!is_readable(&bare));
    assert!(matches!(load_groove(&bare, name()), Err(GrooveError::NotMidi)));
    let whole = [header(0, TRAP), track(&test_track())].concat();
    assert!(matches!(load_groove(&whole, name()), Err(GrooveError::NotMidi)));
    // inside a RIFF file, behind chunks that do not count
    let junk = [b"junk".to_vec(), vec![0, 0, 0, 3, 1, 2, 3]].concat();
    let riff = rmid(&[(b"info", vec![1, 2, 3]), (b"data", [junk, whole].concat())]);
    assert_eq!(find_trap(&riff), Some((12 + 8 + 4 + 8 + 11, false)));
    assert!(matches!(load_groove(&riff, name()), Err(GrooveError::NotMidi)));
}

#[test]
fn a_later_header_that_cannot_be_read_ends_the_file() {
    let name = || "x".to_string();
    let more = [0x00, 0x90, 30, 90, 0x60, 0x80, 30, 0];
    let sound = [header(0, TICKS), track(&test_track())].concat();
    let cut = [sound.clone(), header(0, TRAP), track(&more)].concat();
    assert_eq!(find_trap(&cut), Some((sound.len(), true)));
    let g = load_groove(&cut, name()).unwrap();
    assert_eq!(g.events.len(), 2);
    assert_eq!((g.events[0].semi, g.events[1].semi), (0, 12));
    // a later header that can be read is passed over
    let whole = [sound.clone(), header(0, TICKS), track(&more)].concat();
    assert!(is_readable(&whole));
    assert_eq!(load_groove(&whole, name()).unwrap().events.len(), 3);
    // inside a RIFF file
    let riff = rmid(&[(b"data", cut)]);
    assert_eq!(find_trap(&riff), Some((20 + sound.len(), true)));
    assert_eq!(load_groove(&riff, name()).unwrap().events.len(), 2);
}

#[test]
fn headers_that_no_reader_comes_to_do_not_count() {
    let name = || "x".to_string();
    let sound = [header(0, TICKS), track(&test_track())].concat();
    // behind a header of no known format, or a chunk that is cut off
    let broken = [sound.clone(), header(3, TICKS), header(0, TRAP)].concat();
    assert!(is_readable(&broken));
    assert_eq!(load_groove(&broken, name()).unwrap().events.len(), 2);
    let stub = [sound.clone(), b"MThd".to_vec()].concat();
    assert!(is_readable(&stub));
    assert_eq!(load_groove(&stub, name()).unwrap().events.len(), 2);
    // too short to have a timing, of no format, or inside a track
    let short = [sound.clone(), b"MThd\0\0\0\x05\0\0\0\x01\x80".to_vec()].concat();
    assert!(is_readable(&short));
    assert!(load_groove(&short, name()).is_ok());
    assert!(is_readable(&header(7, TRAP)));
    assert!(matches!(load_groove(&header(7, TRAP), name()), Err(GrooveError::NotMidi)));
    let inside = [header(0, TICKS), track(&header(0, TRAP))].concat();
    assert!(is_readable(&inside));
    assert!(matches!(load_groove(&inside, name()), Err(GrooveError::NoNotes)));
    // a track before any header ends it all
    let early = rmid(&[(b"data", [track(&test_track()), header(0, TRAP)].concat())]);
    assert!(is_readable(&early));
    assert!(matches!(load_groove(&early, name()), Err(GrooveError::NotMidi)));
    // and what is neither kind of file is not looked into
    let other = [b"junk\0\0\0\0".to_vec(), header(0, TRAP)].concat();
    assert!(is_readable(&other));
    assert!(matches!(load_groove(&other, name()), Err(GrooveError::NotMidi)));
}
