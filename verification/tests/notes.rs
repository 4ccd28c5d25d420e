use synfection::notes::{can_be_note, midi_to_name, note_to_midi, NoteError};

#[test]
fn note_parsing() {
    assert_eq!(note_to_midi("C3").unwrap(), 48);
    assert_eq!(note_to_midi("F1").unwrap(), 29);
    assert_eq!(note_to_midi("48").unwrap(), 48);
    assert_eq!(note_to_midi("A4").unwrap(), 69);
}

#[test]
fn note_spellings() {
    assert_eq!(note_to_midi(" c#3 "), Ok(49));
    assert_eq!(note_to_midi("cs3"), Ok(49));
    assert_eq!(note_to_midi("Fs1"), Ok(30));
    assert_eq!(note_to_midi("-7"), Ok(-7));
    assert_eq!(note_to_midi("+12"), Ok(12));
    assert_eq!(note_to_midi("\u{2003}B0\n"), Ok(23));
}

#[test]
fn bad_notes() {
    assert_eq!(note_to_midi("H3"), Err(NoteError::BadName));
    assert_eq!(note_to_midi("3C"), Err(NoteError::BadOctave));
    assert_eq!(note_to_midi("C"), Err(NoteError::BadOctave));
    assert_eq!(note_to_midi("B#3"), Err(NoteError::BadName));
    assert_eq!(note_to_midi("99999999999"), Err(NoteError::BadName));
}

#[test]
fn what_can_be_a_note() {
    assert!(can_be_note("F1"));
    assert!(can_be_note(" 48 "));
    assert!(!can_be_note(""));
    assert!(!can_be_note("  \t"));
    assert!(!can_be_note("C\u{e9}"));
}

#[test]
fn note_names() {
    assert_eq!(midi_to_name(48), "C3");
    assert_eq!(midi_to_name(29), "F1");
    assert_eq!(midi_to_name(69), "A4");
    assert_eq!(midi_to_name(61), "C#4");
    assert_eq!(midi_to_name(0), "C-1");
    assert_eq!(midi_to_name(-1), "B-1");
}

#[test]
fn note_names_read_back() {
    for m in 12..=131 {
        assert_eq!(note_to_midi(&midi_to_name(m)), Ok(m));
    }
    // below the octaves that a single digit can tell
    assert_ne!(note_to_midi(&midi_to_name(0)), Ok(0));
}
