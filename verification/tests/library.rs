use synfection::library::{
    is_groove_file, loop_file, name_to_save, patch_file, patch_label, place_of, sound_file,
};

#[test]
fn names_to_save() {
    assert_eq!(name_to_save("  my bass/2 "), "my_bass_2");
    assert_eq!(name_to_save("caf\u{e9}-1_x"), "caf\u{e9}-1_x");
    assert_eq!(name_to_save("../../etc"), "______etc");
    assert_eq!(name_to_save("   "), "my_patch");
    assert_eq!(name_to_save("\u{4f60}\u{597d}!"), "\u{4f60}\u{597d}_");
}

#[test]
fn files_of_a_patch() {
    assert_eq!(patch_file("deep"), "deep.genome.txt");
    assert_eq!(sound_file("deep"), "deep.wav");
    assert_eq!(loop_file("garage_roll", 138, "F1"), "loop_garage_roll_138bpm_F1.wav");
}

#[test]
fn labels() {
    assert_eq!(patch_label("deep.genome"), "deep");
    assert_eq!(patch_label("deep.genome.genome"), "deep");
    assert_eq!(patch_label("genome"), "genome");
    assert_eq!(patch_label(".genome"), "");
    for name in ["a", "my_patch", "x-y"] {
        let file = patch_file(name);
        let stem = file.strip_suffix(".txt").unwrap();
        assert_eq!(patch_label(stem), name);
    }
}

#[test]
fn places() {
    let names = ["a".to_string(), "b".to_string(), "b".to_string()];
    assert_eq!(place_of(&names, "b"), Some(1));
    assert_eq!(place_of(&names, "c"), None);
}

#[test]
fn dropped_files() {
    assert!(is_groove_file("mid"));
    assert!(is_groove_file("MIDI"));
    assert!(is_groove_file("Mid"));
    assert!(!is_groove_file("wav"));
    assert!(!is_groove_file(""));
    assert!(!is_groove_file("midis"));
}
