use synfection::genome::{
    inline_text, load, load_with_note, patch_fields, save, save_patch, upgrade, PatchError,
    DRIVE_IDX, N_PARAMS, PARAMS,
};
use synfection::text::{white, int_to_string, nat_to_string};

fn number(s: &str) -> Option<f32> {
    s.parse::<f32>().ok()
}

fn show(v: f32) -> String {
    format!("{v:.5}")
}

#[test]
fn legacy_genome_upgrades() {
    let g = upgrade(&[0.5f32; 15], 0.0).unwrap();
    assert_eq!(g[DRIVE_IDX], 0.0);
    assert_eq!(g[5], 0.5);
    assert_eq!(g[7], 0.5);
    assert!(upgrade(&[0.5f32; 10], 0.0).is_err());
}

#[test]
fn patch_roundtrip_with_note() {
    let mut g = [0.0f32; N_PARAMS];
    g.iter_mut().enumerate().for_each(|(i, v)| *v = i as f32 / 16.0);
    let text = save_patch(&g, 41, show);
    let (g2, note) = load_with_note(&text, number, 0.0).unwrap();
    assert_eq!(note, Some(41));
    for (a, b) in g.iter().zip(&g2) {
        assert!((a - b).abs() < 1e-4);
    }
}

#[test]
fn upgrading_keeps_every_value() {
    let vals: Vec<i32> = (1..=15).collect();
    let g = upgrade(&vals, 0).unwrap();
    assert_eq!(g, [1, 2, 3, 4, 5, 6, 0, 7, 8, 9, 10, 11, 12, 13, 14, 15]);
    let same: Vec<i32> = (1..=16).collect();
    assert_eq!(upgrade(&same, 0).unwrap().to_vec(), same);
    assert!(matches!(upgrade(&[1; 17], 0), Err(PatchError::WrongCount(17))));
}

#[test]
fn saved_patch_text() {
    let mut g = [0.25f32; N_PARAMS];
    g[0] = 1.0;
    let text = save_patch(&g, -3, show);
    let mut want = String::from("# synfection patch  note=-3\n1.00000\n");
    for _ in 1..16 {
        want.push_str("0.25000\n");
    }
    assert_eq!(text, want);
    assert_eq!(save(&g, show), want["# synfection patch  note=-3\n".len()..]);
}

#[test]
fn comments_and_separators() {
    let text = "#note= 40 \r\n 0.1,0.2\t0.3,,0.4\n# no mark here\n0.5 0.6 0.7 0.8\n\n0.9 1 1 1 1 1 1 1";
    let (g, note) = load_with_note(text, number, 0.0).unwrap();
    assert_eq!(note, Some(40));
    assert_eq!(g[..5], [0.1, 0.2, 0.3, 0.4, 0.5]);
    assert_eq!(g[15], 1.0);
    let (fields, n) = patch_fields("a b#c\n#note=x\n d");
    assert_eq!(fields, ["a", "b#c", "d"]);
    assert_eq!(n, None);
}

#[test]
fn the_last_note_counts() {
    let (_, note) = patch_fields("# note=1\n# note=2 note=3\n");
    assert_eq!(note, Some(2));
    let (_, note) = patch_fields("# note=1\n# note=x\n");
    assert_eq!(note, None);
    let (_, note) = patch_fields("# note=1\n# note=2\n# nothing\n");
    assert_eq!(note, Some(2));
}

#[test]
fn bad_patches() {
    match load("0.1 zap 0.2", number, 0.0) {
        Err(PatchError::BadValue(f)) => assert_eq!(f, "zap"),
        _ => panic!("a bad value is reported before the count"),
    }
    assert!(matches!(load("0.1 0.2", number, 0.0), Err(PatchError::WrongCount(2))));
    assert!(matches!(load("", number, 0.0), Err(PatchError::WrongCount(0))));
}

#[test]
fn inline_genomes() {
    assert_eq!(inline_text("0.2,0.8,,1"), "0.2 0.8  1");
    let spec = "0.5,0.5,0.5,0.5,0.5,0.5,0.5,0.5,0.5,0.5,0.5,0.5,0.5,0.5,0.5,0.25";
    assert_eq!(load(&inline_text(spec), number, 0.0).unwrap()[15], 0.25);
}

#[test]
fn knobs_are_listed() {
    assert_eq!(PARAMS[DRIVE_IDX].0, "drive");
    assert_eq!(PARAMS[0].0, "osc1_wt");
    assert_eq!(PARAMS[15].0, "amp_r");
}

#[test]
fn white_space_is_that_of_the_language() {
    for c in '\0'..=char::MAX {
        assert_eq!(white(c), c.is_whitespace(), "{:x}", c as u32);
    }
}

#[test]
fn decimal_texts() {
    for n in [0, 7, 10, 99, 100, 12345, i32::MAX] {
        assert_eq!(int_to_string(n), n.to_string());
        assert_eq!(int_to_string(-n), (-n).to_string());
        assert_eq!(nat_to_string(n as u32), n.to_string());
    }
    assert_eq!(int_to_string(i32::MIN), i32::MIN.to_string());
    assert_eq!(nat_to_string(u32::MAX), u32::MAX.to_string());
}
