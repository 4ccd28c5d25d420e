use synfection::loops::{
    can_loop, can_place, groove_voices, lay_loop, loop_len, loop_voices, mix_loop, overlay, pattern, Grid,
    Onset, Placed, PATTERN_NAMES,
};

#[test]
fn every_listed_pattern_exists() {
    for name in PATTERN_NAMES {
        assert!(pattern(name).is_some(), "{name}");
    }
    assert!(pattern("polka").is_none());
}

#[test]
fn pattern_steps() {
    let p = pattern("garage_roll").unwrap();
    assert_eq!(p[0], Some((0, 1, 95)));
    assert_eq!(p[1], None);
    assert_eq!(p[5], Some((12, 1, 95)));
    assert_eq!(p[7], Some((0, 2, 95)));
    assert_eq!(pattern("skippy_ghost").unwrap()[2], Some((0, 1, 45)));
    assert_eq!(pattern("reese_hold").unwrap()[15], Some((3, 1, 95)));
}

#[test]
fn where_notes_go() {
    let p = pattern("garage_roll").unwrap();
    let g = Grid { root: 29, step_n: 100, swing_n: 12, tail: 30 };
    assert!(can_loop(&p, &g, 2));
    let v = loop_voices(&p, &g, 2);
    assert_eq!(v.len(), 14);
    assert_eq!((v[0].pos, v[0].midi, v[0].gate_n, v[0].n), (0, 29, 100, 130));
    // step three is odd, and late
    assert_eq!((v[1].pos, v[1].midi), (312, 29));
    assert_eq!((v[2].pos, v[2].midi), (512, 41));
    // the second bar
    assert_eq!(v[7].pos, 1600);
    assert_eq!(loop_len(100, 2), 3200);
    assert!(!can_loop(&p, &Grid { root: i32::MAX, ..g }, 2));
    assert!(!can_loop(&p, &Grid { step_n: usize::MAX / 2, ..g }, 2));
}

#[test]
fn tails_wrap_to_the_head() {
    let mut buf = vec![0.0f32; 4];
    overlay(&mut buf, 3, &[1.0, 2.0, 3.0], &|a: f32, b: f32| a + b);
    assert_eq!(buf, [2.0, 3.0, 0.0, 1.0]);
    // longer than the loop: it is laid over itself
    let mut buf = vec![0; 2];
    overlay(&mut buf, 0, &[1, 10, 100], &|a: i32, b: i32| a + b);
    assert_eq!(buf, [101, 10]);
}

#[test]
fn notes_are_mixed() {
    let notes = vec![vec![1, 2], vec![10, 20, 30]];
    let r = mix_loop(4, &[0, 2], &notes, 0, |a: i32, b: i32| a + b);
    assert_eq!(r, [31, 2, 10, 20]);
    assert_eq!(mix_loop(3, &[], &[], 0, |a: i32, b: i32| a + b), [0, 0, 0]);
}

#[test]
fn where_the_notes_of_a_groove_go() {
    let held = Onset { at: 1700, held: 400, semi: -5 };
    let brief = Onset { at: 20, held: 3, semi: 12 };
    assert!(can_place(&held, 29, 30, 100) && can_place(&brief, 29, 30, 100));
    let v = groove_voices(&[held, brief], 29, 1600, 30, 100);
    assert_eq!(v[0], Placed { pos: 100, midi: 24, gate_n: 400, n: 500 });
    assert_eq!(v[1], Placed { pos: 20, midi: 41, gate_n: 30, n: 130 });
    assert!(!can_place(&held, i32::MIN, 30, 100));
    assert!(!can_place(&held, 29, usize::MAX, 1));
}

#[test]
fn loops_are_scaled_mixed_and_levelled() {
    let notes = vec![vec![1, 2], vec![10, 20, 30]];
    let r = lay_loop(
        4,
        &[0, 2],
        &[100, 10],
        &notes,
        0,
        |v: i32, gain: u8| v * gain as i32 / 10,
        |a: i32, b: i32| a + b,
        |m: i32, v: i32| m.max(v.abs()),
        |v: i32, peak: i32| v * 80 / peak,
    );
    // 10 20 and 10 20 30, around the end: 40 20 10 20
    assert_eq!(r, [80, 40, 20, 40]);
}

#[test]
fn swing_moves_odd_steps_alone() {
    let late = |swing: u32, n: usize| (f32::from_bits(swing) * n as f32) as usize;
    let grid = |swing: f32| Grid::new(29, 100, swing.to_bits(), 30, late);
    assert_eq!((grid(0.12).swing_n, grid(-1.0).swing_n, grid(3.0).swing_n), (12, 0, 50));
    assert_eq!(grid(f32::INFINITY).swing_n, 50);
    let starts = |name: &str, swing: f32| -> Vec<usize> {
        loop_voices(&pattern(name).unwrap(), &grid(swing), 2).iter().map(|v| v.pos).collect()
    };
    assert_eq!(starts("house_offbeat", 0.0), starts("house_offbeat", 0.4));
    assert_eq!(starts("garage_roll", 0.5), starts("garage_roll", 0.9));
    let (straight, swung) = (starts("garage_roll", 0.0), starts("garage_roll", 0.2));
    for (a, b) in straight.iter().zip(&swung) {
        assert_eq!(b - a, if a / 100 % 2 == 1 { 20 } else { 0 });
    }
}
