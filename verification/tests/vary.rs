use synfection::vary::{crossover, free_params, lock_indices};

#[test]
fn locks() {
    assert_eq!(lock_indices("cutoff,osc2_detune").unwrap(), [7, 2]);
    assert_eq!(lock_indices("").unwrap(), Vec::<usize>::new());
    assert_eq!(lock_indices(" drive , ,drive").unwrap(), [6, 6]);
    assert_eq!(lock_indices("drive, nope ").unwrap_err(), " nope ");
}

#[test]
fn locked_knobs_are_left_alone() {
    let free = free_params(&[7, 2]);
    assert_eq!(free, [0, 1, 3, 4, 5, 6, 8, 9, 10, 11, 12, 13, 14, 15]);
    assert_eq!(free_params(&[]).len(), 16);
}

#[test]
fn crossing_takes_each_knob_from_a_parent() {
    let a = [1; 16];
    let b = [2; 16];
    let mut coins = [false; 16];
    coins[3] = true;
    let c = crossover(&a, &b, &coins);
    assert_eq!(c[3], 1);
    assert_eq!(c[4], 2);
}
