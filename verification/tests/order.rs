use synfection::order::{first_min, first_peak, stable_order};

#[test]
fn sorting_is_stable() {
    assert_eq!(stable_order(&[5, 1, 5, 0, 1]), [3, 1, 4, 0, 2]);
    assert_eq!(stable_order(&[]), Vec::<usize>::new());
    let keys: Vec<u64> = (0..100).map(|i| (i * 37) % 10).collect();
    let mut want: Vec<usize> = (0..100).collect();
    want.sort_by_key(|&i| keys[i]);
    assert_eq!(stable_order(&keys), want);
}

#[test]
fn firsts() {
    assert_eq!(first_min(&[3, 1, 1, 2]), 1);
    assert_eq!(first_peak(&[1, 4, 4, 2]), 1);
    assert_eq!(first_peak(&[0, 0]), 0);
    assert_eq!(first_peak(&[]), 0);
}

#[test]
fn bits_of_nonnegative_numbers_are_ordered() {
    let xs = [0.0f32, 1e-40, 0.03, 0.1, 0.5, 0.55, 1.0, 7.5e9, f32::INFINITY];
    for w in xs.windows(2) {
        assert!(w[0].to_bits() < w[1].to_bits());
    }
}
