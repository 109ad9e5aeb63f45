use kernels::qsort::lanes;
use kernels::qsort::normal;

fn next(state: &mut u64) -> i32 {
    *state = state
        .wrapping_mul(6364136223846793005)
        .wrapping_add(1442695040888963407);
    (*state >> 32) as i32
}

fn is_ascending(v: &[i32]) -> bool {
    v.windows(2).all(|w| w[0] <= w[1])
}

fn same_multiset(a: &[i32], b: &[i32]) -> bool {
    let mut x = a.to_vec();
    let mut y = b.to_vec();
    x.sort();
    y.sort();
    x == y
}

#[test]
fn empty_and_singleton_are_no_ops() {
    let mut v: Vec<i32> = vec![];
    normal::qsort(&mut v);
    lanes::qsort(&mut v);
    assert!(v.is_empty());

    let mut v = vec![42];
    normal::qsort(&mut v);
    assert_eq!(v, vec![42]);
    let mut v = vec![42];
    lanes::qsort(&mut v);
    assert_eq!(v, vec![42]);
}

#[test]
fn sorts_three_values() {
    let mut v = vec![3, 1, 2];
    normal::qsort(&mut v);
    assert_eq!(v, vec![1, 2, 3]);
    let mut v = vec![3, 1, 2];
    lanes::qsort(&mut v);
    assert_eq!(v, vec![1, 2, 3]);
}

#[test]
fn sorts_extremes() {
    let expected = vec![i32::MIN, -1, 0, 1, i32::MAX];
    let mut v = vec![i32::MIN, 0, i32::MAX, -1, 1];
    normal::qsort(&mut v);
    assert_eq!(v, expected);
    let mut v = vec![i32::MIN, 0, i32::MAX, -1, 1];
    lanes::qsort(&mut v);
    assert_eq!(v, expected);
}

#[test]
fn sorts_sine_samples() {
    let input: Vec<i32> = (0..1000)
        .map(|i| (i as f64 * (i as f64 / 5.0).sin()).ceil() as i32)
        .collect();

    let mut a = input.clone();
    normal::qsort(&mut a);
    assert!(is_ascending(&a));
    assert!(same_multiset(&a, &input));

    let mut b = input.clone();
    lanes::qsort(&mut b);
    assert!(is_ascending(&b));
    assert!(same_multiset(&b, &input));
    assert_eq!(a, b);
}

#[test]
fn sorts_every_short_length() {
    // Covers each dispatch arm: both bitonic networks, with and without
    // padding, and the partition paths just past 32.
    let mut state: u64 = 7;
    for len in 0..=70usize {
        let input: Vec<i32> = (0..len).map(|_| next(&mut state) % 100).collect();
        let mut expected = input.clone();
        expected.sort();

        let mut a = input.clone();
        normal::qsort(&mut a);
        assert_eq!(a, expected, "three-way quicksort, length {len}");

        let mut b = input.clone();
        lanes::qsort(&mut b);
        assert_eq!(b, expected, "blocked sort, length {len}");
    }
}

#[test]
fn sorts_values_rich_in_duplicates() {
    let mut state: u64 = 99;
    let input: Vec<i32> = (0..10_000).map(|_| next(&mut state) % 7).collect();
    let mut expected = input.clone();
    expected.sort();

    let mut a = input.clone();
    normal::qsort(&mut a);
    assert_eq!(a, expected);

    let mut b = input;
    lanes::qsort(&mut b);
    assert_eq!(b, expected);
}

#[test]
fn blocked_sort_matches_reference_on_a_million_values() {
    let mut state: u64 = 0x9E3779B97F4A7C15;
    let input: Vec<i32> = (0..1_000_000).map(|_| next(&mut state)).collect();

    let mut a = input.clone();
    normal::qsort(&mut a);
    let mut b = input.clone();
    lanes::qsort(&mut b);

    assert!(is_ascending(&a));
    assert!(same_multiset(&a, &input));
    assert_eq!(a, b);
}

#[test]
fn sorts_adversarial_shapes() {
    for len in [33usize, 64, 100, 257] {
        let shapes: Vec<Vec<i32>> = vec![
            (0..len as i32).collect(),
            (0..len as i32).rev().collect(),
            vec![5; len],
            (0..len as i32).map(|i| if i % 2 == 0 { i } else { -i }).collect(),
        ];
        for input in shapes {
            let mut expected = input.clone();
            expected.sort();
            let mut a = input.clone();
            normal::qsort(&mut a);
            assert_eq!(a, expected);
            let mut b = input;
            lanes::qsort(&mut b);
            assert_eq!(b, expected);
        }
    }
}
