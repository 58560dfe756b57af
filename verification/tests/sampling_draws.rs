use isolation_forest::random::RandomSource;
use rand::rngs::StdRng;
use rand::SeedableRng;
use isolation_forest::sampling::{contains_index, draw_subsample, sample_indices, select_points};

fn numbered_points(n: i64) -> Vec<Vec<i64>> {
    (0..n).map(|i| vec![i, 10 * i]).collect()
}

#[test]
fn next_index_stays_in_range_and_varies() {
    let mut source = RandomSource::seeded(7);
    let mut seen = [false; 10];
    for _ in 0..400 {
        let r = source.next_index(3, 13);
        assert!((3..13).contains(&r));
        seen[r - 3] = true;
    }
    assert!(seen.iter().all(|&s| s));
}

#[test]
fn next_index_of_single_choice() {
    let mut source = RandomSource::seeded(7);
    for _ in 0..20 {
        assert_eq!(source.next_index(5, 6), 5);
    }
}

#[test]
fn next_value_stays_in_closed_range_and_reaches_both_ends() {
    let mut source = RandomSource::seeded(11);
    let mut seen = [false; 5];
    for _ in 0..400 {
        let r = source.next_value(-2, 2);
        assert!((-2..=2).contains(&r));
        seen[(r + 2) as usize] = true;
    }
    assert!(seen.iter().all(|&s| s));
}

#[test]
fn next_value_over_the_whole_range_of_i64() {
    let mut source = RandomSource::seeded(3);
    let a = source.next_value(i64::MIN, i64::MAX);
    let b = source.next_value(i64::MIN, i64::MAX);
    assert_ne!(a, b);
    assert_eq!(source.next_value(9, 9), 9);
}

#[test]
fn equal_seeds_give_equal_streams() {
    let mut a = RandomSource::seeded(42);
    let mut b = RandomSource::seeded(42);
    for _ in 0..100 {
        assert_eq!(a.next_index(0, 1000), b.next_index(0, 1000));
        assert_eq!(a.next_value(-1000, 1000), b.next_value(-1000, 1000));
    }
}

#[test]
fn different_seeds_give_different_streams() {
    let mut a = RandomSource::seeded(1);
    let mut b = RandomSource::seeded(2);
    let xs: Vec<i64> = (0..20).map(|_| a.next_value(i64::MIN, i64::MAX)).collect();
    let ys: Vec<i64> = (0..20).map(|_| b.next_value(i64::MIN, i64::MAX)).collect();
    assert_ne!(xs, ys);
}

#[test]
fn recording_without_a_generator_gives_no_source() {
    assert!(RandomSource::recording(None).is_none());
}

#[test]
fn recording_draws_from_the_generator_given() {
    let mut source = RandomSource::recording(Some(StdRng::seed_from_u64(42))).unwrap();
    let mut seeded = RandomSource::seeded(42);
    for _ in 0..50 {
        assert_eq!(source.next_index(0, 1000), seeded.next_index(0, 1000));
        assert_eq!(source.next_value(-7, 7), seeded.next_value(-7, 7));
    }
}

#[test]
fn entropy_source_draws_in_range() {
    let mut source = RandomSource::from_entropy().unwrap();
    assert!(source.next_index(0, 4) < 4);
}

#[test]
fn sample_indices_are_distinct_and_in_range() {
    for seed in 0..50 {
        let mut source = RandomSource::seeded(seed);
        let chosen = sample_indices(20, 7, &mut source);
        assert_eq!(chosen.len(), 7);
        for (i, &x) in chosen.iter().enumerate() {
            assert!(x < 20);
            for &y in &chosen[..i] {
                assert_ne!(x, y);
            }
        }
    }
}

#[test]
fn sample_indices_of_whole_population_is_a_permutation() {
    let mut source = RandomSource::seeded(5);
    let mut chosen = sample_indices(9, 9, &mut source);
    chosen.sort();
    assert_eq!(chosen, vec![0, 1, 2, 3, 4, 5, 6, 7, 8]);
}

#[test]
fn sample_indices_of_nothing_is_empty() {
    let mut source = RandomSource::seeded(5);
    assert!(sample_indices(9, 0, &mut source).is_empty());
    assert!(sample_indices(0, 0, &mut source).is_empty());
}

#[test]
fn sample_indices_reach_every_index() {
    let mut seen = [false; 6];
    for seed in 0..200 {
        let mut source = RandomSource::seeded(seed);
        for x in sample_indices(6, 2, &mut source) {
            seen[x] = true;
        }
    }
    assert!(seen.iter().all(|&s| s));
}

#[test]
fn sample_indices_keep_first_occurrences_of_the_draws() {
    for seed in 0..50 {
        let mut source = RandomSource::seeded(seed);
        let mut replay = RandomSource::seeded(seed);
        let chosen = sample_indices(10, 7, &mut source);
        let mut expected: Vec<usize> = Vec::new();
        while expected.len() < 7 {
            let index = replay.next_index(0, 10);
            if !expected.contains(&index) {
                expected.push(index);
            }
        }
        assert_eq!(chosen, expected);
        assert_eq!(source.next_index(0, 1000), replay.next_index(0, 1000));
    }
}

#[test]
fn sample_indices_draw_again_after_a_repetition() {
    let mut repeated = false;
    for seed in 0..50 {
        let mut source = RandomSource::seeded(seed);
        let mut replay = RandomSource::seeded(seed);
        let chosen = sample_indices(3, 3, &mut source);
        let first: Vec<usize> = (0..3).map(|_| replay.next_index(0, 3)).collect();
        let mut sorted = chosen.clone();
        sorted.sort();
        assert_eq!(sorted, vec![0, 1, 2]);
        repeated = repeated || first != chosen;
    }
    assert!(repeated);
}

#[test]
fn sample_indices_of_nothing_leave_the_source_alone() {
    let mut source = RandomSource::seeded(4);
    let mut untouched = RandomSource::seeded(4);
    assert!(sample_indices(12, 0, &mut source).is_empty());
    assert_eq!(source.next_index(0, 1000), untouched.next_index(0, 1000));
}

#[test]
fn contains_index_finds_what_is_there() {
    let indices = vec![4, 0, 9];
    assert!(contains_index(&indices, 4));
    assert!(contains_index(&indices, 9));
    assert!(!contains_index(&indices, 1));
    assert!(!contains_index(&Vec::new(), 0));
}

#[test]
fn select_points_copies_in_index_order() {
    let data = numbered_points(5);
    let picked = select_points(&data, &vec![4, 0, 2]);
    assert_eq!(picked, vec![vec![4, 40], vec![0, 0], vec![2, 20]]);
}

#[test]
fn subsample_of_small_dataset_is_the_dataset() {
    let data = numbered_points(4);
    let mut source = RandomSource::seeded(1);
    let mut untouched = RandomSource::seeded(1);
    assert_eq!(draw_subsample(&data, 4, &mut source), data);
    assert_eq!(draw_subsample(&data, 9, &mut source), data);
    assert_eq!(source.next_index(0, 1000), untouched.next_index(0, 1000));
}

#[test]
fn subsample_of_large_dataset_holds_distinct_points() {
    let data = numbered_points(50);
    for seed in 0..20 {
        let mut source = RandomSource::seeded(seed);
        let sample = draw_subsample(&data, 8, &mut source);
        assert_eq!(sample.len(), 8);
        for (i, p) in sample.iter().enumerate() {
            assert!(data.contains(p));
            assert!(!sample[..i].contains(p));
        }
    }
}

#[test]
fn subsample_of_size_zero_is_empty() {
    let data = numbered_points(3);
    let mut source = RandomSource::seeded(1);
    assert!(draw_subsample(&data, 0, &mut source).is_empty());
}
