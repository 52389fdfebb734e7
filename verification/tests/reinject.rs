use ndarray_rand::rand::rngs::StdRng;
use ndarray_rand::rand::SeedableRng;
use particle_filter::reinject::{overwrite_entries, reinjection_targets, Reinjection};
use particle_filter::FilterError;

#[test]
fn fixed_policy_replaces_a_fixed_share() {
    let mut rng = StdRng::seed_from_u64(1);
    let targets = reinjection_targets(&mut rng, 100, Reinjection::Fixed { divisor: 10 }).unwrap();
    assert_eq!(targets.len(), 10);
    assert!(targets.iter().all(|t| *t < 100));
}

#[test]
fn fixed_policy_rounds_down() {
    let mut rng = StdRng::seed_from_u64(1);
    let targets = reinjection_targets(&mut rng, 7, Reinjection::Fixed { divisor: 2 }).unwrap();
    assert_eq!(targets.len(), 3);
    assert!(targets.iter().all(|t| *t < 7));
    let none = reinjection_targets(&mut rng, 7, Reinjection::Fixed { divisor: 8 }).unwrap();
    assert_eq!(none, vec![]);
}

#[test]
fn drawn_count_stays_below_the_share() {
    let mut counts: Vec<usize> = Vec::new();
    for seed in 0..50 {
        let mut rng = StdRng::seed_from_u64(seed);
        let targets =
            reinjection_targets(&mut rng, 100, Reinjection::Below { divisor: 4 }).unwrap();
        assert!(targets.len() < 25);
        assert!(targets.iter().all(|t| *t < 100));
        counts.push(targets.len());
    }
    assert!(counts.iter().any(|c| *c != counts[0]));
}

#[test]
fn targets_of_one_particle_all_name_it() {
    let mut rng = StdRng::seed_from_u64(3);
    let targets = reinjection_targets(&mut rng, 1, Reinjection::Fixed { divisor: 1 }).unwrap();
    assert_eq!(targets, vec![0]);
}

#[test]
fn targets_spread_over_the_particles() {
    let mut rng = StdRng::seed_from_u64(9);
    let targets = reinjection_targets(&mut rng, 1000, Reinjection::Fixed { divisor: 2 }).unwrap();
    assert_eq!(targets.len(), 500);
    assert!(targets.iter().any(|t| *t < 500));
    assert!(targets.iter().any(|t| *t >= 500));
}

#[test]
fn small_sets_get_no_drawn_reinjection() {
    let mut rng = StdRng::seed_from_u64(1);
    assert_eq!(reinjection_targets(&mut rng, 3, Reinjection::Below { divisor: 4 }), Ok(vec![]));
    assert_eq!(reinjection_targets(&mut rng, 0, Reinjection::Below { divisor: 4 }), Ok(vec![]));
    assert_eq!(reinjection_targets(&mut rng, 0, Reinjection::Fixed { divisor: 4 }), Ok(vec![]));
}

#[test]
fn zero_divisor_is_refused() {
    let mut rng = StdRng::seed_from_u64(1);
    assert_eq!(
        reinjection_targets(&mut rng, 10, Reinjection::Fixed { divisor: 0 }),
        Err(FilterError::ZeroDivisor)
    );
    assert_eq!(
        reinjection_targets(&mut rng, 10, Reinjection::Below { divisor: 0 }),
        Err(FilterError::ZeroDivisor)
    );
}

#[test]
fn overwriting_keeps_the_later_of_two_writes() {
    let entries: Vec<i32> = vec![10, 20, 30, 40];
    let out = overwrite_entries(&entries, &vec![1, 3, 1], &vec![-1, -2, -3]);
    assert_eq!(out, Ok(vec![10, -3, 30, -2]));
    assert_eq!(entries, vec![10, 20, 30, 40]);
}

#[test]
fn overwriting_nothing_copies_the_entries() {
    let entries: Vec<i32> = vec![10, 20];
    assert_eq!(overwrite_entries(&entries, &vec![], &vec![]), Ok(vec![10, 20]));
}

#[test]
fn overwriting_refuses_unequal_lengths_and_missing_entries() {
    let entries: Vec<i32> = vec![10, 20];
    assert_eq!(
        overwrite_entries(&entries, &vec![0, 1], &vec![5]),
        Err(FilterError::LengthMismatch)
    );
    assert_eq!(
        overwrite_entries(&entries, &vec![0, 2], &vec![5, 6]),
        Err(FilterError::IndexOutOfRange)
    );
    assert_eq!(overwrite_entries(&entries, &vec![2], &vec![]), Err(FilterError::LengthMismatch));
}
