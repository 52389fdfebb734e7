use ndarray_rand::rand::rngs::StdRng;
use ndarray_rand::rand::{Rng, SeedableRng};
use particle_filter::systematic::{gather, systematic_indices};
use particle_filter::FilterError;

/// The key of a weight or draw point that is not negative: its bits, which
/// are ordered as such numbers are.
fn key(x: f64) -> u64 {
    assert!(x >= 0.0);
    x.to_bits()
}

#[test]
fn walk_assigns_first_slot_above_each_draw() {
    let cumulative: Vec<u64> = vec![10, 30, 60, 100];
    let draws: Vec<u64> = vec![5, 30, 55, 99];
    assert_eq!(systematic_indices(&draws, &cumulative), Ok(vec![0, 2, 2, 3]));
}

#[test]
fn walk_fails_when_a_draw_reaches_the_total() {
    let cumulative: Vec<u64> = vec![10, 30, 60, 100];
    let draws: Vec<u64> = vec![5, 30, 55, 100];
    assert_eq!(systematic_indices(&draws, &cumulative), Err(FilterError::DrawOutOfRange));
}

#[test]
fn walk_fails_without_cumulative_weights() {
    assert_eq!(systematic_indices(&vec![0], &vec![]), Err(FilterError::DrawOutOfRange));
}

#[test]
fn walk_with_no_draws_gives_no_picks() {
    assert_eq!(systematic_indices(&vec![], &vec![]), Ok(vec![]));
    assert_eq!(systematic_indices(&vec![], &vec![7, 9]), Ok(vec![]));
}

#[test]
fn walk_does_not_step_back_for_unsorted_draws() {
    let cumulative: Vec<u64> = vec![10, 30, 60, 100];
    let draws: Vec<u64> = vec![55, 5, 99];
    assert_eq!(systematic_indices(&draws, &cumulative), Ok(vec![2, 2, 3]));
}

#[test]
fn walk_skips_particles_without_weight() {
    let cumulative: Vec<u64> = vec![0, 0, 50, 50, 100];
    let draws: Vec<u64> = vec![0, 49, 50, 99];
    assert_eq!(systematic_indices(&draws, &cumulative), Ok(vec![2, 2, 4, 4]));
}

#[test]
fn walk_gives_one_heavy_particle_every_copy() {
    let cumulative: Vec<u64> = vec![0, 100, 100];
    let draws: Vec<u64> = vec![10, 43, 76];
    assert_eq!(systematic_indices(&draws, &cumulative), Ok(vec![1, 1, 1]));
}

#[test]
fn walk_orders_float_weights_by_their_bits() {
    let weights = [0.1_f64, 0.2, 0.3, 0.4];
    let mut cumulative: Vec<f64> = Vec::new();
    let mut sum = 0.0;
    for w in weights {
        sum += w;
        cumulative.push(sum);
    }
    cumulative[3] = 1.0;
    let draws: Vec<f64> = (0..4).map(|i| (0.5 + i as f64) / 4.0).collect();
    let cumulative_keys: Vec<u64> = cumulative.iter().map(|c| key(*c)).collect();
    let draw_keys: Vec<u64> = draws.iter().map(|d| key(*d)).collect();
    assert_eq!(systematic_indices(&draw_keys, &cumulative_keys), Ok(vec![1, 2, 3, 3]));
}

#[test]
fn picks_never_decrease() {
    let mut rng = StdRng::seed_from_u64(11);
    for _ in 0..200 {
        let n: usize = rng.gen_range(1..20);
        let mut cumulative: Vec<u64> = Vec::new();
        let mut sum: u64 = 0;
        for _ in 0..n {
            sum += rng.gen_range(0..50u64);
            cumulative.push(sum);
        }
        let total = sum + 1;
        cumulative[n - 1] = total;
        let draws: Vec<u64> = (0..n).map(|_| rng.gen_range(0..total)).collect();
        let picks = systematic_indices(&draws, &cumulative).unwrap();
        assert_eq!(picks.len(), n);
        for i in 0..n {
            let start = if i == 0 { 0 } else { picks[i - 1] };
            assert!(start <= picks[i] && picks[i] < n);
            assert!(draws[i] < cumulative[picks[i]]);
            for slot in start..picks[i] {
                assert!(cumulative[slot] <= draws[i]);
            }
        }
    }
}

#[test]
fn sorted_draws_land_in_the_share_of_their_pick() {
    let cumulative: Vec<u64> = vec![4, 4, 9, 20, 21];
    let draws: Vec<u64> = vec![0, 3, 4, 8, 9, 19, 20];
    let picks = systematic_indices(&draws, &cumulative).unwrap();
    assert_eq!(picks, vec![0, 0, 2, 2, 3, 3, 4]);
    for (draw, pick) in draws.iter().zip(picks.iter()) {
        let lower = if *pick == 0 { 0 } else { cumulative[*pick - 1] };
        assert!(lower <= *draw && *draw < cumulative[*pick]);
    }
}

#[test]
fn copies_over_all_offsets_equal_the_weight() {
    let weights: Vec<u64> = vec![3, 1, 6, 2];
    let cumulative: Vec<u64> = vec![3, 4, 10, 12];
    let count: u64 = 4;
    let spacing: u64 = 3;
    let mut copies: Vec<u64> = vec![0; 4];
    for offset in 0..spacing {
        let draws: Vec<u64> = (0..count).map(|i| offset + i * spacing).collect();
        for pick in systematic_indices(&draws, &cumulative).unwrap() {
            copies[pick] += 1;
        }
    }
    assert_eq!(copies, weights);
}

#[test]
fn selection_frequency_follows_weight() {
    let weights = [0.1_f64, 0.2, 0.3, 0.4];
    let cumulative_keys: Vec<u64> = vec![key(0.1), key(0.1 + 0.2), key(0.1 + 0.2 + 0.3), key(1.0)];
    let mut rng = StdRng::seed_from_u64(2024);
    let trials = 20000;
    let mut copies = [0usize; 4];
    for _ in 0..trials {
        let offset: f64 = rng.gen_range(0.0..1.0);
        let draws: Vec<u64> = (0..4).map(|i| key((offset + i as f64) / 4.0)).collect();
        for pick in systematic_indices(&draws, &cumulative_keys).unwrap() {
            copies[pick] += 1;
        }
    }
    for slot in 0..4 {
        let frequency = copies[slot] as f64 / (4 * trials) as f64;
        assert!((frequency - weights[slot]).abs() < 0.01, "slot {slot}: {frequency}");
    }
}

#[test]
fn gather_copies_rows_in_index_order() {
    let rows: Vec<(i32, i32)> = vec![(0, 0), (10, 0), (0, 10)];
    assert_eq!(gather(&rows, &vec![2, 2, 0]), Ok(vec![(0, 10), (0, 10), (0, 0)]));
}

#[test]
fn gather_refuses_an_index_past_the_end() {
    let rows: Vec<(i32, i32)> = vec![(0, 0), (10, 0), (0, 10)];
    assert_eq!(gather(&rows, &vec![0, 3]), Err(FilterError::IndexOutOfRange));
    let none: Vec<u8> = vec![];
    assert_eq!(gather(&none, &vec![0]), Err(FilterError::IndexOutOfRange));
}

#[test]
fn gather_of_no_indices_is_empty() {
    let rows: Vec<f64> = vec![1.5, 2.5];
    assert_eq!(gather(&rows, &vec![]), Ok(vec![]));
}
