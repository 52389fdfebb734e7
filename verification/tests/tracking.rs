use ndarray_rand::rand::rngs::StdRng;
use ndarray_rand::rand::{Rng, SeedableRng};
use ndarray_rand::rand_distr::{Distribution, Normal};
use particle_filter::{reinjection_targets, Particles, Reinjection};

fn key(x: f64) -> u64 {
    assert!(x >= 0.0);
    x.to_bits()
}

fn density(x: f64, std: f64) -> f64 {
    let d = x / std;
    (-0.5 * d * d).exp() / (std * (2.0 * std::f64::consts::PI).sqrt())
}

fn predict(set: &mut Particles<f64>, rng: &mut StdRng, noise_std: f64, dt: f64) {
    let noise = Normal::new(0.0, noise_std).unwrap();
    let moved: Vec<(f64, f64)> = set
        .positions()
        .iter()
        .zip(set.velocities().iter())
        .map(|(p, v)| {
            (p.0 + (v.0 + noise.sample(rng)) * dt, p.1 + (v.1 + noise.sample(rng)) * dt)
        })
        .collect();
    set.set_positions(moved).unwrap();
}

fn update(set: &mut Particles<f64>, landmark: (f64, f64), std: f64) {
    let mut weights: Vec<f64> = set
        .positions()
        .iter()
        .zip(set.weights().iter())
        .map(|(p, w)| w * density((p.0 - landmark.0).hypot(p.1 - landmark.1), std) + 1e-300)
        .collect();
    let sum: f64 = weights.iter().sum();
    for w in weights.iter_mut() {
        *w /= sum;
    }
    set.set_weights(weights).unwrap();
}

fn resample(set: &mut Particles<f64>, rng: &mut StdRng) {
    let n = set.n();
    let mut cumulative: Vec<f64> = Vec::with_capacity(n);
    let mut sum = 0.0;
    for w in set.weights() {
        sum += *w;
        cumulative.push(sum);
    }
    cumulative[n - 1] = 1.0;
    let offset: f64 = rng.gen_range(0.0..1.0);
    let draws: Vec<u64> = (0..n).map(|i| key((offset + i as f64) / n as f64)).collect();
    let cumulative: Vec<u64> = cumulative.iter().map(|c| key(*c)).collect();
    set.resample(&draws, &cumulative, 1.0 / n as f64).unwrap();

    let rough = Normal::new(0.0, 1.0).unwrap();
    let shaken: Vec<(f64, f64)> = set
        .positions()
        .iter()
        .map(|p| (p.0 + rough.sample(rng), p.1 + rough.sample(rng)))
        .collect();
    set.set_positions(shaken).unwrap();

    let targets = reinjection_targets(rng, n, Reinjection::Fixed { divisor: 10 }).unwrap();
    let bound = set.search_space();
    let fresh: Vec<(f64, f64)> = targets
        .iter()
        .map(|_| (rng.gen_range(-bound..bound), rng.gen_range(-bound..bound)))
        .collect();
    set.reinject(&targets, &fresh).unwrap();
}

fn weighted_mean(set: &Particles<f64>, group: &[usize]) -> (f64, f64) {
    let mut total = 0.0;
    let mut mean = (0.0, 0.0);
    for i in group {
        let w = set.weights()[*i];
        total += w;
        mean.0 += w * set.positions()[*i].0;
        mean.1 += w * set.positions()[*i].1;
    }
    (mean.0 / total, mean.1 / total)
}

#[test]
fn filter_converges_on_a_fixed_landmark() {
    let n = 1000;
    let bound = 100.0;
    let landmark = (30.0, -30.0);
    let observation_std = 5.0;
    let mut rng = StdRng::seed_from_u64(42);
    let unit = Normal::new(0.0, 1.0).unwrap();
    let positions: Vec<(f64, f64)> =
        (0..n).map(|_| (rng.gen_range(-bound..bound), rng.gen_range(-bound..bound))).collect();
    let velocities: Vec<(f64, f64)> =
        (0..n).map(|_| (unit.sample(&mut rng), unit.sample(&mut rng))).collect();
    let mut set = Particles::new(positions, velocities, 1.0 / n as f64, bound).unwrap();

    for _ in 0..50 {
        predict(&mut set, &mut rng, 0.1, 0.1);
        update(&mut set, landmark, observation_std);
        let sum: f64 = set.weights().iter().sum();
        assert!((sum - 1.0).abs() < 1e-6);
        resample(&mut set, &mut rng);
        let sum: f64 = set.weights().iter().sum();
        assert!((sum - 1.0).abs() < 1e-6);
        assert!(set.weights().iter().all(|w| *w == 1.0 / n as f64));
    }
    predict(&mut set, &mut rng, 0.1, 0.1);
    update(&mut set, landmark, observation_std);

    let groups = set.estimate(1, vec![0; n]).unwrap();
    assert_eq!(groups.len(), 1);
    assert_eq!(groups[0].len(), n);
    let mean = weighted_mean(&set, &groups[0]);
    let miss = (mean.0 - landmark.0).hypot(mean.1 - landmark.1);
    assert!(miss < observation_std, "estimate {mean:?} misses by {miss}");
}

fn effective_sample_size(set: &Particles<f64>) -> f64 {
    1.0 / set.weights().iter().map(|w| w * w).sum::<f64>()
}

#[test]
fn observation_favours_the_particle_that_sits_on_it() {
    let positions = vec![(0.0, 0.0), (10.0, 0.0), (0.0, 10.0), (10.0, 10.0)];
    let velocities = vec![(0.0, 0.0); 4];
    let mut set = Particles::new(positions, velocities, 0.25, 100.0).unwrap();
    update(&mut set, (0.0, 0.0), 1.0);
    let weights = set.weights();
    assert!(weights[0] > weights[1]);
    assert!(weights[0] > weights[2]);
    assert!(weights[0] > weights[3]);
    let sum: f64 = weights.iter().sum();
    assert!((sum - 1.0).abs() < 1e-6);
}

#[test]
fn motion_without_noise_is_exact() {
    let positions = vec![(1.0, 2.0), (-3.5, 0.25), (100.0, -100.0)];
    let velocities = vec![(0.5, -0.5), (2.0, 4.0), (0.0, 1.0)];
    let mut set =
        Particles::new(positions.clone(), velocities.clone(), 1.0 / 3.0, 100.0).unwrap();
    let mut rng = StdRng::seed_from_u64(8);
    let dt = 0.25;
    predict(&mut set, &mut rng, 0.0, dt);
    for i in 0..3 {
        let expected =
            (positions[i].0 + velocities[i].0 * dt, positions[i].1 + velocities[i].1 * dt);
        assert_eq!(set.positions()[i], expected);
    }
    assert_eq!(set.velocities(), &velocities);
}

#[test]
fn effective_sample_size_runs_from_one_to_n() {
    let n = 64;
    let rows = vec![(0.0, 0.0); n];
    let mut set = Particles::new(rows.clone(), rows, 1.0 / n as f64, 100.0).unwrap();
    assert!((effective_sample_size(&set) - n as f64).abs() < 1e-9);
    let mut one_hot = vec![0.0; n];
    one_hot[17] = 1.0;
    set.set_weights(one_hot).unwrap();
    assert_eq!(effective_sample_size(&set), 1.0);
}
