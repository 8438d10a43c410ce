use rinha_fraud::kmeans::{Center, Rng, Training, MAX_SAMPLE, SEED};
use rinha_fraud::probe::{nearest, nearest_clusters, INFINITE};

#[test]
fn states_of_the_generator() {
    let mut rng = Rng(1);
    assert_eq!(rng.next(), 1082269761);
    assert_eq!(rng.next(), 1152992998833853505);
    assert_eq!(rng.next(), 11177516664432764457);
    let mut seeded = Rng(SEED);
    assert_eq!(seeded.next(), 0xdc1b77ae0bf34dad);
    assert_eq!(seeded.next(), 0x64f0eeb9026e6076);
    assert_eq!(seeded.0, 0x64f0eeb9026e6076);
}

#[test]
fn zero_stays_zero_and_nothing_else_gets_there() {
    let mut zero = Rng(0);
    assert_eq!(zero.next(), 0);
    let mut rng = Rng(SEED);
    let mut seen: Vec<u64> = (0..1000).map(|_| rng.next()).collect();
    assert!(!seen.contains(&0));
    seen.sort();
    seen.dedup();
    assert_eq!(seen.len(), 1000);
}

#[test]
fn the_start_of_a_training() {
    let (t, points) = Training::start(10, 3);
    assert_eq!(t.sample, vec![9, 4, 0, 0, 8, 5, 7, 0, 7, 2]);
    assert_eq!(points, vec![4, 0, 0]);
    assert_eq!(t.rng.0, 0x55bc79f8ada711fd);
}

#[test]
fn samples_are_limited() {
    let (t, points) = Training::start(MAX_SAMPLE + 5, 2);
    assert_eq!(t.sample.len(), MAX_SAMPLE);
    assert!(t.sample.iter().all(|&i| i < MAX_SAMPLE + 5));
    assert!(points.iter().all(|p| t.sample.contains(p)));
    let (none, no_points) = Training::start(0, 0);
    assert!(none.sample.is_empty() && no_points.is_empty());
}

#[test]
fn centroids_move_to_means_or_start_over() {
    let (mut t, _) = Training::start(10, 3);
    let assign = [0, 0, 2, 2, 2, 0, 0, 0, 2, 0];
    assert_eq!(
        t.recenter(&assign, 4),
        vec![Center::Mean(6), Center::Restart(9), Center::Mean(4), Center::Restart(0)]
    );
    assert_eq!(t.rng.0, 0xb92199e83f5a101f);
    assert_eq!(t.sample.len(), 10);
    let all = [0, 1, 2, 3, 0, 1, 2, 3, 0, 1];
    assert_eq!(
        t.recenter(&all, 4),
        vec![Center::Mean(3), Center::Mean(3), Center::Mean(2), Center::Mean(2)]
    );
    assert_eq!(t.rng.0, 0xb92199e83f5a101f);
}

fn keys(d: &[f32]) -> Vec<u32> {
    d.iter().map(|x| x.to_bits()).collect()
}

#[test]
fn the_nearest_centroid() {
    assert_eq!(nearest(&keys(&[3.0, 1.0, 2.0])), (1, 1.0f32.to_bits()));
    assert_eq!(nearest(&keys(&[3.0, 1.0, 1.0])), (1, 1.0f32.to_bits()));
    assert_eq!(nearest(&keys(&[f32::NAN, 2.0])), (1, 2.0f32.to_bits()));
    assert_eq!(nearest(&keys(&[f32::INFINITY, f32::NAN])), (0, INFINITE));
    assert_eq!(nearest(&[]), (0, INFINITE));
    assert_eq!(nearest(&keys(&[0.5, 0.0])), (1, 0));
}

/// The choice as it is made with numbers in single precision.
fn chosen(d: &[f32], nprobe: usize) -> Vec<usize> {
    let np = nprobe.min(d.len());
    let mut best: Vec<(f32, usize)> = Vec::new();
    let mut worst = f32::INFINITY;
    for (c, &dist) in d.iter().enumerate() {
        if best.len() < np {
            best.push((dist, c));
            if best.len() == np {
                worst = best.iter().fold(0.0, |a, &(d, _)| a.max(d));
            }
        } else if dist < worst {
            let mut wi = 0;
            let mut wd = best[0].0;
            for (i, &(d, _)) in best.iter().enumerate() {
                if d > wd {
                    wd = d;
                    wi = i;
                }
            }
            best[wi] = (dist, c);
            worst = best.iter().fold(0.0, |a, &(d, _)| a.max(d));
        }
    }
    best.into_iter().map(|(_, c)| c).collect()
}

#[test]
fn the_nearest_clusters() {
    assert_eq!(nearest_clusters(&keys(&[4.0, 1.0, 3.0, 0.5, 2.0]), 2), vec![3, 1]);
    assert_eq!(nearest_clusters(&keys(&[4.0, 1.0, 3.0, 0.5, 2.0]), 3), vec![3, 1, 4]);
    assert_eq!(nearest_clusters(&keys(&[1.0, 1.0, 1.0]), 2), vec![0, 1]);
    assert_eq!(nearest_clusters(&keys(&[2.0, 1.0]), 9), vec![0, 1]);
    assert_eq!(nearest_clusters(&[], 3), Vec::<usize>::new());
    assert_eq!(nearest_clusters(&keys(&[f32::INFINITY, f32::NAN]), 0), Vec::<usize>::new());
}

#[test]
fn no_cluster_left_out_is_nearer() {
    let mut rng = Rng(7);
    for round in 0..200 {
        let d: Vec<f32> = (0..30).map(|_| (rng.next() % 50) as f32 / 8.0).collect();
        let got = nearest_clusters(&keys(&d), 1 + round % 29);
        let far = got.iter().map(|&c| d[c]).fold(0.0, f32::max);
        for c in 0..30 {
            assert!(got.contains(&c) || d[c] >= far);
        }
        let mut sorted = got.clone();
        sorted.sort();
        sorted.dedup();
        assert_eq!(sorted.len(), 1 + round % 29);
    }
}

#[test]
fn distances_that_are_no_numbers() {
    let mut rng = Rng(99);
    for round in 0..500 {
        let d: Vec<f32> = (0..12)
            .map(|_| match rng.next() % 6 {
                0 => f32::NAN,
                1 => f32::INFINITY,
                x => x as f32,
            })
            .collect();
        let nprobe = 1 + round % 14;
        assert_eq!(nearest_clusters(&keys(&d), nprobe), chosen(&d, nprobe));
    }
}
