use rinha_fraud::blob::{check_blob, write_blob, BlobError, MAGIC};
use rinha_fraud::index::{approved, dist_i16, exact, is_fraud, Index};
use rinha_fraud::kmeans::Rng;
use rinha_fraud::neighbors::Top;
use rinha_fraud::reorder::{counts, offsets, reorder};
use rinha_fraud::score::score;
use rinha_fraud::vectorize::quantize;

fn row(x: i16) -> [i16; 16] {
    let mut r = [0i16; 16];
    r[0] = x;
    r
}

/// Two clusters: vectors 0, 100 and 300 in the first, 200 and 400 in the second.
fn small() -> Vec<u8> {
    let rows = [row(0), row(200), row(100), row(400), row(300)];
    let labels = [true, false, true, true, false];
    let assign = [0, 1, 0, 1, 0];
    let l = reorder(&assign, 2, &rows, &labels);
    let mut centroids = vec![0u32; 28];
    centroids[0] = 0.5f32.to_bits();
    centroids[14] = 2.5f32.to_bits();
    write_blob(5, 2, &centroids, &l.offsets, &l.vectors, &l.labels)
}

#[test]
fn clusters_are_counted() {
    assert_eq!(counts(&[0, 2, 2, 0, 2], 4), vec![2, 0, 3, 0]);
    assert_eq!(offsets(&[0, 2, 2, 0, 2], 4), vec![0, 2, 2, 5, 5]);
    assert_eq!(counts(&[], 2), vec![0, 0]);
    assert_eq!(offsets(&[], 2), vec![0, 0, 0]);
}

#[test]
fn vectors_are_ordered_by_cluster() {
    let rows = [row(10), row(20), row(30), row(40), row(50)];
    let labels = [true, false, false, true, true];
    let l = reorder(&[1, 0, 1, 2, 0], 3, &rows, &labels);
    assert_eq!(l.offsets, vec![0, 2, 4, 5]);
    let firsts: Vec<i16> = l.vectors.chunks(16).map(|r| r[0]).collect();
    assert_eq!(firsts, vec![20, 50, 10, 30, 40]);
    assert_eq!(l.labels, vec![0b10110]);
}

#[test]
fn labels_fill_bytes_from_the_lowest_bit() {
    let rows = vec![row(1); 10];
    let mut labels = vec![false; 10];
    labels[0] = true;
    labels[9] = true;
    let l = reorder(&[0; 10], 1, &rows, &labels);
    assert_eq!(l.labels, vec![1, 2]);
    let got: Vec<bool> = (0..10).map(|i| is_fraud(&l.labels, i)).collect();
    assert_eq!(got, labels);
    let none = reorder(&[], 1, &[], &[]);
    assert!(none.labels.is_empty() && none.vectors.is_empty());
    assert_eq!(none.offsets, vec![0, 0]);
}

#[test]
fn the_bytes_of_a_blob() {
    let b = write_blob(1, 0, &[], &[0x01020304], &[-2, 0x0102], &[0xab]);
    let want = [
        0x48, 0x4e, 0x49, 0x52, 1, 0, 0, 0, 0, 0, 0, 0, 0, 0, 0, 0, 4, 3, 2, 1, 0xfe, 0xff, 2, 1,
        0xab,
    ];
    assert_eq!(b, want);
    assert_eq!(MAGIC.to_le_bytes(), want[..4]);
}

#[test]
fn a_blob_is_read_back() {
    let b = small();
    assert_eq!(b.len(), 16 + 4 * 28 + 4 * 3 + 2 * 80 + 1);
    assert_eq!(check_blob(&b), Ok(()));
    let x = Index::from_bytes(&b);
    assert_eq!((x.num_vectors, x.num_clusters), (5, 2));
    assert_eq!(f32::from_bits(x.centroids[14]), 2.5);
    assert_eq!(x.offsets, vec![0, 3, 5]);
    assert_eq!(x.vectors.iter().step_by(16).copied().collect::<Vec<_>>(), [0, 100, 300, 200, 400]);
    assert_eq!(x.labels, [0b10011]);
    assert!(x.is_fraud(0) && x.is_fraud(1) && x.is_fraud(4));
    assert!(!x.is_fraud(2) && !x.is_fraud(3));
    assert!(x.is_well_formed());
    let again =
        write_blob(x.num_vectors, x.num_clusters, &x.centroids, &x.offsets, &x.vectors, x.labels);
    assert_eq!(again, b);
}

#[test]
fn bytes_behind_a_blob_are_ignored() {
    let mut b = small();
    b.extend([1, 2, 3]);
    assert_eq!(check_blob(&b), Ok(()));
    assert_eq!(Index::from_bytes(&b).labels, [0b10011]);
}

#[test]
fn what_is_no_blob() {
    let b = small();
    assert_eq!(check_blob(&[]), Err(BlobError::NoHeader));
    assert_eq!(check_blob(&b[..11]), Err(BlobError::NoHeader));
    assert_eq!(check_blob(&b[..12]), Err(BlobError::Truncated));
    assert_eq!(check_blob(&b[..b.len() - 1]), Err(BlobError::Truncated));
    let mut wrong = b.clone();
    wrong[3] = 0;
    assert_eq!(check_blob(&wrong), Err(BlobError::BadMagic));
    // Announces more than memory can hold.
    let mut huge = b.clone();
    huge[4..12].copy_from_slice(&[0xff; 8]);
    assert_eq!(check_blob(&huge), Err(BlobError::Truncated));
}

#[test]
fn the_five_nearest_vote() {
    let mut top = Top::new();
    assert_eq!(top.frauds(), 0);
    for (dist, fraud) in [(50, true), (40, false), (30, true), (20, false), (10, true)] {
        top.offer(dist, fraud);
    }
    assert_eq!(top.frauds(), 3);
    // Displaces the one at 50.
    top.offer(5, false);
    assert_eq!(top.frauds(), 2);
    // As far as the fifth: comes too late.
    top.offer(40, true);
    assert_eq!(top.frauds(), 2);
    // The largest distance never counts.
    let mut far = Top::new();
    far.offer(i32::MAX, true);
    assert_eq!(far.frauds(), 0);
    far.offer(i32::MAX - 1, true);
    assert_eq!(far.frauds(), 1);
}

#[test]
fn six_tenths_are_denied() {
    assert!(approved(0) && approved(1) && approved(2));
    assert!(!approved(3) && !approved(4) && !approved(5));
    for frauds in 0..6u32 {
        assert_eq!(approved(frauds), (frauds as f32 / 5.0) < 0.6);
    }
}

#[test]
fn scores_depend_on_the_probed_clusters() {
    let b = small();
    let x = Index::from_bytes(&b);
    let q = row(390);
    let keys = [1.0f32.to_bits(), 2.0f32.to_bits()];
    // First cluster: 0, 100 and 300, of which two are frauds.
    assert_eq!(x.fraud_score(&keys, &q, 1), 2);
    // Second cluster: 200 and 400, of which one is a fraud.
    assert_eq!(x.fraud_score(&[keys[1], keys[0]], &q, 1), 1);
    assert_eq!(x.fraud_score(&keys, &q, 2), 3);
    assert_eq!(x.fraud_score(&keys, &q, 24), 3);
    assert_eq!(x.search(&q, &[1]), 1);
    assert_eq!(x.search(&q, &[]), 0);
}

#[test]
fn queries_that_cannot_be_scored() {
    let b = small();
    let mut x = Index::from_bytes(&b);
    let q = row(0);
    let keys = [1.0f32.to_bits(), 2.0f32.to_bits()];
    assert_eq!(x.checked_fraud_score(&keys, &q, 2), Some(3));
    assert_eq!(x.checked_fraud_score(&keys, &q, 0), None);
    assert_eq!(x.checked_fraud_score(&[f32::NAN.to_bits(); 2], &q, 0), Some(0));
    assert_eq!(x.checked_fraud_score(&keys[..1], &q, 2), None);
    x.offsets[1] = 6;
    assert!(!x.is_searchable(&[0]) && !x.is_searchable(&[1]));
    assert_eq!(x.checked_fraud_score(&keys, &q, 2), None);
    x.offsets[1] = 3;
    assert!(x.is_searchable(&[1, 0, 1]) && !x.is_searchable(&[2]));
    x.vectors.pop();
    assert!(!x.is_well_formed());
    assert_eq!(x.checked_fraud_score(&keys, &q, 2), None);
}

#[test]
fn decisions_on_features() {
    let b = small();
    let x = Index::from_bytes(&b);
    let keys = [1.0f32.to_bits(), 2.0f32.to_bits()];
    let mut scaled = [0i64; 14];
    scaled[0] = 390;
    assert_eq!(score(&x, &keys, &scaled, 2), Some((false, 3)));
    assert_eq!(score(&x, &keys, &scaled, 1), Some((true, 2)));
    assert_eq!(score(&x, &keys, &scaled, 0), None);
}

/// Vectors with many different distances, clusters at random.
fn random(seed: u64, n: usize, k: u32, spread: u64) -> (Vec<[i16; 16]>, Vec<bool>, Vec<u32>) {
    let mut rng = Rng(seed);
    let mut rows = Vec::new();
    let mut labels = Vec::new();
    let mut assign = Vec::new();
    for _ in 0..n {
        let mut scaled = [0i64; 14];
        for s in scaled.iter_mut() {
            *s = (rng.next() % spread) as i64;
        }
        rows.push(quantize(&scaled));
        labels.push(rng.next() % 3 == 0);
        assign.push((rng.next() % k as u64) as u32);
    }
    (rows, labels, assign)
}

/// The votes of the five nearest, those scanned first coming first.
fn by_sorting(q: &[i16; 16], rows: &[[i16; 16]], labels: &[bool]) -> u32 {
    let mut all: Vec<(i32, usize)> =
        rows.iter().enumerate().map(|(i, r)| (dist_i16(q, r), i)).collect();
    all.sort();
    all.iter().take(5).filter(|&&(_, i)| labels[i]).count() as u32
}

#[test]
fn exact_scores_are_those_of_the_five_nearest() {
    for seed in 1..20 {
        // A small spread makes for many equal distances.
        for spread in [2, 10000] {
            let (rows, labels, _) = random(seed, 60, 1, spread);
            let l = reorder(&vec![0; 60], 1, &rows, &labels);
            for q in &rows[..10] {
                let (yes, frauds) = exact(q, &l.vectors, &l.labels, 60);
                assert_eq!(frauds, by_sorting(q, &rows, &labels));
                assert_eq!(yes, frauds < 3);
            }
        }
    }
}

#[test]
fn few_vectors_all_vote() {
    let rows = [row(1), row(2), row(3)];
    let l = reorder(&[0; 3], 1, &rows, &[true, true, false]);
    assert_eq!(exact(&row(9), &l.vectors, &l.labels, 3), (true, 2));
    assert_eq!(exact(&row(9), &l.vectors, &l.labels, 0), (true, 0));
}

#[test]
fn probing_every_cluster_is_exact() {
    for seed in 1..20 {
        let (rows, labels, assign) = random(seed, 100, 8, 10000);
        let l = reorder(&assign, 8, &rows, &labels);
        let b = write_blob(100, 8, &[0; 112], &l.offsets, &l.vectors, &l.labels);
        let x = Index::from_bytes(&b);
        let keys: Vec<u32> = (0..8u32).map(|c| (c * seed as u32 % 5) << 23).collect();
        for q in &rows[..10] {
            let (_, frauds) = exact(q, &x.vectors, x.labels, 100);
            assert_eq!(x.checked_fraud_score(&keys, q, 8), Some(frauds));
            assert_eq!(x.checked_fraud_score(&keys, q, 9), Some(frauds));
            for nprobe in 1..8 {
                assert!(x.checked_fraud_score(&keys, q, nprobe).is_some());
            }
        }
    }
}

#[test]
fn ordering_by_cluster_keeps_scores_without_ties() {
    for seed in 1..20 {
        let (rows, labels, assign) = random(seed, 100, 8, 10000);
        let l = reorder(&assign, 8, &rows, &labels);
        for q in &rows[..10] {
            let mut d: Vec<i32> = rows.iter().map(|r| dist_i16(q, r)).collect();
            d.sort();
            if d[4] < d[5] {
                let (_, frauds) = exact(q, &l.vectors, &l.labels, 100);
                assert_eq!(frauds, by_sorting(q, &rows, &labels));
            }
        }
    }
}

#[test]
fn neighbours_in_probed_clusters_decide() {
    // All that is near lies in cluster 0, at different distances.
    let mut rows = Vec::new();
    let mut labels = Vec::new();
    let mut assign = Vec::new();
    for i in 0..10i16 {
        rows.push(row(i));
        labels.push(i % 2 == 0);
        assign.push(0);
        rows.push(row(5000 + i));
        labels.push(true);
        assign.push(1);
    }
    let l = reorder(&assign, 2, &rows, &labels);
    let b = write_blob(20, 2, &[0; 28], &l.offsets, &l.vectors, &l.labels);
    let x = Index::from_bytes(&b);
    let keys = [1.0f32.to_bits(), 9.0f32.to_bits()];
    let q = row(0);
    assert_eq!(x.fraud_score(&keys, &q, 1), exact(&q, &x.vectors, x.labels, 20).1);
    assert_eq!(x.fraud_score(&keys, &q, 1), 3);
}

#[test]
fn opposite_labels_give_opposite_votes() {
    for n in [0usize, 1, 4, 5, 6, 60] {
        let (rows, labels, _) = random(11, n, 1, 20);
        let opposite: Vec<bool> = labels.iter().map(|l| !l).collect();
        let assign = vec![0; n];
        let l = reorder(&assign, 1, &rows, &labels);
        let o = reorder(&assign, 1, &rows, &opposite);
        let q = row(7);
        let votes = exact(&q, &l.vectors, &l.labels, n).1 + exact(&q, &o.vectors, &o.labels, n).1;
        assert_eq!(votes as usize, n.min(5));
    }
}
