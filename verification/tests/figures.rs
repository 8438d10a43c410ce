use rinha_fraud::duplicates::{duplicates, Duplicates};
use rinha_fraud::stats::{misses, Confusion};

#[test]
fn outcomes_are_counted() {
    let results = [
        (true, true),
        (false, false),
        (true, false),
        (false, true),
        (true, true),
        (true, false),
        (true, true),
    ];
    let c = Confusion::tally(&results);
    assert_eq!(c, Confusion { tp: 1, tn: 3, fp: 1, fn_: 2 });
    assert_eq!(c.total(), 7);
    assert_eq!(c.failures(), 3);
    assert_eq!(c.weighted(), 7);
}

#[test]
fn no_outcomes() {
    let c = Confusion::tally(&[]);
    assert_eq!(c, Confusion { tp: 0, tn: 0, fp: 0, fn_: 0 });
    assert_eq!((c.total(), c.failures(), c.weighted()), (0, 0, 0));
}

#[test]
fn too_many_failures() {
    let of = |tp, tn, fp, fn_| Confusion { tp, tn, fp, fn_ };
    assert!(!of(0, 0, 0, 0).failed());
    assert!(!of(0, 85, 15, 0).failed());
    assert!(!of(10, 7, 1, 2).failed());
    assert!(of(0, 84, 15, 1).failed());
    assert!(of(0, 0, 0, 1).failed());
    assert!(of(0, u32::MAX, u32::MAX, u32::MAX).failed());
    for wrong in 0..=100 {
        let c = of(100 - wrong, 0, 0, wrong);
        assert_eq!(c.failed(), c.failures() as f64 / c.total() as f64 > 0.15);
    }
}

#[test]
fn wrong_decisions_are_listed() {
    let results = [(true, 1), (false, 4), (true, 0), (false, 3)];
    let expected = [true, true, false, false];
    assert_eq!(misses(&results, &expected), vec![(1, 4, true), (2, 0, false)]);
    assert_eq!(misses(&[], &[]), vec![]);
}

#[test]
fn as_many_are_listed_as_failed() {
    let results = [(true, 1), (false, 4), (true, 0), (false, 3), (true, 2)];
    let expected = [false, true, false, true, true];
    let pairs: Vec<(bool, bool)> =
        results.iter().zip(&expected).map(|(r, e)| (r.0, *e)).collect();
    let c = Confusion::tally(&pairs);
    assert_eq!(misses(&results, &expected).len() as u64, c.failures());
}

fn key(x: i16) -> [i16; 14] {
    let mut k = [0i16; 14];
    k[13] = x;
    k
}

#[test]
fn repeated_vectors_are_counted() {
    let keys = [key(1), key(2), key(1), key(3), key(1), key(2), key(-1)];
    let labels = [true, false, false, true, true, false, false];
    assert_eq!(
        duplicates(&keys, &labels),
        Duplicates { total: 7, unique: 4, mixed: 1, max_dups: 3 }
    );
}

#[test]
fn vectors_differ_in_any_place() {
    let mut keys = vec![[0i16; 14]; 1];
    for i in 0..14 {
        let mut k = [0i16; 14];
        k[i] = 1;
        keys.push(k);
        k[i] = -1;
        keys.push(k);
    }
    let labels = vec![false; keys.len()];
    let d = duplicates(&keys, &labels);
    assert_eq!(d, Duplicates { total: 29, unique: 29, mixed: 0, max_dups: 1 });
}

#[test]
fn no_vectors() {
    assert_eq!(duplicates(&[], &[]), Duplicates { total: 0, unique: 0, mixed: 0, max_dups: 0 });
}

#[test]
fn vectors_of_one_bucket_are_kept_apart() {
    // Many vectors, few of them alike.
    let mut keys = Vec::new();
    let mut labels = Vec::new();
    for i in 0..2000i32 {
        let mut k = [0i16; 14];
        for (j, slot) in k.iter_mut().enumerate() {
            *slot = ((i / 2) * 31 + j as i32 * 7 - 3000) as i16;
        }
        keys.push(k);
        labels.push(i % 4 == 0);
    }
    let d = duplicates(&keys, &labels);
    assert_eq!(d, Duplicates { total: 2000, unique: 1000, mixed: 500, max_dups: 2 });
}
