use rinha_fraud::balance::{after_attempt, Retry, RoundRobin};

#[test]
fn backends_take_turns() {
    let mut rr = RoundRobin::new();
    let got: Vec<usize> = (0..7).map(|_| rr.next(3)).collect();
    assert_eq!(got, vec![0, 1, 2, 0, 1, 2, 0]);
    assert_eq!(rr.dealt, 7);
}

#[test]
fn every_backend_gets_its_turn() {
    let mut rr = RoundRobin { dealt: 41 };
    let mut seen = vec![0; 5];
    for _ in 0..5 {
        seen[rr.next(5)] += 1;
    }
    assert_eq!(seen, vec![1; 5]);
}

#[test]
fn the_count_starts_over() {
    let mut rr = RoundRobin { dealt: usize::MAX };
    assert_eq!(rr.next(2), 1);
    assert_eq!(rr.dealt, 0);
    assert_eq!(rr.next(2), 0);
}

#[test]
fn a_backend_is_tried_for_ten_seconds() {
    let mut attempt = 1;
    let mut waited = 0;
    loop {
        match after_attempt(attempt, false) {
            Retry::Again(ms) => waited += ms,
            Retry::GiveUp(ms) => {
                waited += ms;
                break;
            }
            Retry::Connected => unreachable!(),
        }
        attempt += 1;
    }
    assert_eq!(attempt, 200);
    assert_eq!(waited, 10_000);
}

#[test]
fn a_connection_is_used() {
    assert_eq!(after_attempt(1, true), Retry::Connected);
    assert_eq!(after_attempt(200, true), Retry::Connected);
    assert_eq!(after_attempt(1, false), Retry::Again(50));
    assert_eq!(after_attempt(199, false), Retry::Again(50));
    assert_eq!(after_attempt(200, false), Retry::GiveUp(50));
}
