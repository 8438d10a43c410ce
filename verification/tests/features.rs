use rinha_fraud::consts::{DIM, PAD, SCALE};
use rinha_fraud::index::dist_i16;
use rinha_fraud::vectorize::{
    quantize, vectorize, Customer, LastTx, Merchant, Request, Term, Terminal, Transaction,
};

fn request<'a>(known: Vec<&'a str>, last: Option<LastTx>) -> Request<'a> {
    Request {
        transaction: Transaction {
            amount: 41.12f32.to_bits(),
            installments: 2.0f32.to_bits(),
            requested_at: "2026-03-11T18:45:53Z".to_string(),
        },
        customer: Customer {
            avg_amount: 82.24f32.to_bits(),
            tx_count_24h: 3.0f32.to_bits(),
            known_merchants: known,
        },
        merchant: Merchant { id: "MERC-016", mcc: "5411", avg_amount: 60.25f32.to_bits() },
        terminal: Terminal {
            is_online: false,
            card_present: true,
            km_from_home: 29.23f32.to_bits(),
        },
        last_transaction: last,
    }
}

fn last(timestamp: &str) -> Option<LastTx> {
    Some(LastTx { timestamp: timestamp.to_string(), km_from_current: 18.5f32.to_bits() })
}

#[test]
fn the_fourteen_features() {
    let r = request(vec!["MERC-003", "MERC-016"], None);
    assert_eq!(
        vectorize(&r),
        [
            Term::Clamped { value: 41.12f32.to_bits(), limit: 10000 },
            Term::Clamped { value: 2.0f32.to_bits(), limit: 12 },
            Term::ClampedRatio {
                value: 41.12f32.to_bits(),
                other: 82.24f32.to_bits(),
                limit: 10
            },
            Term::Share { part: 18, whole: 23 },
            Term::Share { part: 2, whole: 6 },
            Term::Absent,
            Term::Absent,
            Term::Clamped { value: 29.23f32.to_bits(), limit: 1000 },
            Term::Clamped { value: 3.0f32.to_bits(), limit: 20 },
            Term::Share { part: 0, whole: 1 },
            Term::Share { part: 1, whole: 1 },
            Term::Share { part: 0, whole: 1 },
            Term::Share { part: 15, whole: 100 },
            Term::Clamped { value: 60.25f32.to_bits(), limit: 10000 },
        ]
    );
}

#[test]
fn the_last_transaction() {
    let terms = vectorize(&request(vec![], last("2026-03-11T14:58:35Z")));
    assert_eq!(terms[5], Term::Elapsed { seconds: 13638, limit: 1440 });
    assert_eq!(terms[6], Term::Clamped { value: 18.5f32.to_bits(), limit: 1000 });
    // One that lies ahead.
    let ahead = vectorize(&request(vec![], last("2026-03-11T18:46:00Z")));
    assert_eq!(ahead[5], Term::Elapsed { seconds: -7, limit: 1440 });
    // One that cannot be read counts as just now.
    let unread = vectorize(&request(vec![], last("yesterday")));
    assert_eq!(unread[5], Term::Elapsed { seconds: 0, limit: 1440 });
}

#[test]
fn a_request_without_a_time() {
    let mut r = request(vec![], last("1970-01-01T00:01:00Z"));
    r.transaction.requested_at = "now".to_string();
    let terms = vectorize(&r);
    assert_eq!(terms[3], Term::Share { part: 0, whole: 23 });
    assert_eq!(terms[4], Term::Share { part: 0, whole: 6 });
    assert_eq!(terms[5], Term::Elapsed { seconds: -60, limit: 1440 });
}

#[test]
fn an_unknown_merchant() {
    assert_eq!(vectorize(&request(vec![], None))[11], Term::Share { part: 1, whole: 1 });
    assert_eq!(
        vectorize(&request(vec!["MERC-01", "MERC-0166", "merc-016"], None))[11],
        Term::Share { part: 1, whole: 1 }
    );
    assert_eq!(
        vectorize(&request(vec!["x", "MERC-016", "y"], None))[11],
        Term::Share { part: 0, whole: 1 }
    );
}

#[test]
fn a_customer_without_an_average() {
    for avg in [0.0f32, -0.0, -1.0, f32::NAN, f32::NEG_INFINITY] {
        let mut r = request(vec![], None);
        r.customer.avg_amount = avg.to_bits();
        assert_eq!(vectorize(&r)[2], Term::Share { part: 1, whole: 1 });
    }
    for avg in [f32::MIN_POSITIVE, 1e-45, 1.0, f32::INFINITY] {
        let mut r = request(vec![], None);
        r.customer.avg_amount = avg.to_bits();
        assert_eq!(
            vectorize(&r)[2],
            Term::ClampedRatio { value: r.transaction.amount, other: avg.to_bits(), limit: 10 }
        );
    }
}

#[test]
fn rows_are_padded_with_zeros() {
    let scaled = [1i64, 2, 3, 4, 5, -10000, -10000, 8, 9, 10, 11, 12, 13, 10000];
    let row = quantize(&scaled);
    for i in 0..DIM {
        assert_eq!(row[i] as i64, scaled[i]);
    }
    assert_eq!(row[DIM..], [0i16; 2]);
    assert_eq!(row.len(), PAD);
}

#[test]
fn numbers_out_of_range_are_moved_to_its_end() {
    let mut scaled = [0i64; 14];
    scaled[0] = 32767;
    scaled[1] = 32768;
    scaled[2] = i64::MAX;
    scaled[3] = -32768;
    scaled[4] = -32769;
    scaled[5] = i64::MIN;
    let row = quantize(&scaled);
    assert_eq!(row[..6], [32767, 32767, 32767, -32768, -32768, -32768]);
    for x in [-40000.0f32, -1.4, 0.0, 0.6, 32767.0, 40000.0, f32::NAN, f32::INFINITY] {
        scaled[0] = x.round() as i64;
        assert_eq!(quantize(&scaled)[0], x.round() as i16);
    }
}

#[test]
fn squared_distances() {
    let a = quantize(&[3i64; 14]);
    let b = quantize(&[1i64; 14]);
    assert_eq!(dist_i16(&a, &b), 56);
    assert_eq!(dist_i16(&b, &a), 56);
    assert_eq!(dist_i16(&a, &a), 0);
    // What stands behind a row does not count.
    let mut longer = b.to_vec();
    longer.push(1000);
    assert_eq!(dist_i16(&a, &longer), 56);
}

#[test]
fn the_largest_distance_of_features_fits() {
    let mut low = [0i64; 14];
    low[5] = -SCALE;
    low[6] = -SCALE;
    let high = [SCALE; 14];
    assert_eq!(dist_i16(&quantize(&low), &quantize(&high)), 2_000_000_000);
}

#[test]
fn larger_distances_wrap_around() {
    let a = [i16::MAX; 16];
    let b = [i16::MIN; 16];
    // 16 * 65535 * 65535 modulo 2^32.
    assert_eq!(dist_i16(&a, &b), (16i64 * 65535 * 65535) as i32);
}
