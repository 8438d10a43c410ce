use rinha_fraud::timeutil::parse_iso;

#[test]
fn iso_legit_example() {
    // 2026-03-11 was a Wednesday.
    let (_, h, dow) = parse_iso("2026-03-11T18:45:53Z").unwrap();
    assert_eq!(h, 18);
    assert_eq!(dow, 2);
}

#[test]
fn iso_fraud_example() {
    // 2026-03-14 was a Saturday.
    let (_, h, dow) = parse_iso("2026-03-14T05:15:12Z").unwrap();
    assert_eq!(h, 5);
    assert_eq!(dow, 5);
}

#[test]
fn seconds_since_1970() {
    assert_eq!(parse_iso("1970-01-01T00:00:00Z"), Some((0, 0, 3)));
    assert_eq!(parse_iso("2026-03-11T18:45:53Z"), Some((1773254753, 18, 2)));
    assert_eq!(parse_iso("2026-03-14T05:15:12Z"), Some((1773465312, 5, 5)));
    assert_eq!(parse_iso("9999-12-31T23:59:59Z"), Some((253402300799, 23, 4)));
}

#[test]
fn leap_days_and_centuries() {
    assert_eq!(parse_iso("2000-02-29T23:59:59Z"), Some((951868799, 23, 1)));
    assert_eq!(parse_iso("2099-12-31T23:59:59Z"), Some((4102444799, 23, 3)));
    assert_eq!(parse_iso("2100-03-01T00:00:00Z"), Some((4107542400, 0, 0)));
}

#[test]
fn dates_before_1970() {
    assert_eq!(parse_iso("1969-12-31T23:59:59Z"), Some((-1, 23, 2)));
    assert_eq!(parse_iso("1900-02-28T12:00:00Z"), Some((-2203934400, 12, 2)));
    assert_eq!(parse_iso("0001-01-01T00:00:00Z"), Some((-62135596800, 0, 0)));
}

#[test]
fn a_later_date_has_more_seconds() {
    let days = ["2024-02-28", "2024-02-29", "2024-03-01", "2024-12-31", "2025-01-01"];
    for pair in days.windows(2) {
        let a = parse_iso(&format!("{}T00:00:00Z", pair[0])).unwrap().0;
        let b = parse_iso(&format!("{}T00:00:00Z", pair[1])).unwrap().0;
        assert!(a < b);
        if pair[0] != "2024-03-01" {
            assert_eq!(b - a, 86400);
        }
    }
}

#[test]
fn hour_and_weekday_follow_from_the_seconds() {
    for s in ["2026-03-11T18:45:53Z", "2000-02-29T23:59:59Z", "1969-12-31T00:00:00Z"] {
        let (t, hour, dow) = parse_iso(s).unwrap();
        assert_eq!(t.rem_euclid(86400) / 3600, hour as i64);
        assert_eq!((t.div_euclid(86400) + 3).rem_euclid(7), dow as i64);
    }
}

#[test]
fn written_stamps_are_read_back() {
    for (y, m, d, h, mi, s) in [(2026, 3, 11, 18, 45, 53), (9, 1, 2, 3, 4, 5)] {
        let text = format!("{y:04}-{m:02}-{d:02}T{h:02}:{mi:02}:{s:02}Z");
        let midnight = format!("{y:04}-{m:02}-{d:02}T00:00:00Z");
        let (t, hour, _) = parse_iso(&text).unwrap();
        assert_eq!(hour, h);
        assert_eq!(t - parse_iso(&midnight).unwrap().0, (h * 3600 + mi * 60 + s) as i64);
    }
}

#[test]
fn short_texts_are_no_stamps() {
    assert_eq!(parse_iso(""), None);
    assert_eq!(parse_iso("2026-03-11T18:45:5"), None);
    assert_eq!(parse_iso("2026-03-11T18:45:53"), Some((1773254753, 18, 2)));
}

#[test]
fn length_is_counted_in_bytes() {
    // 18 letters and one of two bytes.
    assert_eq!(parse_iso("2026-03-11T18:45:5\u{e9}"), Some((1773254897, 18, 2)));
}

#[test]
fn only_positions_count() {
    assert_eq!(parse_iso("2026x03x11x18x45x53"), Some((1773254753, 18, 2)));
    // Fields out of their range are taken as they stand.
    assert_eq!(parse_iso("2026-13-32T25:61:61"), Some((1801533721, 25, 0)));
    assert_eq!(parse_iso("0000-00-00T00:00:00Z"), Some((-62169984000, 0, 1)));
    // A blank is 240 above a zero, modulo 256.
    assert_eq!(parse_iso("2026-03-11T 8:45:53Z"), Some((1781858753, 2408, 2)));
}

fn day(y: i64, m: i64, d: i64) -> i64 {
    parse_iso(&format!("{y:04}-{m:02}-{d:02}T00:00:00Z")).unwrap().0 / 86400
}

#[test]
fn the_next_day_is_one_more() {
    for y in [0, 1, 3, 4, 99, 100, 400, 1899, 1900, 1999, 2000, 2023, 2024, 9998] {
        let leap = y % 4 == 0 && (y % 100 != 0 || y % 400 == 0);
        let lens = [31, if leap { 29 } else { 28 }, 31, 30, 31, 30, 31, 31, 30, 31, 30, 31];
        let mut before = day(y, 1, 1) - 1;
        for m in 0..12 {
            for d in 1..=lens[m] {
                let now = day(y, m as i64 + 1, d);
                assert_eq!(now, before + 1);
                before = now;
            }
        }
        assert_eq!(day(y + 1, 1, 1), before + 1);
    }
}

#[test]
fn the_calendar_repeats_after_400_years() {
    for (y, m, d) in [(0, 1, 1), (1, 2, 28), (1600, 2, 29), (1970, 1, 1), (2026, 12, 31)] {
        assert_eq!(day(y + 400, m, d), day(y, m, d) + 146097);
    }
}
