use rinha_fraud::config::{name_list, number_list, port_setting, usize_setting};
use rinha_fraud::consts::mcc_risk;

#[test]
fn settings_fall_back_to_their_default() {
    assert_eq!(usize_setting(None, 24), 24);
    assert_eq!(usize_setting(Some(""), 24), 24);
    assert_eq!(usize_setting(Some("many"), 24), 24);
    assert_eq!(usize_setting(Some("-1"), 24), 24);
    assert_eq!(usize_setting(Some("+"), 24), 24);
    assert_eq!(usize_setting(Some(" 8"), 24), 24);
    assert_eq!(usize_setting(Some("18446744073709551616"), 24), 24);
}

#[test]
fn settings_are_read() {
    assert_eq!(usize_setting(Some("8"), 24), 8);
    assert_eq!(usize_setting(Some("+08"), 24), 8);
    assert_eq!(usize_setting(Some("0"), 24), 0);
    assert_eq!(usize_setting(Some("18446744073709551615"), 24), usize::MAX);
    assert_eq!(usize_setting(Some("00000000000000000000000000007"), 24), 7);
}

#[test]
fn a_port_has_sixteen_bits() {
    assert_eq!(port_setting(None, 9999), 9999);
    assert_eq!(port_setting(Some("80"), 9999), 80);
    assert_eq!(port_setting(Some("65535"), 9999), 65535);
    assert_eq!(port_setting(Some("65536"), 9999), 9999);
}

#[test]
fn settings_are_read_as_the_standard_library_reads_them() {
    let texts = ["1", "+1", "++1", "1 ", "", "+", "0x1", "12a", "999999999999999999999", "\u{0661}"];
    for s in texts {
        assert_eq!(usize_setting(Some(s), 77), s.parse().unwrap_or(77));
        assert_eq!(port_setting(Some(s), 77), s.parse().unwrap_or(77));
    }
}

#[test]
fn lists_of_numbers_leave_out_the_rest() {
    assert_eq!(number_list("8,16,24"), vec![8, 16, 24]);
    assert_eq!(number_list("8, 16,x,,24"), vec![8, 24]);
    assert_eq!(number_list(""), Vec::<usize>::new());
    assert_eq!(number_list("7"), vec![7]);
}

#[test]
fn lists_of_names_are_trimmed() {
    assert_eq!(name_list("/s/api1.sock,/s/api2.sock"), vec!["/s/api1.sock", "/s/api2.sock"]);
    assert_eq!(name_list(" a ,\tb\n,\u{a0}c\u{2003}"), vec!["a", "b", "c"]);
    assert_eq!(name_list(""), vec![""]);
    assert_eq!(name_list("a,,b c"), vec!["a", "", "b c"]);
}

#[test]
fn names_put_together_are_the_list() {
    for s in ["a,b,c", "", ",", "one", ",x,,"] {
        assert_eq!(name_list(s).join(","), s);
    }
}

#[test]
fn risks_of_merchant_categories() {
    let table = [
        ("5411", 0.15f32),
        ("5812", 0.30),
        ("5912", 0.20),
        ("5944", 0.45),
        ("7801", 0.80),
        ("7802", 0.75),
        ("7995", 0.85),
        ("4511", 0.35),
        ("5311", 0.25),
        ("5999", 0.50),
        ("", 0.5),
        ("541", 0.5),
        ("54111", 0.5),
        ("0000", 0.5),
    ];
    for (mcc, risk) in table {
        assert_eq!(mcc_risk(mcc) as f32 / 100.0, risk);
    }
}
