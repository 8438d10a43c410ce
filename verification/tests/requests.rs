use rinha_fraud::http::{
    answer_body, fmt_into, itoa, ready_body, response, Action, Conn, Phase,
};

fn digits(v: usize) -> String {
    let mut buf = [0u8; 20];
    String::from_utf8(itoa(v, &mut buf).to_vec()).unwrap()
}

#[test]
fn digits_of_numbers() {
    for v in [0, 1, 9, 10, 37, 100, 999, 1000, 18446744073709551615] {
        assert_eq!(digits(v), v.to_string());
        assert_eq!(digits(v).parse(), Ok(v));
    }
}

#[test]
fn digits_stand_at_the_end_of_the_buffer() {
    let mut buf = [7u8; 20];
    assert_eq!(itoa(42, &mut buf), b"42");
    assert_eq!(&buf[18..], b"42");
    assert_eq!(buf[..18], [7u8; 18]);
    let mut zero = [7u8; 20];
    assert_eq!(itoa(0, &mut zero), b"0");
    assert_eq!(zero[0], b'0');
    assert_eq!(zero[1..], [7u8; 19]);
}

#[test]
fn responses_tell_the_length_of_the_body() {
    assert_eq!(
        response(&ready_body()),
        b"HTTP/1.1 200 OK\r\nContent-Type: application/json\r\nContent-Length: 2\r\n\
          Connection: keep-alive\r\n\r\nok"
            .to_vec()
    );
    assert_eq!(
        response(b""),
        b"HTTP/1.1 200 OK\r\nContent-Type: application/json\r\nContent-Length: 0\r\n\
          Connection: keep-alive\r\n\r\n"
            .to_vec()
    );
}

#[test]
fn decisions_have_one_decimal() {
    let scores = ["0.0", "0.2", "0.4", "0.6", "0.8", "1.0"];
    let mut out = b"left over".to_vec();
    for frauds in 0..6u32 {
        for approved in [true, false] {
            fmt_into(&mut out, approved, frauds);
            let want = format!(
                "{{\"approved\":{approved},\"fraud_score\":{}}}",
                scores[frauds as usize]
            );
            assert_eq!(out, want.as_bytes());
        }
    }
}

#[test]
fn three_frauds_are_denied() {
    assert_eq!(answer_body(Some(0)), b"{\"approved\":true,\"fraud_score\":0.0}");
    assert_eq!(answer_body(Some(2)), b"{\"approved\":true,\"fraud_score\":0.4}");
    assert_eq!(answer_body(Some(3)), b"{\"approved\":false,\"fraud_score\":0.6}");
    assert_eq!(answer_body(Some(5)), b"{\"approved\":false,\"fraud_score\":1.0}");
}

#[test]
fn what_cannot_be_read_is_approved() {
    assert_eq!(answer_body(None), b"{\"approved\":true,\"fraud_score\":0.0}");
    assert_eq!(answer_body(None), answer_body(Some(0)));
}

#[test]
fn a_post_is_scored() {
    let mut c = Conn::new();
    assert_eq!(c.on_line(Some("POST /fraud-score HTTP/1.1\r\n")), Action::ReadLine);
    assert_eq!(c.phase, Phase::Header);
    assert_eq!(c.on_line(Some("Host: localhost\r\n")), Action::ReadLine);
    assert_eq!(c.on_line(Some("content-LENGTH:  457 \r\n")), Action::ReadLine);
    assert_eq!(c.on_line(Some("\r\n")), Action::Score(457));
    assert_eq!(c.phase, Phase::Request);
}

#[test]
fn a_get_is_answered_at_once() {
    let mut c = Conn::new();
    assert_eq!(c.on_line(Some("GET /ready HTTP/1.1\r\n")), Action::ReadLine);
    assert_eq!(c.on_line(Some("Content-Length: 9\r\n")), Action::ReadLine);
    assert_eq!(c.on_line(Some(" \t\r\n")), Action::Ready);
}

#[test]
fn a_connection_serves_one_request_after_the_other() {
    let mut c = Conn::new();
    for _ in 0..2 {
        assert_eq!(c.on_line(Some("POST / HTTP/1.1\n")), Action::ReadLine);
        assert_eq!(c.on_line(Some("Content-Length: 3\n")), Action::ReadLine);
        assert_eq!(c.on_line(Some("\n")), Action::Score(3));
        // The length does not carry over.
        assert_eq!(c.on_line(Some("PUT / HTTP/1.1\n")), Action::ReadLine);
        assert_eq!(c.on_line(Some("\n")), Action::Score(0));
        assert_eq!(c.on_line(Some("GET / HTTP/1.1\n")), Action::ReadLine);
        assert_eq!(c.on_line(Some("\n")), Action::Ready);
    }
}

#[test]
fn the_last_length_counts() {
    let length_of = |headers: &[&str]| {
        let mut c = Conn::new();
        c.on_line(Some("POST / HTTP/1.1\r\n"));
        for h in headers {
            assert_eq!(c.on_line(Some(h)), Action::ReadLine);
        }
        c.on_line(Some("\r\n"))
    };
    assert_eq!(length_of(&["Content-Length: 5\r\n", "Content-Length: 6\r\n"]), Action::Score(6));
    assert_eq!(length_of(&["Content-Length: 5\r\n", "Content-Length: x\r\n"]), Action::Score(0));
    assert_eq!(length_of(&["Content-Length:+12\r\n"]), Action::Score(12));
    assert_eq!(length_of(&["Content-Length: -12\r\n"]), Action::Score(0));
    assert_eq!(length_of(&["Content-Length : 12\r\n"]), Action::Score(0));
    assert_eq!(length_of(&["X-Content-Length: 12\r\n"]), Action::Score(0));
    assert_eq!(length_of(&["Content-Length 12\r\n"]), Action::Score(0));
    assert_eq!(length_of(&["Content-Length: 1:2\r\n"]), Action::Score(0));
    assert_eq!(length_of(&[": 12\r\n"]), Action::Score(0));
    // The Kelvin sign is no ASCII letter.
    assert_eq!(length_of(&["Content-Length: 12\u{212a}\r\n"]), Action::Score(0));
}

#[test]
fn the_end_closes_the_connection() {
    let mut c = Conn::new();
    assert_eq!(c.on_line(Some("")), Action::Close);
    assert_eq!(c.on_line(None), Action::Close);
    assert_eq!(c, Conn::new());
    c.on_line(Some("POST / HTTP/1.1\r\n"));
    assert_eq!(c.on_line(Some("")), Action::Close);
    assert_eq!(c.on_line(None), Action::Close);
    // A request line may be blank, as long as it is a line.
    let mut d = Conn::new();
    assert_eq!(d.on_line(Some("\n")), Action::ReadLine);
    assert_eq!(d.phase, Phase::Header);
    assert!(!d.is_post);
}
