use flate2::write::GzEncoder;
use flate2::Compression;
use rinha_fraud::refs::{parse_refs, read_references, Reference, ReferenceError};
use std::io::Write;

fn gzip(data: &[u8]) -> Vec<u8> {
    let mut e = GzEncoder::new(Vec::new(), Compression::default());
    e.write_all(data).unwrap();
    e.finish().unwrap()
}

fn tokens(data: &[u8], r: &Reference) -> Vec<String> {
    r.numbers.iter().map(|&(a, b)| String::from_utf8(data[a..b].to_vec()).unwrap()).collect()
}

fn object(first: &str, label: &str, sep: &str) -> String {
    let mut numbers = vec![first.to_string()];
    for i in 1..14 {
        numbers.push(format!("0.{i:04}"));
    }
    format!("{{\"vector\":[{}],\"label\":\"{label}\"}}", numbers.join(sep))
}

fn document(objects: &[String], sep: &str) -> String {
    format!("[{}]", objects.join(sep))
}

#[test]
fn a_document_is_read_back() {
    for sep in [",", ", ", ",\n", " \t\r\n,"] {
        let text = document(
            &[object("0.25", "legit", sep), object("-1", "fraud", sep), object("1e-3", "x", sep)],
            sep,
        );
        let refs = parse_refs(text.as_bytes()).unwrap();
        assert_eq!(refs.len(), 3);
        assert_eq!(refs.iter().map(|r| r.fraud).collect::<Vec<_>>(), vec![false, true, false]);
        for (r, first) in refs.iter().zip(["0.25", "-1", "1e-3"]) {
            let t = tokens(text.as_bytes(), r);
            assert_eq!(t[0], first);
            for (i, token) in t.iter().enumerate().skip(1) {
                assert_eq!(*token, format!("0.{i:04}"));
            }
        }
    }
}

#[test]
fn nothing_to_read() {
    for text in ["", "[]", "[ \n ]", "no bracket", "[", "[{}]", "[ , { } ,"] {
        assert_eq!(parse_refs(text.as_bytes()).unwrap().len(), 0);
    }
}

#[test]
fn what_stands_around_the_array_is_ignored() {
    let text = format!("data: [{}] and [more", object("1", "fraud", ","));
    let refs = parse_refs(text.as_bytes()).unwrap();
    assert_eq!(refs.len(), 1);
    assert!(refs[0].fraud);
}

#[test]
fn only_the_exact_label_is_a_fraud() {
    for (label, fraud) in
        [("fraud", true), ("Fraud", false), ("frau", false), ("frauds", false), ("", false)]
    {
        let text = document(&[object("1", label, ",")], ",");
        assert_eq!(parse_refs(text.as_bytes()).unwrap()[0].fraud, fraud);
    }
}

#[test]
fn numbers_beyond_the_last_are_skipped() {
    let numbers: Vec<String> = (0..20).map(|i| i.to_string()).collect();
    let text = format!("[{{\"vector\":[{}],\"label\":\"fraud\"}}]", numbers.join(","));
    let refs = parse_refs(text.as_bytes()).unwrap();
    assert_eq!(tokens(text.as_bytes(), &refs[0]), numbers[..14]);
    assert!(refs[0].fraud);
}

#[test]
fn a_record_that_lacks_a_number_is_refused() {
    for n in 0..16 {
        let numbers: Vec<String> = (0..n).map(|i| i.to_string()).collect();
        for (sep, gap) in [(",", ""), (" , ", " \n")] {
            let short = format!(
                "{{\"vector\":[{gap}{}{gap}],\"label\":\"legit\"}}",
                numbers.join(sep)
            );
            let whole = object("1", "fraud", ",");
            for text in [
                document(&[short.clone()], ","),
                document(&[whole.clone(), short.clone()], ","),
                document(&[short.clone(), whole.clone()], ","),
            ] {
                assert_eq!(parse_refs(text.as_bytes()).is_some(), n >= 14, "{n} numbers");
            }
        }
    }
    let gz = gzip(b"[{\"vector\":[1,2,3],\"label\":\"fraud\"}]");
    assert_eq!(read_references(&gz).err(), Some(ReferenceError::BadRecord));
}

/// What the records of a text say.
fn contents(text: &str) -> Vec<(Vec<String>, bool)> {
    let refs = parse_refs(text.as_bytes()).unwrap();
    refs.iter().map(|r| (tokens(text.as_bytes(), r), r.fraud)).collect()
}

#[test]
fn white_space_changes_nothing() {
    let numbers: Vec<String> = (0..14).map(|i| format!("0.{i}")).collect();
    let dense = format!(
        "[{{\"vector\":[{}],\"label\":\"fraud\"}},{{\"vector\":[{}],\"label\":\"legit\"}}]",
        numbers.join(","),
        numbers.join(",")
    );
    assert_eq!(contents(&dense), vec![(numbers.clone(), true), (numbers.clone(), false)]);
    for w in [" ", "\n", "\r\n", "\t \n"] {
        let mut loose = String::new();
        for c in dense.chars() {
            // A space on either side of every token that is one byte long.
            if "[]{}:,".contains(c) {
                loose += &format!("{w}{c}{w}");
            } else {
                loose.push(c);
            }
        }
        assert_eq!(contents(&loose), contents(&dense));
    }
}

#[test]
fn joined_lists_give_joined_records() {
    let a = [object("1", "fraud", ","), object("2", "legit", ", ")].join(",\n");
    let b = [object("3", "legit", ","), object("4", "fraud", " ,"), object("5", "", ",")].join(",");
    for sep in [",", " ,\n ", ",\t"] {
        let mut both = contents(&format!("[{a}]"));
        both.extend(contents(&format!("[ {b} ]")));
        assert_eq!(contents(&format!("[{a}{sep}{b}]")), both);
        assert_eq!(both.len(), 5);
    }
}

#[test]
fn a_record_cut_short() {
    let whole = document(&[object("1", "fraud", ",")], ",");
    let label = whole.find("\"label\"").unwrap();
    // Without the bracket behind the numbers, the colon or the quote there is no record.
    for cut in [3, 20, label - 3, label, label + 7, label + 8] {
        assert!(parse_refs(whole[..cut].as_bytes()).is_none(), "cut at {cut}");
    }
    // The label itself may be cut short, and the quote behind it may be missing.
    let open = whole.rfind("\"fraud").unwrap();
    assert!(!parse_refs(whole[..open + 3].as_bytes()).unwrap()[0].fraud);
    assert!(parse_refs(whole[..open + 6].as_bytes()).unwrap()[0].fraud);
}

#[test]
fn a_gzip_file_is_decompressed_and_read() {
    let text = document(&[object("0.5", "fraud", ","), object("0.75", "legit", ",")], ", ");
    let gz = gzip(text.as_bytes());
    let (data, refs) = read_references(&gz).unwrap();
    assert_ne!(gz, text.as_bytes());
    assert_eq!(data, text.as_bytes());
    assert_eq!(refs.len(), 2);
    assert_eq!(tokens(&data, &refs[1])[0], "0.75");
    assert!(refs[0].fraud && !refs[1].fraud);
}

#[test]
fn members_of_a_gzip_file_are_joined() {
    let text = document(&[object("0.5", "fraud", ","), object("0.75", "legit", ",")], ",");
    let (a, b) = text.as_bytes().split_at(50);
    let mut gz = gzip(a);
    gz.extend(gzip(b));
    let (data, refs) = read_references(&gz).unwrap();
    assert_eq!(data, text.as_bytes());
    assert_eq!(refs.len(), 2);
}

#[test]
fn what_is_no_gzip_file() {
    let text = document(&[object("0.5", "fraud", ",")], ",");
    assert_eq!(read_references(text.as_bytes()).err(), Some(ReferenceError::NotGzip));
    let gz = gzip(text.as_bytes());
    assert_eq!(read_references(&gz[..gz.len() / 2]).err(), Some(ReferenceError::NotGzip));
}

#[test]
fn a_gzip_file_with_a_record_cut_short() {
    let gz = gzip(b"[{\"vector\":[1,2,3");
    assert_eq!(read_references(&gz).err(), Some(ReferenceError::BadRecord));
}
