use json_diff::compare::Classification;
use json_diff::compare::Difference;
use json_diff::compare::Segment;
use json_diff::examine::examine;
use json_diff::examine::Outcome;
use json_diff::examine::Side;
use json_diff::report::Entry;
use json_diff::report::Lengths;
use json_diff::report::Relation;
use json_diff::report::Report;
use json_diff::report::Section;

#[test]
fn identical_files_are_the_same() {
    assert_eq!(examine(b"{\"a\": 1}", b"{\"a\": 1}"), Outcome::Same);
}

#[test]
fn identical_files_are_not_even_parsed() {
    assert_eq!(examine(b"not json at all", b"not json at all"), Outcome::Same);
    assert_eq!(examine(&[0xff, 0xfe], &[0xff, 0xfe]), Outcome::Same);
    assert_eq!(examine(b"", b""), Outcome::Same);
}

#[test]
fn bytes_that_are_no_text_are_unreadable() {
    assert_eq!(examine(&[0xff], b"{}"), Outcome::Unreadable(Side::First));
    assert_eq!(examine(b"{}", &[b'{', 0xc3, b'}']), Outcome::Unreadable(Side::Second));
    assert_eq!(examine(&[0xff], &[0xfe]), Outcome::Unreadable(Side::First));
}

#[test]
fn text_that_is_no_document_is_invalid() {
    assert_eq!(examine(b"{", b"{}"), Outcome::Invalid(Side::First));
    assert_eq!(examine(b"{}", b"[1,"), Outcome::Invalid(Side::Second));
    assert_eq!(examine(b"{", b"}"), Outcome::Invalid(Side::First));
}

#[test]
fn the_first_input_is_judged_before_the_second() {
    assert_eq!(examine(b"{", &[0xff]), Outcome::Invalid(Side::First));
    assert_eq!(examine(b"{}", &[0xff]), Outcome::Unreadable(Side::Second));
}

#[test]
fn two_documents_are_compared() {
    let first = "{\"name\":\"x\",\"tags\":[\"a\",\"b\"]}";
    let second = "{\"name\":\"y\",\"tags\":[\"a\",\"b\",\"c\"]}";
    let expected = Report {
        lengths: Lengths { relation: Relation::Less, first: 29, second: 33 },
        root: vec![],
        sections: vec![
            Section {
                key: "name".to_string(),
                differences: vec![Difference {
                    path: vec![Segment::Key("name".to_string())],
                    kind: Classification::Changed,
                }],
            },
            Section {
                key: "tags".to_string(),
                differences: vec![Difference {
                    path: vec![Segment::Key("tags".to_string()), Segment::Index(2)],
                    kind: Classification::AddedOnRight,
                }],
            },
        ],
        entries: vec![
            Entry { key: "name".to_string(), kind: Classification::Changed, row: 1, column: 1 },
            Entry { key: "tags".to_string(), kind: Classification::Changed, row: 1, column: 12 },
        ],
    };
    assert_eq!(examine(first.as_bytes(), second.as_bytes()), Outcome::Compared(expected));
}

#[test]
fn equal_documents_in_different_bytes_are_compared_and_unchanged() {
    let outcome = examine(b"{\"a\": [1, 2], \"b\": null}", b"{\"b\":null,\"a\":[1,2]}");
    let expected = Report {
        lengths: Lengths { relation: Relation::Greater, first: 24, second: 20 },
        root: vec![],
        sections: vec![],
        entries: vec![
            Entry { key: "b".to_string(), kind: Classification::Unchanged, row: 1, column: 1 },
            Entry { key: "a".to_string(), kind: Classification::Unchanged, row: 1, column: 10 },
        ],
    };
    assert_eq!(outcome, Outcome::Compared(expected));
}

#[test]
fn text_beyond_ascii_is_read() {
    let outcome = examine("{\"é\": \"ü\"}".as_bytes(), "{\"é\": \"u\"}".as_bytes());
    let expected = Report {
        lengths: Lengths { relation: Relation::Greater, first: 12, second: 11 },
        root: vec![],
        sections: vec![Section {
            key: "é".to_string(),
            differences: vec![Difference {
                path: vec![Segment::Key("é".to_string())],
                kind: Classification::Changed,
            }],
        }],
        entries: vec![Entry {
            key: "é".to_string(),
            kind: Classification::Changed,
            row: 1,
            column: 1,
        }],
    };
    assert_eq!(outcome, Outcome::Compared(expected));
}

#[test]
fn a_fraction_that_is_too_long_is_invalid() {
    let long = format!("{{\"a\": 0.{}}}", "0".repeat(32769));
    assert_eq!(examine(long.as_bytes(), b"{}"), Outcome::Invalid(Side::First));
    assert_eq!(examine(b"{}", long.as_bytes()), Outcome::Invalid(Side::Second));
    assert_eq!(examine(long.as_bytes(), long.as_bytes()), Outcome::Same);
}
