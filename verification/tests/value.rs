use json_diff::number::Number;
use json_diff::parse::fits;
use json_diff::parse::parse;
use json_diff::value::Member;
use json_diff::value::Value;

fn doc(text: &str) -> Value {
    parse(text).unwrap()
}

fn whole(n: u64) -> Value {
    Value::Number(Number::from_u64(n))
}

fn member(key: &str, value: Value) -> Member {
    Member { key: key.to_string(), value }
}

#[test]
fn parse_builds_the_tree() {
    let expected = Value::Object(vec![
        member("name", Value::Text("x".to_string())),
        member("tags", Value::Array(vec![Value::Text("a".to_string()), Value::Null])),
        member("n", whole(12)),
        member("ok", Value::Boolean(true)),
        member("inner", Value::Object(vec![member("k", Value::Boolean(false))])),
    ]);
    let parsed =
        doc("{\"name\":\"x\",\"tags\":[\"a\",null],\"n\":12,\"ok\":true,\"inner\":{\"k\":false}}");
    assert_eq!(parsed, expected);
}

#[test]
fn parse_takes_numbers_apart() {
    assert_eq!(
        doc("-1.5"),
        Value::Number(Number { positive: false, mantissa: 15, exponent: -1 })
    );
    assert_eq!(doc("2e3"), Value::Number(Number { positive: true, mantissa: 2, exponent: 3 }));
}

#[test]
fn parse_keeps_long_and_short_strings_alike() {
    let long = "a string that is much longer than thirty bytes, for certain";
    assert_eq!(doc(&format!("\"{}\"", long)), Value::Text(long.to_string()));
    assert_eq!(doc("\"s\""), Value::Text("s".to_string()));
}

#[test]
fn parse_keeps_one_member_per_key() {
    assert_eq!(doc("{\"a\": 1, \"b\": 2, \"a\": 3}"), Value::Object(vec![
        member("a", whole(3)),
        member("b", whole(2)),
    ]));
}

#[test]
fn parse_rejects_what_is_not_json() {
    assert_eq!(parse("{"), None);
    assert_eq!(parse(""), None);
    assert_eq!(parse("{\"a\": }"), None);
    assert_eq!(parse("[1, 2"), None);
}

#[test]
fn kinds_are_told_apart() {
    assert!(doc("{}").is_object());
    assert!(!doc("[]").is_object());
    assert!(!doc("1").is_object());
    assert!(doc("[]").is_array());
    assert!(!doc("{}").is_array());
    assert!(!doc("null").is_array());
}

#[test]
fn len_counts_elements_and_members() {
    assert_eq!(doc("[1, 2, 3]").len(), 3);
    assert_eq!(doc("{\"a\": 1, \"b\": 2}").len(), 2);
    assert_eq!(doc("\"text\"").len(), 0);
    assert_eq!(doc("7").len(), 0);
}

#[test]
fn lookup_finds_members_by_key() {
    let value = doc("{\"a\": 1, \"b\": [2]}");
    assert_eq!(value.lookup("a"), Some(&whole(1)));
    assert_eq!(value.lookup("b"), Some(&Value::Array(vec![whole(2)])));
    assert_eq!(value.lookup("c"), None);
    assert!(value.has_key("a"));
    assert!(!value.has_key("A"));
    assert!(!doc("[1]").has_key("0"));
    assert_eq!(doc("1").lookup("a"), None);
}

#[test]
fn lookup_takes_the_first_of_two_members_with_one_key() {
    let value = Value::Object(vec![member("k", whole(1)), member("k", whole(2))]);
    assert_eq!(value.lookup("k"), Some(&whole(1)));
}

#[test]
fn equal_values_are_equal() {
    let texts = ["null", "true", "12", "\"s\"", "[1, [2], {\"a\": null}]", "{\"a\": {\"b\": [1]}}"];
    for text in texts.iter() {
        assert!(doc(text).equals(&doc(text)));
    }
}

#[test]
fn values_of_different_kinds_are_unequal() {
    let texts = ["null", "false", "0", "\"0\"", "[]", "{}"];
    for (i, x) in texts.iter().enumerate() {
        for (j, y) in texts.iter().enumerate() {
            assert_eq!(doc(x).equals(&doc(y)), i == j);
        }
    }
}

#[test]
fn arrays_are_equal_element_by_element() {
    assert!(!doc("[1, 2]").equals(&doc("[2, 1]")));
    assert!(!doc("[1, 2]").equals(&doc("[1, 2, 3]")));
    assert!(!doc("[1, 2, 3]").equals(&doc("[1, 2]")));
    assert!(doc("[1, [2, 3]]").equals(&doc("[1, [2, 3]]")));
    assert!(!doc("[1, [2, 3]]").equals(&doc("[1, [2, 4]]")));
}

#[test]
fn objects_are_equal_whatever_the_order_of_their_members() {
    assert!(doc("{\"a\": 1, \"b\": 2}").equals(&doc("{\"b\": 2, \"a\": 1}")));
    assert!(!doc("{\"a\": 1, \"b\": 2}").equals(&doc("{\"a\": 1}")));
    assert!(!doc("{\"a\": 1}").equals(&doc("{\"a\": 1, \"b\": 2}")));
    assert!(!doc("{\"a\": 1}").equals(&doc("{\"b\": 1}")));
    assert!(!doc("{\"a\": 1}").equals(&doc("{\"a\": 2}")));
}

#[test]
fn numbers_are_equal_by_value() {
    assert!(doc("100").equals(&doc("1e2")));
    assert!(doc("1.50").equals(&doc("1.5")));
    assert!(doc("[0]").equals(&doc("[-0]")));
    assert!(!doc("1").equals(&doc("\"1\"")));
}

#[test]
fn equality_of_values_does_not_depend_on_the_order() {
    let texts = [
        "null", "1", "1.0", "[1]", "[1.0]", "{\"a\": [1]}", "{\"a\": [1.0]}", "{\"a\": 1, \"b\": 2}",
        "{\"b\": 2, \"a\": 1}", "{\"a\": 1}",
    ];
    for x in texts.iter() {
        for y in texts.iter() {
            assert_eq!(doc(x).equals(&doc(y)), doc(y).equals(&doc(x)));
        }
    }
}

#[test]
fn a_fraction_of_the_longest_length_is_read() {
    let text = format!("0.{}", "0".repeat(32767));
    assert!(fits(&text));
    assert_eq!(
        parse(&text),
        Some(Value::Number(Number { positive: true, mantissa: 0, exponent: -32767 }))
    );
    assert!(doc(&text).equals(&doc("0")));
    let one = format!("[1.{}]", "0".repeat(32767));
    assert!(doc(&one).equals(&doc("[1]")));
}

#[test]
fn a_fraction_that_is_too_long_is_no_document() {
    let zeros = format!("0.{}", "0".repeat(32769));
    assert!(!fits(&zeros));
    assert_eq!(parse(&zeros), None);
    let inside = format!("{{\"a\": [1, -0.{}1]}}", "0".repeat(40000));
    assert_eq!(parse(&inside), None);
    let just_over = format!("0.{}", "0".repeat(32768));
    assert_eq!(parse(&just_over), None);
}

#[test]
fn the_scan_for_long_fractions_looks_at_the_bytes_alone() {
    let in_a_string = format!("\"x.{}\"", "7".repeat(32768));
    assert!(!fits(&in_a_string));
    assert_eq!(parse(&in_a_string), None);
    let no_point = format!("\"{}\"", "7".repeat(40000));
    assert!(fits(&no_point));
    assert_eq!(parse(&no_point), Some(Value::Text("7".repeat(40000))));
    let broken_run = format!("0.{}e1", "0".repeat(100));
    assert!(fits(&broken_run));
    assert!(fits(""));
    assert!(fits("."));
    assert!(fits("1.5"));
}
