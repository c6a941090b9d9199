use json_diff::compare::compare;
use json_diff::compare::Classification;
use json_diff::compare::Difference;
use json_diff::compare::Segment;
use json_diff::parse::parse;
use json_diff::value::Value;

fn doc(text: &str) -> Value {
    parse(text).unwrap()
}

fn key(name: &str) -> Segment {
    Segment::Key(name.to_string())
}

fn at(path: Vec<Segment>, kind: Classification) -> Difference {
    Difference { path, kind }
}

fn found(a: &str, b: &str) -> Vec<Difference> {
    compare(&doc(a), &doc(b), &Vec::new())
}

#[test]
fn a_value_against_itself_yields_nothing() {
    let texts = [
        "null",
        "1",
        "\"s\"",
        "[]",
        "{}",
        "[1, [2, {\"a\": 3}]]",
        "{\"name\":\"x\",\"tags\":[\"a\",\"b\"],\"deep\":{\"k\":[{\"z\":null}]}}",
    ];
    for text in texts.iter() {
        assert_eq!(found(text, text), vec![]);
    }
}

#[test]
fn equal_objects_in_another_order_yield_nothing() {
    assert_eq!(found("{\"a\": 1, \"b\": [2]}", "{\"b\": [2], \"a\": 1}"), vec![]);
}

#[test]
fn unequal_leaves_yield_one_change_at_the_path() {
    assert_eq!(found("1", "2"), vec![at(vec![], Classification::Changed)]);
    assert_eq!(found("\"1\"", "1"), vec![at(vec![], Classification::Changed)]);
    assert_eq!(
        compare(&doc("true"), &doc("null"), &vec![key("flag")]),
        vec![at(vec![key("flag")], Classification::Changed)]
    );
}

#[test]
fn a_number_against_an_array_is_a_change_without_descent() {
    assert_eq!(
        found("{\"x\": 1}", "{\"x\": [1]}"),
        vec![at(vec![key("x")], Classification::Changed)]
    );
    assert_eq!(
        found("{\"x\": {\"y\": 1}}", "{\"x\": [1]}"),
        vec![at(vec![key("x")], Classification::Changed)]
    );
}

#[test]
fn a_longer_first_array_has_indices_of_its_own() {
    assert_eq!(
        found("[1,2,3]", "[1,2]"),
        vec![at(vec![Segment::Index(2)], Classification::AddedOnLeft)]
    );
}

#[test]
fn a_longer_second_array_has_indices_of_its_own() {
    assert_eq!(
        found("[1,2]", "[1,2,3,4]"),
        vec![
            at(vec![Segment::Index(2)], Classification::AddedOnRight),
            at(vec![Segment::Index(3)], Classification::AddedOnRight),
        ]
    );
}

#[test]
fn changed_elements_are_found_by_index() {
    assert_eq!(
        found("[1, 2, 3]", "[1, 5, 3]"),
        vec![at(vec![Segment::Index(1)], Classification::Changed)]
    );
}

#[test]
fn records_of_name_and_tags() {
    assert_eq!(
        found(
            "{\"name\":\"x\",\"tags\":[\"a\",\"b\"]}",
            "{\"name\":\"y\",\"tags\":[\"a\",\"b\",\"c\"]}"
        ),
        vec![
            at(vec![key("name")], Classification::Changed),
            at(vec![key("tags")], Classification::Changed),
            at(vec![key("tags"), Segment::Index(2)], Classification::AddedOnRight),
        ]
    );
}

#[test]
fn records_of_keys_of_one_side_only() {
    assert_eq!(
        found("{\"a\":1}", "{\"b\":1}"),
        vec![
            at(vec![key("a")], Classification::AddedOnLeft),
            at(vec![key("b")], Classification::AddedOnRight),
        ]
    );
}

#[test]
fn keys_come_in_the_order_of_the_first_then_of_the_second() {
    assert_eq!(
        found("{\"z\": 1, \"m\": 2, \"a\": 3}", "{\"b\": 0, \"a\": 4, \"z\": 1, \"c\": 0}"),
        vec![
            at(vec![key("m")], Classification::AddedOnLeft),
            at(vec![key("a")], Classification::Changed),
            at(vec![key("b")], Classification::AddedOnRight),
            at(vec![key("c")], Classification::AddedOnRight),
        ]
    );
}

#[test]
fn a_changed_container_comes_before_what_lies_inside() {
    assert_eq!(
        found(
            "{\"o\": {\"p\": {\"q\": 1, \"r\": [1, {\"s\": 1}]}}, \"t\": 1}",
            "{\"o\": {\"p\": {\"q\": 2, \"r\": [1, {\"s\": 2}]}}, \"t\": 2}"
        ),
        vec![
            at(vec![key("o")], Classification::Changed),
            at(vec![key("o"), key("p")], Classification::Changed),
            at(vec![key("o"), key("p"), key("q")], Classification::Changed),
            at(vec![key("o"), key("p"), key("r")], Classification::Changed),
            at(vec![key("o"), key("p"), key("r"), Segment::Index(1)], Classification::Changed),
            at(
                vec![key("o"), key("p"), key("r"), Segment::Index(1), key("s")],
                Classification::Changed
            ),
            at(vec![key("t")], Classification::Changed),
        ]
    );
}

#[test]
fn every_path_starts_with_the_given_path() {
    let prefix = vec![key("root"), Segment::Index(7)];
    assert_eq!(
        compare(&doc("{\"a\": [1]}"), &doc("{\"a\": [2]}"), &prefix),
        vec![
            at(vec![key("root"), Segment::Index(7), key("a")], Classification::Changed),
            at(
                vec![key("root"), Segment::Index(7), key("a"), Segment::Index(0)],
                Classification::Changed
            ),
        ]
    );
}

#[test]
fn an_object_against_another_kind_has_all_its_keys_for_itself() {
    assert_eq!(
        found("{\"k\": 1, \"l\": 2}", "[5]"),
        vec![
            at(vec![key("k")], Classification::AddedOnLeft),
            at(vec![key("l")], Classification::AddedOnLeft),
        ]
    );
    assert_eq!(found("3", "{\"k\": 1}"), vec![at(vec![key("k")], Classification::AddedOnRight)]);
}

#[test]
fn an_array_against_a_leaf_has_all_its_indices_for_itself() {
    assert_eq!(
        found("[1, 2]", "1"),
        vec![
            at(vec![Segment::Index(0)], Classification::AddedOnLeft),
            at(vec![Segment::Index(1)], Classification::AddedOnLeft),
        ]
    );
    assert_eq!(found("null", "[1]"), vec![at(vec![Segment::Index(0)], Classification::AddedOnRight)]);
}

#[test]
fn empty_containers_of_different_kinds_yield_nothing() {
    assert_eq!(found("{}", "[]"), vec![]);
    assert_eq!(found("{}", "1"), vec![]);
    assert_eq!(found("null", "[]"), vec![]);
}

fn mirrored(kind: Classification) -> Classification {
    match kind {
        Classification::AddedOnLeft => Classification::AddedOnRight,
        Classification::AddedOnRight => Classification::AddedOnLeft,
        other => other,
    }
}

#[test]
fn the_other_order_finds_the_same_paths_with_roles_swapped() {
    let texts = [
        "{\"a\": 1, \"b\": {\"c\": [1, 2, {\"d\": null}]}, \"e\": [1]}",
        "{\"b\": {\"c\": [1, 3, {\"d\": 1, \"f\": 2}, 4]}, \"e\": {\"g\": 1}, \"h\": 0}",
        "[1, {\"a\": 1}]",
        "[2, {\"b\": 1}, 3]",
        "7",
    ];
    for x in texts.iter() {
        for y in texts.iter() {
            let forth = found(x, y);
            let back = found(y, x);
            assert_eq!(forth.len(), back.len());
            for record in forth.iter() {
                let turned = at(record.path.clone(), mirrored(record.kind));
                assert!(back.contains(&turned));
            }
        }
    }
}

#[test]
fn no_record_is_found_twice() {
    let forth = found(
        "{\"a\": {\"b\": [1, {\"c\": 1}], \"d\": 1}, \"e\": [[1], [2]], \"f\": 0}",
        "{\"a\": {\"b\": [2, {\"c\": 2}, 3], \"g\": 1}, \"e\": [[2], [1], []], \"h\": 0}",
    );
    assert_eq!(forth.len(), 16);
    for (i, x) in forth.iter().enumerate() {
        for (j, y) in forth.iter().enumerate() {
            assert_eq!(x == y, i == j);
        }
    }
}

#[test]
fn unequal_containers_of_one_kind_yield_a_record() {
    let pairs = [
        ("[1]", "[2]"),
        ("[]", "[1]"),
        ("[[[]]]", "[[[0]]]"),
        ("{}", "{\"a\": null}"),
        ("{\"a\": {}}", "{\"a\": []}"),
        ("{\"a\": 1, \"b\": 2}", "{\"b\": 2, \"a\": 1.5}"),
    ];
    for (a, b) in pairs.iter() {
        assert!(!found(a, b).is_empty());
        assert!(!found(b, a).is_empty());
    }
}
