use json_diff::position::get_position;

#[test]
fn finds_keys_on_the_first_line() {
    let text = "{\"b\": 1, \"a\": 2}";
    assert_eq!(get_position(text, "b"), Some((1, 1)));
    assert_eq!(get_position(text, "a"), Some((1, 9)));
}

#[test]
fn counts_rows_from_one_and_columns_from_the_line_feed() {
    let text = "{\n  \"a\": 1,\n  \"b\": 2\n}";
    assert_eq!(get_position(text, "a"), Some((2, 3)));
    assert_eq!(get_position(text, "b"), Some((3, 3)));
}

#[test]
fn a_key_at_the_very_start_stands_at_column_zero() {
    assert_eq!(get_position("\"k\": 1", "k"), Some((1, 0)));
}

#[test]
fn a_key_right_after_a_line_feed_stands_at_column_one() {
    assert_eq!(get_position("{\n\"k\": 1}", "k"), Some((2, 1)));
}

#[test]
fn reports_absence() {
    assert_eq!(get_position("{\"a\": 1}", "b"), None);
    assert_eq!(get_position("", "a"), None);
    assert_eq!(get_position("\"", ""), None);
    assert_eq!(get_position("a", "a"), None);
}

#[test]
fn needs_both_quotes() {
    assert_eq!(get_position("{\"id: 1}", "id"), None);
    assert_eq!(get_position("{id\": 1}", "id"), None);
    assert_eq!(get_position("{\"uid\": 1, \"id\": 2}", "id"), Some((1, 11)));
}

#[test]
fn takes_the_first_occurrence_even_inside_a_value() {
    let text = "{\"a\": \"b\",\n \"b\": 1}";
    assert_eq!(get_position(text, "b"), Some((1, 6)));
}

#[test]
fn finds_the_empty_key() {
    assert_eq!(get_position("{\"\": 1}", ""), Some((1, 1)));
}

#[test]
fn counts_bytes_not_characters() {
    let text = "{\"é\": 1, \"k\": 2}";
    assert_eq!(get_position(text, "é"), Some((1, 1)));
    assert_eq!(get_position(text, "k"), Some((1, 10)));
}

#[test]
fn a_pattern_as_long_as_the_text_is_found() {
    assert_eq!(get_position("\"key\"", "key"), Some((1, 0)));
    assert_eq!(get_position("\"key\"", "keys"), None);
}

#[test]
fn overlapping_candidates_are_all_tried() {
    assert_eq!(get_position("\"\"a\"", "a"), Some((1, 1)));
    assert_eq!(get_position("\n\n\"a\"\n\"a\"", "a"), Some((3, 1)));
}

#[test]
fn rows_and_columns_follow_the_offsets() {
    let text = "{\"a\": 1, \"b\": 2,\n\"c\": 3,\n\n  \"d\": 4, \"e\": 5}";
    let keys = ["a", "b", "c", "d", "e"];
    let positions: Vec<(usize, usize)> =
        keys.iter().map(|key| get_position(text, key).unwrap()).collect();
    assert_eq!(positions, vec![(1, 1), (1, 9), (2, 1), (4, 3), (4, 11)]);
    for pair in positions.windows(2) {
        assert!(pair[0] < pair[1]);
    }
}
