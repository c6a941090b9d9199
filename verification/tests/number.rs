use json_diff::number::Number;

fn number(positive: bool, mantissa: u64, exponent: i16) -> Number {
    Number { positive, mantissa, exponent }
}

#[test]
fn numbers_with_the_same_parts_are_equal() {
    assert!(number(true, 7, 0).equals(&number(true, 7, 0)));
    assert!(number(false, 15, -1).equals(&number(false, 15, -1)));
    assert!(number(true, 1, 32767).equals(&number(true, 1, 32767)));
    assert!(number(true, 1, -32768).equals(&number(true, 1, -32768)));
}

#[test]
fn from_u64_is_a_positive_integer() {
    assert_eq!(Number::from_u64(42), number(true, 42, 0));
}

#[test]
fn numbers_of_the_same_value_are_equal() {
    assert!(number(true, 100, 0).equals(&number(true, 1, 2)));
    assert!(number(true, 1, 2).equals(&number(true, 100, 0)));
    assert!(number(true, 150, -2).equals(&number(true, 15, -1)));
    assert!(number(false, 5, 1).equals(&number(false, 50, 0)));
}

#[test]
fn numbers_of_different_value_are_unequal() {
    assert!(!number(true, 1, 0).equals(&number(true, 2, 0)));
    assert!(!number(true, 1, 0).equals(&number(true, 1, 1)));
    assert!(!number(true, 1, 0).equals(&number(false, 1, 0)));
    assert!(!number(true, 0, 0).equals(&number(true, 1, 0)));
}

#[test]
fn zero_has_no_sign_and_no_exponent() {
    assert!(number(true, 0, 0).equals(&number(false, 0, 0)));
    assert!(number(true, 0, 5).equals(&number(true, 0, -5)));
    assert!(number(true, 0, 32767).equals(&number(false, 0, -32768)));
}

#[test]
fn exponents_too_far_apart_make_numbers_unequal() {
    assert!(!number(true, 1, 32767).equals(&number(true, 1, -32768)));
    assert!(!number(true, 1, -32768).equals(&number(true, 1, 32767)));
    assert!(!number(true, 1, -32768).equals(&number(true, 1, 0)));
    assert!(!number(false, 3, 20000).equals(&number(false, 3, -20000)));
}

#[test]
fn equality_does_not_depend_on_the_order() {
    let samples = [
        number(true, 0, 0),
        number(false, 0, 3),
        number(true, 1, 0),
        number(true, 10, -1),
        number(true, 1, 1),
        number(false, 1, 0),
        number(true, 25, -2),
        number(true, 250, -3),
        number(true, 1, 32767),
        number(true, 1, -32768),
    ];
    for x in samples.iter() {
        assert!(x.equals(x));
        for y in samples.iter() {
            assert_eq!(x.equals(y), y.equals(x));
        }
    }
}

#[test]
fn exponents_at_the_edge_of_reach_are_compared() {
    assert!(!number(true, 1, 32767).equals(&number(true, 1, 0)));
    assert!(!number(true, 1, 0).equals(&number(true, 1, 32767)));
    assert!(!number(true, 1, -32767).equals(&number(true, 1, 0)));
    assert!(!number(true, 7, -32767).equals(&number(true, 7, -1)));
    assert!(number(true, 70, -32767).equals(&number(true, 7, -32766)));
    assert!(!number(true, 10, -32768).equals(&number(true, 1, 0)));
}

#[test]
fn zeros_at_the_end_of_a_fraction_do_not_count() {
    assert!(number(true, 10, -32768).equals(&number(true, 1, -32767)));
    assert!(number(true, 1, -32767).equals(&number(true, 10, -32768)));
    assert!(number(false, 1000, -32768).equals(&number(false, 1, -32765)));
    assert!(number(true, 500, -2).equals(&number(true, 5, 0)));
    assert!(!number(true, 10, -32768).equals(&number(true, 1, -32768)));
}

#[test]
fn strip_drops_the_zeros_at_the_end_of_a_fraction() {
    assert_eq!(number(true, 1500, -3).strip(), number(true, 15, -1));
    assert_eq!(number(false, 120, -1).strip(), number(false, 12, 0));
    assert_eq!(number(true, 0, -5).strip(), number(true, 0, 0));
    assert_eq!(number(true, 10, 2).strip(), number(true, 10, 2));
    assert_eq!(number(true, 1000, -2).strip(), number(true, 10, 0));
    assert_eq!(number(true, 7, -4).strip(), number(true, 7, -4));
}
