use json_diff::digest::check_for_is_same_input;
use json_diff::digest::digest;

#[test]
fn digest_is_sha2_256_in_lowercase_hex() {
    assert_eq!(
        digest(b"abc"),
        "ba7816bf8f01cfea414140de5dae2223b00361a396177a9cb410ff61f20015ad"
    );
    assert_eq!(
        digest(b""),
        "e3b0c44298fc1c149afbf4c8996fb92427ae41e4649b934ca495991b7852b855"
    );
}

#[test]
fn equal_bytes_are_the_same_input() {
    assert!(check_for_is_same_input(b"{\"a\": 1}", b"{\"a\": 1}"));
    assert!(check_for_is_same_input(b"", b""));
    assert!(check_for_is_same_input(&[0xff, 0x00], &[0xff, 0x00]));
}

#[test]
fn different_bytes_are_not_the_same_input() {
    assert!(!check_for_is_same_input(b"{\"a\": 1}", b"{\"a\":1}"));
    assert!(!check_for_is_same_input(b"", b" "));
}
