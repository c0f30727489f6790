use suffix_search::digest::{decimal_bytes, digest_of_number};
use suffix_search::pattern::digest_matches;

#[test]
fn decimal_bytes_are_the_digits() {
    assert_eq!(decimal_bytes(0), b"0".to_vec());
    assert_eq!(decimal_bytes(7), b"7".to_vec());
    assert_eq!(decimal_bytes(120), b"120".to_vec());
    assert_eq!(decimal_bytes(i32::MAX), b"2147483647".to_vec());
}

#[test]
fn digest_of_one() {
    assert_eq!(
        digest_of_number(1),
        "6b86b273ff34fce19d6b804eff5a3f5747ada4eaa22f1d49c01e52ddb7875b4b"
    );
}

#[test]
fn digest_agrees_with_hashing_the_decimal_string() {
    for n in [0, 9, 10, 99, 12345, i32::MAX] {
        assert_eq!(digest_of_number(n), sha256::digest(n.to_string()));
    }
}

#[test]
fn window_is_one_longer_than_the_mask() {
    assert!(digest_matches("xx00y", "00"));
    assert!(digest_matches("ab000", "00"));
    assert!(!digest_matches("cc0x0", "00"));
    assert!(digest_matches("a00b", "00"));
    assert!(!digest_matches("00ab", "00"));
}

#[test]
fn empty_mask_always_matches() {
    assert!(digest_matches("abc", ""));
    assert!(digest_matches("", ""));
}

#[test]
fn short_digest_is_searched_whole() {
    assert!(digest_matches("00", "00"));
    assert!(!digest_matches("0", "00"));
    assert!(!digest_matches("00", "000"));
}
