use pastemaxx::hashing::hex;
use pastemaxx::text::{concat_str, eq_ignore_ascii_case, is_blank_str, join_with_newlines, starts_with, trim_str};

#[test]
fn hex_is_lower_case_two_digits_per_byte() {
    assert_eq!(hex(&[0x00, 0x0f, 0xa5, 0xff]), "000fa5ff");
    assert_eq!(hex(&[]), "");
}

#[test]
fn trim_removes_unicode_white_space() {
    assert_eq!(trim_str("  \t hello world \n"), "hello world");
    assert_eq!(trim_str("\u{3000}x\u{00a0}"), "x");
    assert_eq!(trim_str("   "), "");
    assert_eq!(trim_str(""), "");
}

#[test]
fn blank_detection() {
    assert!(is_blank_str(" \n\t\r"));
    assert!(is_blank_str(""));
    assert!(!is_blank_str(" a "));
}

#[test]
fn prefix_and_case_checks() {
    assert!(starts_with("Screenshot 2024", "Screenshot "));
    assert!(!starts_with("Screen", "Screenshot "));
    assert!(eq_ignore_ascii_case("PnG", "png"));
    assert!(!eq_ignore_ascii_case("pngs", "png"));
}

#[test]
fn join_and_concat() {
    let parts = vec!["/a/b.txt".to_string(), "/c d/e".to_string()];
    assert_eq!(join_with_newlines(&parts), "/a/b.txt\n/c d/e");
    assert_eq!(join_with_newlines(&vec![]), "");
    assert_eq!(concat_str("abc", ".png"), "abc.png");
}
