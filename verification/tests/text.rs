use pjsekai_soundgen_core::text::{decimal_string, starts_with, trim_end_slashes, trim_start_char};

#[test]
fn trim_start_char_removes_every_leading_copy() {
    assert_eq!(trim_start_char("##frpt-1", '#'), "frpt-1");
    assert_eq!(trim_start_char("frpt-#1", '#'), "frpt-#1");
    assert_eq!(trim_start_char("v1.2.0", 'v'), "1.2.0");
    assert_eq!(trim_start_char("", 'v'), "");
}

#[test]
fn trim_end_slashes_removes_trailing_slashes_only() {
    assert_eq!(trim_end_slashes("https://a/b//"), "https://a/b");
    assert_eq!(trim_end_slashes("/"), "");
}

#[test]
fn starts_with_compares_characters() {
    assert!(starts_with("日本語", "日本"));
    assert!(!starts_with("日", "日本"));
    assert!(starts_with("abc", ""));
}

#[test]
fn decimal_string_has_no_leading_zeros() {
    assert_eq!(decimal_string(0), "0");
    assert_eq!(decimal_string(48000), "48000");
    assert_eq!(decimal_string(usize::MAX), usize::MAX.to_string());
}
