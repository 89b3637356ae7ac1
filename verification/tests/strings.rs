use pmmlruntime::strings::{
    ends_with, parse_i32, parse_usize, split_whitespace, trim, usize_to_string,
};

#[test]
fn trim_removes_outer_whitespace() {
    assert_eq!(trim("  a b \n"), "a b");
    assert_eq!(trim(""), "");
    assert_eq!(trim("\t\u{3000}x\u{2003}"), "x");
}

#[test]
fn split_whitespace_gives_words() {
    assert_eq!(split_whitespace("  1.5  2\t3\n"), vec!["1.5", "2", "3"]);
    assert!(split_whitespace("   ").is_empty());
}

#[test]
fn parse_integers_like_std() {
    assert_eq!(parse_usize("42"), Some(42));
    assert_eq!(parse_usize("+7"), Some(7));
    assert_eq!(parse_usize("-1"), None);
    assert_eq!(parse_usize(""), None);
    assert_eq!(parse_usize("1a"), None);
    assert_eq!(parse_i32("-2147483648"), Some(i32::MIN));
    assert_eq!(parse_i32("2147483647"), Some(i32::MAX));
    assert_eq!(parse_i32("2147483648"), None);
    assert_eq!(parse_i32("-"), None);
    assert_eq!(parse_i32("+3"), Some(3));
}

#[test]
fn decimal_rendering() {
    assert_eq!(usize_to_string(0), "0");
    assert_eq!(usize_to_string(104857600), "104857600");
}

#[test]
fn suffix_test() {
    assert!(ends_with("TreeModel", "Model"));
    assert!(!ends_with("Model", "TreeModel"));
    assert!(ends_with("abc", ""));
    assert!(!ends_with("ModelX", "Model"));
}

