use rawgallery::text::{parse_i32_str, split_str, str_eq, trim_str};

fn segs(s: &str, d: char) -> Vec<String> {
    split_str(s, d)
}

#[test]
fn split_three_segments() {
    let parts = segs("Family|Smith|Alice", '|');
    assert_eq!(parts, vec!["Family", "Smith", "Alice"]);
}

#[test]
fn split_empty_string_is_one_empty_segment() {
    let parts = segs("", '|');
    assert_eq!(parts, vec![""]);
}

#[test]
fn split_trailing_delimiter_keeps_empty_tail() {
    let parts = segs("a|", '|');
    assert_eq!(parts, vec!["a", ""]);
}

#[test]
fn split_leading_delimiter_keeps_empty_head() {
    let parts = segs("|b", '|');
    assert_eq!(parts, vec!["", "b"]);
}

#[test]
fn split_adjacent_delimiters_keep_empty_middle() {
    let parts = segs("a;;b", ';');
    assert_eq!(parts, vec!["a", "", "b"]);
}

#[test]
fn trim_both_ends() {
    assert_eq!(trim_str("  Family|Smith \t\n"), "Family|Smith");
}

#[test]
fn trim_all_whitespace_gives_empty() {
    assert_eq!(trim_str("  \t \r\n "), "");
}

#[test]
fn trim_keeps_inner_whitespace() {
    assert_eq!(trim_str(" a b "), "a b");
}

#[test]
fn trim_of_trimmed_is_unchanged() {
    let once = trim_str("  x y  ");
    let twice = trim_str(&once);
    assert_eq!(once, twice);
}

#[test]
fn parse_plain_number() {
    assert_eq!(parse_i32_str("42"), Some(42));
}

#[test]
fn parse_zero() {
    assert_eq!(parse_i32_str("0"), Some(0));
}

#[test]
fn parse_negative() {
    assert_eq!(parse_i32_str("-7"), Some(-7));
}

#[test]
fn parse_explicit_plus() {
    assert_eq!(parse_i32_str("+5"), Some(5));
}

#[test]
fn parse_empty_is_nothing() {
    assert_eq!(parse_i32_str(""), None);
}

#[test]
fn parse_sign_alone_is_nothing() {
    assert_eq!(parse_i32_str("-"), None);
}

#[test]
fn parse_letters_are_nothing() {
    assert_eq!(parse_i32_str("4a"), None);
}

#[test]
fn parse_extremes() {
    assert_eq!(parse_i32_str("2147483647"), Some(i32::MAX));
    assert_eq!(parse_i32_str("-2147483648"), Some(i32::MIN));
    assert_eq!(parse_i32_str("2147483648"), None);
    assert_eq!(parse_i32_str("-2147483649"), None);
    assert_eq!(parse_i32_str("99999999999999999999"), None);
}

#[test]
fn str_eq_compares_content() {
    assert!(str_eq("abc", "abc"));
    assert!(!str_eq("abc", "abd"));
    assert!(!str_eq("abc", "ab"));
    assert!(str_eq("", ""));
}
