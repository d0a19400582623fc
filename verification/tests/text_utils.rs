use adb_manager::text::find_char_str;
use adb_manager::text::find_sub_str;
use adb_manager::text::parse_u16_str;
use adb_manager::text::split_lines;
use adb_manager::text::str_eq;
use adb_manager::text::tokens_of;

#[test]
fn tokens_split_on_whitespace_runs() {
    let toks = tokens_of("  a  bb\tccc ");
    assert_eq!(toks, vec!["a", "bb", "ccc"]);
}

#[test]
fn tokens_of_blank_input() {
    assert_eq!(tokens_of("").len(), 0);
    assert_eq!(tokens_of(" \t ").len(), 0);
}

#[test]
fn lines_split_and_strip_carriage_returns() {
    let lines = split_lines("a\r\nb\nc");
    assert_eq!(lines, vec!["a", "b", "c"]);
    let lines2 = split_lines("a\n\nb\n");
    assert_eq!(lines2, vec!["a", "", "b"]);
    assert_eq!(split_lines("").len(), 0);
}

#[test]
fn parse_u16_reads_decimal_digits() {
    assert_eq!(parse_u16_str("0"), Some(0));
    assert_eq!(parse_u16_str("007"), Some(7));
    assert_eq!(parse_u16_str("65535"), Some(65535));
    assert_eq!(parse_u16_str("65536"), None);
    assert_eq!(parse_u16_str(""), None);
    assert_eq!(parse_u16_str("12a"), None);
    assert_eq!(parse_u16_str("-1"), None);
}

#[test]
fn find_char_returns_first_position() {
    assert_eq!(find_char_str("transport_id:1", ':'), 12);
    assert_eq!(find_char_str("abc", ':'), 3);
}

#[test]
fn find_sub_returns_first_occurrence() {
    assert_eq!(find_sub_str("xxabcabc", "abc"), Some(2));
    assert_eq!(find_sub_str("xxabc", "abd"), None);
    assert_eq!(find_sub_str("short", "longer pattern"), None);
}

#[test]
fn str_eq_compares_contents() {
    assert!(str_eq("same", "same"));
    assert!(!str_eq("same", "Same"));
    assert!(!str_eq("same", "sam"));
}
