use minedesign::model::block_model::BlockVariable;
use minedesign::model::block_variables::{category_code_range, named_default_code};
use minedesign::text::{eq_ignore_ascii_case, parse_u32, trim};

fn named(global: &str, default: &str) -> BlockVariable {
    BlockVariable {
        physical_type: "namedbyte".to_string(),
        global: global.to_string(),
        default: default.to_string(),
        strings: vec![(1, "Waste".to_string()), (4, "Ore".to_string()), (9, "none".to_string())],
    }
}

#[test]
fn trim_removes_surrounding_white_space() {
    assert_eq!(trim("  a b \t\n"), "a b");
    assert_eq!(trim(""), "");
    assert_eq!(trim(" \u{3000} "), "");
    assert_eq!(trim("x"), "x");
}

#[test]
fn parse_u32_reads_plain_decimal() {
    assert_eq!(parse_u32("42"), Some(42));
    assert_eq!(parse_u32("+7"), Some(7));
    assert_eq!(parse_u32("007"), Some(7));
    assert_eq!(parse_u32("4294967295"), Some(u32::MAX));
    assert_eq!(parse_u32("4294967296"), None);
    assert_eq!(parse_u32(""), None);
    assert_eq!(parse_u32("+"), None);
    assert_eq!(parse_u32("-1"), None);
    assert_eq!(parse_u32(" 1"), None);
    assert_eq!(parse_u32("1x"), None);
}

#[test]
fn parse_u32_agrees_with_std() {
    for text in ["0", "+0", "12", "99999999999", "", "+", "-0", "1 ", "٣"] {
        assert_eq!(parse_u32(text), text.parse::<u32>().ok(), "{text:?}");
    }
}

#[test]
fn ascii_case_is_ignored_only_for_ascii() {
    assert!(eq_ignore_ascii_case("NONE", "none"));
    assert!(!eq_ignore_ascii_case("Ä", "ä"));
    assert!(!eq_ignore_ascii_case("ab", "abc"));
}

#[test]
fn default_code_is_read_as_a_number() {
    assert_eq!(named_default_code(&named(" 9 ", "1")), Some(9));
}

#[test]
fn default_code_falls_back_to_default_when_global_is_blank() {
    assert_eq!(named_default_code(&named("   ", "4")), Some(4));
}

#[test]
fn default_code_is_looked_up_by_name() {
    assert_eq!(named_default_code(&named("NONE", "")), Some(9));
    assert_eq!(named_default_code(&named("", "ore")), Some(4));
    assert_eq!(named_default_code(&named("missing", "")), None);
}

#[test]
fn code_range_of_named_variable() {
    assert_eq!(category_code_range(&named("", "")), Some((1, 9)));
    let mut numeric = named("", "");
    numeric.physical_type = "float".to_string();
    assert_eq!(category_code_range(&numeric), None);
    let mut empty = named("", "");
    empty.strings.clear();
    assert_eq!(category_code_range(&empty), None);
    let mut unordered = named("", "");
    unordered.strings = vec![(7, "b".to_string()), (2, "a".to_string()), (11, "c".to_string()), (5, "d".to_string())];
    assert_eq!(category_code_range(&unordered), Some((2, 11)));
}
