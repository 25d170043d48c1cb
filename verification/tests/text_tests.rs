use acatrack_rust::record::CodeSet;
use acatrack_rust::text::{
    chars_of, contains_chars, parse_digits, split_chars, string_of, trim_chars,
    trim_string, upper_chars, Separator, TrimClass,
};

fn cs(s: &str) -> Vec<char> {
    s.chars().collect()
}

#[test]
fn chars_round_trip() {
    let v = chars_of("héllo wörld");
    assert_eq!(v, cs("héllo wörld"));
    assert_eq!(string_of(&v), "héllo wörld");
}

#[test]
fn trims_unicode_white_space() {
    assert_eq!(trim_string("\u{a0}\t  a b \r\n\u{3000}"), "a b");
    assert_eq!(trim_string("   "), "");
}

#[test]
fn trims_symbols_but_keeps_inner_ones() {
    assert_eq!(trim_chars(&cs("((2024-03-05))"), TrimClass::Symbol), cs("2024-03-05"));
    assert_eq!(trim_chars(&cs("--"), TrimClass::Symbol), cs(""));
}

#[test]
fn splits_lines_like_str_lines() {
    let pieces = split_chars(&cs("a\n\nb\r\n"), Separator::LineBreak);
    assert_eq!(pieces, vec![cs("a"), cs(""), cs("b\r")]);
    assert_eq!(split_chars(&cs(""), Separator::LineBreak), Vec::<Vec<char>>::new());
    assert_eq!(split_chars(&cs("\n"), Separator::LineBreak), vec![cs("")]);
}

#[test]
fn splits_words_like_split_whitespace() {
    let pieces = split_chars(&cs("  BMATS101\t40 \n 36  "), Separator::Whitespace);
    assert_eq!(pieces, vec![cs("BMATS101"), cs("40"), cs("36")]);
}

#[test]
fn upper_case_goes_through_unicode_mapping() {
    assert_eq!(upper_chars(&cs("bmats101")), cs("BMATS101"));
    assert_eq!(upper_chars(&cs("straße")), cs("STRASSE"));
}

#[test]
fn finds_substrings() {
    assert!(contains_chars(&cs("21CS51 DBMS"), &cs("CS51")));
    assert!(contains_chars(&cs("abc"), &cs("")));
    assert!(!contains_chars(&cs("ab"), &cs("abc")));
    assert!(!contains_chars(&cs("abc"), &cs("ac")));
}

#[test]
fn parses_digit_strings() {
    assert_eq!(parse_digits(&cs("007")), Some(7));
    assert_eq!(parse_digits(&cs("4294967295")), Some(4294967295));
    assert_eq!(parse_digits(&cs("4294967296")), None);
    assert_eq!(parse_digits(&cs("0000000000000042")), Some(42));
}

#[test]
fn code_set_is_upper_case_and_without_repeats() {
    let codes = CodeSet::new(&["bmats101".to_string(), "BMATS101".to_string(), "bcs301".to_string()]);
    assert_eq!(codes.len(), 2);
    assert_eq!(codes.code(0), cs("BMATS101"));
    assert_eq!(codes.code(1), cs("BCS301"));
    assert!(codes.contains(&cs("BCS301")));
    assert!(!codes.contains(&cs("bcs301")));
}

#[test]
fn words_are_never_empty_and_hold_no_white_space() {
    let words = split_chars(&cs("\u{2003}a\u{a0}\u{a0}b  c\u{85}"), Separator::Whitespace);
    assert_eq!(words, vec![cs("a"), cs("b"), cs("c")]);
}

#[test]
fn trimming_keeps_a_contiguous_middle() {
    let t = trim_chars(&cs("  (a b) "), TrimClass::Whitespace);
    assert_eq!(t, cs("(a b)"));
    let u = trim_chars(&t, TrimClass::Symbol);
    assert_eq!(u, cs("a b"));
}

#[test]
fn the_empty_string_is_no_number() {
    assert_eq!(parse_digits(&cs("")), None);
}
