use acatrack_rust::marks::{extract_marks_from_tokens, marks_from_number_tokens};

fn toks(words: &[&str]) -> Vec<String> {
    words.iter().map(|w| w.to_string()).collect()
}

#[test]
fn two_numbers_are_internal_and_external() {
    assert_eq!(extract_marks_from_tokens(&toks(&["40", "36"])), Some((40, 36)));
}

#[test]
fn three_numbers_with_total() {
    assert_eq!(extract_marks_from_tokens(&toks(&["40", "36", "76"])), Some((40, 36)));
}

#[test]
fn three_numbers_with_split_internal() {
    assert_eq!(extract_marks_from_tokens(&toks(&["4", "5", "26"])), Some((45, 26)));
}

#[test]
fn four_numbers_with_split_internal_and_total() {
    assert_eq!(extract_marks_from_tokens(&toks(&["4", "5", "26", "71"])), Some((45, 26)));
}

#[test]
fn four_numbers_whose_total_does_not_add_up() {
    assert_eq!(extract_marks_from_tokens(&toks(&["40", "36", "76", "99"])), Some((4036, 76)));
}

#[test]
fn fewer_than_two_numbers_give_nothing() {
    assert_eq!(extract_marks_from_tokens(&toks(&[])), None);
    assert_eq!(extract_marks_from_tokens(&toks(&["40"])), None);
    assert_eq!(extract_marks_from_tokens(&toks(&["PASS", "P"])), None);
}

#[test]
fn absent_counts_as_zero() {
    assert_eq!(extract_marks_from_tokens(&toks(&["AB", "40"])), Some((0, 40)));
    assert_eq!(extract_marks_from_tokens(&toks(&["abs", "12"])), Some((0, 12)));
}

#[test]
fn the_word_absent_is_too_long_to_count() {
    assert_eq!(extract_marks_from_tokens(&toks(&["ABSENT", "40"])), None);
}

#[test]
fn dates_and_years_are_noise() {
    assert_eq!(
        extract_marks_from_tokens(&toks(&["2024-03-05", "40", "2024", "36", "P"])),
        Some((40, 36))
    );
}

#[test]
fn punctuation_round_numbers_is_removed() {
    assert_eq!(extract_marks_from_tokens(&toks(&["(40)", "36,"])), Some((40, 36)));
}

#[test]
fn split_internal_mark_that_overflows_gives_nothing() {
    assert_eq!(
        extract_marks_from_tokens(&toks(&["999", "999", "999", "999", "10", "20"])),
        None
    );
}

#[test]
fn long_split_internal_mark_that_fits() {
    assert_eq!(
        extract_marks_from_tokens(&toks(&["1", "234", "567", "8", "20"])),
        Some((1234567, 8))
    );
}

#[test]
fn noise_anywhere_changes_nothing() {
    let base = extract_marks_from_tokens(&toks(&["4", "5", "26", "71"]));
    let noisy = extract_marks_from_tokens(&toks(&["4", "HELLO", "5", "26", "2023", "71"]));
    assert_eq!(base, noisy);
}

#[test]
fn the_external_mark_is_one_short_number() {
    assert_eq!(
        extract_marks_from_tokens(&toks(&["1", "2", "3", "4", "5", "999", "100"])),
        Some((12345, 999))
    );
}

fn digits(words: &[&str]) -> Vec<Vec<char>> {
    words.iter().map(|w| w.chars().collect()).collect()
}

#[test]
fn number_tokens_give_the_marks() {
    assert_eq!(marks_from_number_tokens(&digits(&["40", "36"])), Some((40, 36)));
    assert_eq!(marks_from_number_tokens(&digits(&["40", "36", "76"])), Some((40, 36)));
    assert_eq!(marks_from_number_tokens(&digits(&["4", "5", "26"])), Some((45, 26)));
    assert_eq!(marks_from_number_tokens(&digits(&["1", "2", "30", "72"])), Some((12, 30)));
    assert_eq!(marks_from_number_tokens(&digits(&["4", "5", "2", "26", "71"])), Some((452, 26)));
}

#[test]
fn too_few_or_too_large_number_tokens_give_nothing() {
    assert_eq!(marks_from_number_tokens(&digits(&[])), None);
    assert_eq!(marks_from_number_tokens(&digits(&["40"])), None);
    assert_eq!(marks_from_number_tokens(&digits(&["9999999999", "1"])), None);
}
