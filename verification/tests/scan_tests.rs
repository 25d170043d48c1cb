use acatrack_rust::record::{CodeSet, LogEvent, MarkTable, StudentRecord};
use acatrack_rust::scan::{find_hits, parse_text_lines};

fn codes(list: &[&str]) -> CodeSet {
    let v: Vec<String> = list.iter().map(|s| s.to_string()).collect();
    CodeSet::new(&v)
}

fn marks(r: &StudentRecord, code: &str) -> Option<(u32, u32)> {
    r.marks.get(&code.to_string())
}

#[test]
fn reads_marks_after_each_code() {
    let mut r = StudentRecord::new();
    let text = "Subject Code BMATS101 Mathematics 40 36 76 P (BPHYS102) Physics 35 40 75 P";
    parse_text_lines(text, &codes(&["bmats101", "BPHYS102"]), &mut r);
    assert_eq!(marks(&r, "BMATS101"), Some((40, 36)));
    assert_eq!(marks(&r, "BPHYS102"), Some((35, 40)));
    assert!(matches!(&r.logs[0], LogEvent::TextScanMarks { code, internal: 40, external: 36 } if code == "BMATS101"));
    assert_eq!(r.logs.len(), 2);
}

#[test]
fn a_code_shaped_word_ends_the_marks() {
    let mut r = StudentRecord::new();
    parse_text_lines("BCS301 40 BCS302 36 77", &codes(&["BCS301"]), &mut r);
    assert_eq!(marks(&r, "BCS301"), None);
    match &r.logs[0] {
        LogEvent::TextScanFailed { code, tokens } => {
            assert_eq!(code, "BCS301");
            assert_eq!(tokens, &vec!["40".to_string()]);
        },
        other => panic!("unexpected {:?}", other),
    }
}

#[test]
fn a_long_run_of_words_ends_the_marks() {
    let mut r = StudentRecord::new();
    let mut text = String::from("BCS301");
    for _ in 0..26 {
        text.push_str(" word");
    }
    text.push_str(" 40 36");
    parse_text_lines(&text, &codes(&["BCS301"]), &mut r);
    assert_eq!(marks(&r, "BCS301"), None);
    match &r.logs[0] {
        LogEvent::TextScanFailed { tokens, .. } => assert_eq!(tokens.len(), 25),
        other => panic!("unexpected {:?}", other),
    }
}

#[test]
fn numbers_reset_the_run_of_words() {
    let mut r = StudentRecord::new();
    let mut text = String::from("BCS301 40");
    for _ in 0..20 {
        text.push_str(" word");
    }
    text.push_str(" 36");
    for _ in 0..20 {
        text.push_str(" word");
    }
    parse_text_lines(&text, &codes(&["BCS301"]), &mut r);
    assert_eq!(marks(&r, "BCS301"), Some((40, 36)));
}

#[test]
fn later_marks_replace_earlier_ones() {
    let mut r = StudentRecord::new();
    parse_text_lines("BCS301 10 20 BCS301 30 40", &codes(&["BCS301"]), &mut r);
    assert_eq!(marks(&r, "BCS301"), Some((30, 40)));
    assert_eq!(r.logs.len(), 2);
}

#[test]
fn text_without_codes_changes_nothing() {
    let mut r = StudentRecord::new();
    parse_text_lines("nothing to see 40 36", &codes(&["BCS301"]), &mut r);
    assert!(r.logs.is_empty());
    assert_eq!(marks(&r, "BCS301"), None);
}

#[test]
fn mark_table_reads_back_what_was_written() {
    let mut t = MarkTable::new();
    t.insert("BCS301".to_string(), 1, 2);
    t.insert("BCS302".to_string(), 3, 4);
    t.insert("BCS301".to_string(), 5, 6);
    assert_eq!(t.get(&"BCS301".to_string()), Some((5, 6)));
    assert_eq!(t.get(&"BCS302".to_string()), Some((3, 4)));
    assert_eq!(t.get(&"BCS303".to_string()), None);
}

fn words(list: &[&str]) -> Vec<Vec<char>> {
    list.iter().map(|w| w.chars().collect()).collect()
}

fn word(s: &str) -> Vec<char> {
    s.chars().collect()
}

#[test]
fn hits_are_found_in_cleaned_words() {
    let cleaned = words(&["BCS401", "40", "36", "76", "P", "BCS402", "30", "50"]);
    let shaped = vec![true, false, false, false, false, true, false, false];
    let hits = find_hits(&cleaned, &shaped, &codes(&["BCS401"]));
    assert_eq!(hits, vec![(word("BCS401"), words(&["40", "36", "76", "P"]))]);
}

#[test]
fn an_unflagged_word_does_not_end_the_marks() {
    let cleaned = words(&["BCS401", "40", "BCS402", "30"]);
    let hits = find_hits(&cleaned, &vec![true], &codes(&["BCS401"]));
    assert_eq!(hits, vec![(word("BCS401"), words(&["40", "BCS402", "30"]))]);
    let both = find_hits(&cleaned, &vec![], &codes(&["BCS401", "BCS402"]));
    assert_eq!(
        both,
        vec![(word("BCS401"), words(&["40"])), (word("BCS402"), words(&["30"]))]
    );
}

#[test]
fn only_codes_found_in_the_text_change_marks() {
    let mut r = StudentRecord::new();
    r.set_marks("BCS999".to_string(), 10, 20);
    parse_text_lines("(bcs401), 40 36 76", &codes(&["BCS401", "BCS402", "BCS999"]), &mut r);
    assert_eq!(marks(&r, "BCS401"), Some((40, 36)));
    assert_eq!(marks(&r, "BCS402"), None);
    assert_eq!(marks(&r, "BCS999"), Some((10, 20)));
}
