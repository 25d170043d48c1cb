use acatrack_rust::record::{CodeSet, LogEvent, StudentRecord};
use acatrack_rust::scan::parse_text_lines;
use acatrack_rust::sheet::{
    page_content, parse_text_record, record_from_tables, LaidOutTable, PageContent, PageTables,
    TableLayout,
};
use acatrack_rust::table::split_stacked_row;

fn cell(s: &str) -> Option<String> {
    Some(s.to_string())
}

fn codes(list: &[&str]) -> Vec<String> {
    list.iter().map(|s| s.to_string()).collect()
}

fn stacked_table() -> Vec<Vec<Option<String>>> {
    vec![vec![cell("BCS401\nBCS402"), cell("40\n30"), cell("36\n50"), cell("76\n80")]]
}

fn by_words(rows: Vec<Vec<Option<String>>>) -> Option<LaidOutTable> {
    Some(LaidOutTable { layout: TableLayout::Text, rows })
}

fn by_lines(rows: Vec<Vec<Option<String>>>) -> Option<LaidOutTable> {
    Some(LaidOutTable { layout: TableLayout::Lines, rows })
}

#[test]
fn the_word_alignment_table_comes_first() {
    let tables = PageTables {
        text_table: by_words(stacked_table()),
        lines_table: by_lines(vec![vec![cell("other")]]),
        text: "page text".to_string(),
    };
    match page_content(tables) {
        PageContent::Table(t) => assert_eq!(t, stacked_table()),
        PageContent::Text(_) => panic!("expected the word-alignment table"),
    }
}

#[test]
fn the_drawn_lines_table_comes_next() {
    let tables = PageTables {
        text_table: None,
        lines_table: by_lines(stacked_table()),
        text: "page text".to_string(),
    };
    match page_content(tables) {
        PageContent::Table(t) => assert_eq!(t, stacked_table()),
        PageContent::Text(_) => panic!("expected the drawn-lines table"),
    }
}

#[test]
fn without_a_table_the_text_is_read() {
    let tables = PageTables { text_table: None, lines_table: None, text: "page text".to_string() };
    match page_content(tables) {
        PageContent::Text(t) => assert_eq!(t, "page text"),
        PageContent::Table(_) => panic!("expected the page text"),
    }
}

#[test]
fn a_stacked_row_of_a_word_alignment_table_gives_marks_per_line() {
    let pages = vec![PageTables {
        text_table: by_words(stacked_table()),
        lines_table: None,
        text: "BCS401 1 2 BCS402 3 4".to_string(),
    }];
    let r = record_from_tables("s.pdf", "USN : 1AB21CS001", pages, &codes(&["BCS401", "BCS402"]));
    assert_eq!(r.marks.get(&"BCS401".to_string()), Some((40, 36)));
    assert_eq!(r.marks.get(&"BCS402".to_string()), Some((30, 50)));
    assert!(r.logs.iter().any(|e| matches!(e, LogEvent::RowSplit { count: 2 })));
}

#[test]
fn pages_without_tables_are_scanned_as_text() {
    let pages = vec![
        PageTables { text_table: None, lines_table: None, text: "BCS401 40 36".to_string() },
        PageTables { text_table: None, lines_table: None, text: "BCS402 30 50".to_string() },
    ];
    let r = record_from_tables("s.pdf", "", pages, &codes(&["BCS401", "BCS402"]));
    assert_eq!(r.marks.get(&"BCS401".to_string()), Some((40, 36)));
    assert_eq!(r.marks.get(&"BCS402".to_string()), Some((30, 50)));
    assert!(r.logs.iter().any(|e| matches!(e, LogEvent::NoTable { page: 2 })));
}

#[test]
fn scanning_twice_keeps_the_marks() {
    let cs = CodeSet::new(&codes(&["BCS401"]));
    let mut r = StudentRecord::new();
    parse_text_lines("BCS401 40 36 BCS401 10 20", &cs, &mut r);
    let first = r.marks.get(&"BCS401".to_string());
    parse_text_lines("BCS401 40 36 BCS401 10 20", &cs, &mut r);
    assert_eq!(r.marks.get(&"BCS401".to_string()), first);
    assert_eq!(first, Some((10, 20)));
    assert_eq!(r.logs.len(), 4);
}

#[test]
fn order_repeats_and_case_of_codes_do_not_matter() {
    let text = "USN : 1X BCS401 40 36 BCS402 30 50";
    let a = parse_text_record(text, &codes(&["BCS401", "bcs402"]));
    let b = parse_text_record(text, &codes(&["bcs402", "BCS402", "Bcs401"]));
    assert_eq!(a.usn, b.usn);
    for c in ["BCS401", "BCS402"] {
        assert_eq!(a.marks.get(&c.to_string()), b.marks.get(&c.to_string()));
    }
}

#[test]
fn a_split_column_gives_back_the_cell_lines() {
    let row = vec![cell("A\nB\nC"), None, cell("x\ny")];
    let rows = split_stacked_row(&row);
    let first: Vec<String> = rows.iter().filter_map(|r| r[0].clone()).collect();
    assert_eq!(first.join("\n"), "A\nB\nC");
    assert!(rows.iter().all(|r| r[1].is_none()));
}
