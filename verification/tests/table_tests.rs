use acatrack_rust::entries::{record_entries, FieldValue};
use acatrack_rust::record::LogEvent;
use acatrack_rust::sheet::{failed_open_record, parse_text_record, record_from_content, PageContent};
use acatrack_rust::table::split_stacked_row;

fn cell(s: &str) -> Option<String> {
    Some(s.to_string())
}

#[test]
fn a_single_line_row_is_unchanged() {
    let row = vec![cell(" BCS301 "), None, cell("40")];
    assert_eq!(split_stacked_row(&row), vec![row.clone()]);
}

#[test]
fn a_stacked_row_is_split_into_aligned_rows() {
    let row = vec![cell("BCS301\nBCS302"), cell(" 40 \n36"), None, cell("P")];
    let rows = split_stacked_row(&row);
    assert_eq!(
        rows,
        vec![
            vec![cell("BCS301"), cell("40"), None, cell("P")],
            vec![cell("BCS302"), cell("36"), None, None],
        ]
    );
}

#[test]
fn empty_lines_of_a_stacked_row_are_missing_cells() {
    let row = vec![cell("A\n\nC")];
    assert_eq!(split_stacked_row(&row), vec![vec![cell("A")], vec![None], vec![cell("C")]]);
}

#[test]
fn an_empty_row_is_itself() {
    let row: Vec<Option<String>> = vec![];
    assert_eq!(split_stacked_row(&row), vec![row.clone()]);
}

fn codes(list: &[&str]) -> Vec<String> {
    list.iter().map(|s| s.to_string()).collect()
}

#[test]
fn marks_from_the_cells_after_the_code() {
    let table = vec![
        vec![cell("Code"), cell("Name"), cell("IA"), cell("SEE")],
        vec![cell("bcs301"), cell("Maths"), cell("4 5"), cell("26 71")],
    ];
    let r = record_from_content(
        "sheet.pdf",
        "University Seat Number : 1AB21CS001",
        &vec![PageContent::Table(table)],
        &codes(&["BCS301"]),
    );
    assert_eq!(r.usn, Some("1AB21CS001".to_string()));
    assert_eq!(r.marks.get(&"BCS301".to_string()), Some((45, 26)));
    assert!(r.logs.iter().any(|e| matches!(e, LogEvent::ColumnMarks { internal: 45, external: 26, .. })));
    assert!(r.logs.iter().any(|e| matches!(e, LogEvent::RowSkipped { .. })));
    assert!(matches!(r.logs[0], LogEvent::Opened { .. }));
    assert!(matches!(r.logs[1], LogEvent::TextLength { bytes: 35 }));
    assert!(matches!(r.logs[5], LogEvent::TableFound { page: 1, rows: 2, columns: 4 }));
}

#[test]
fn rows_with_two_codes_are_scanned_as_text() {
    let table = vec![vec![cell("BCS301 40 36 BCS302 30 35"), cell("")]];
    let r = record_from_content("s.pdf", "", &vec![PageContent::Table(table)], &codes(&["BCS301", "BCS302"]));
    assert_eq!(r.marks.get(&"BCS301".to_string()), Some((40, 36)));
    assert_eq!(r.marks.get(&"BCS302".to_string()), Some((30, 35)));
    assert!(r.logs.iter().any(|e| matches!(e, LogEvent::RowScanFallback { .. })));
}

#[test]
fn failed_column_read_falls_back_to_the_row_text() {
    let table = vec![vec![cell("40"), cell("BCS301"), cell("36")]];
    let r = record_from_content("s.pdf", "", &vec![PageContent::Table(table)], &codes(&["BCS301"]));
    assert!(r.logs.iter().any(|e| matches!(e, LogEvent::ColumnScanFailed { column: 1, .. })));
    assert_eq!(r.marks.get(&"BCS301".to_string()), None);
}

#[test]
fn pages_without_a_table_are_scanned() {
    let r = record_from_content(
        "s.pdf",
        "USN : 1AB21CS001",
        &vec![PageContent::Text("x".to_string()), PageContent::Text("BCS301 40 36".to_string())],
        &codes(&["BCS301"]),
    );
    assert_eq!(r.marks.get(&"BCS301".to_string()), Some((40, 36)));
    assert!(r.logs.iter().any(|e| matches!(e, LogEvent::NoTable { page: 2 })));
}

#[test]
fn records_from_text_log_only_the_scan() {
    let r = parse_text_record(
        "University Seat Number: 1AB21CS001 Student Name: Asha\nSemester : 3 BCS301 40 36",
        &codes(&["BCS301"]),
    );
    assert_eq!(r.usn, Some("1AB21CS001".to_string()));
    assert_eq!(r.name, Some("Asha".to_string()));
    assert_eq!(r.semester, Some("3".to_string()));
    assert_eq!(r.marks.get(&"BCS301".to_string()), Some((40, 36)));
    assert_eq!(r.logs.len(), 1);
}

#[test]
fn no_seat_number_gives_no_fields() {
    let r = parse_text_record("BCS301 40 36", &codes(&["BCS301"]));
    assert!(record_entries(r, &codes(&["BCS301"])).is_none());
}

#[test]
fn fields_name_each_code_as_given() {
    let r = parse_text_record("USN : 1AB21CS001 BCS301 40 36", &codes(&["bcs301"]));
    let fields = record_entries(r, &codes(&["BCS301", "bcs301"])).unwrap();
    let names: Vec<&str> = fields.iter().map(|(k, _)| k.as_str()).collect();
    assert_eq!(
        names,
        vec![
            "student_usn",
            "student_name",
            "SEMESTER",
            "BCS301_INTERNALS",
            "BCS301_EXTERNALS",
            "bcs301_INTERNALS",
            "bcs301_EXTERNALS",
            "logs"
        ]
    );
    assert!(matches!(fields[3].1, FieldValue::Mark(Some(40))));
    assert!(matches!(fields[4].1, FieldValue::Mark(Some(36))));
    assert!(matches!(fields[5].1, FieldValue::Mark(None)));
    assert!(matches!(&fields[0].1, FieldValue::Text(Some(u)) if u == "1AB21CS001"));
}

#[test]
fn an_unopened_sheet_logs_the_failure() {
    let r = failed_open_record("missing.pdf", "not found".to_string());
    assert_eq!(r.logs.len(), 1);
    assert!(matches!(&r.logs[0], LogEvent::OpenFailed { path, .. } if path == "missing.pdf"));
    assert!(r.usn.is_none());
}

#[test]
fn page_text_never_changes_the_header() {
    let r = record_from_content(
        "s.pdf",
        "no header here",
        &vec![PageContent::Text("USN : 1AB21CS001 BCS301 40 36".to_string())],
        &codes(&["BCS301"]),
    );
    assert!(r.usn.is_none());
    assert!(r.logs.iter().any(|e| matches!(e, LogEvent::FieldMissing { .. })));
    assert_eq!(r.marks.get(&"BCS301".to_string()), Some((40, 36)));
}

#[test]
fn only_requested_codes_get_marks() {
    let table = vec![vec![cell("BCS302"), cell("40"), cell("36")]];
    let r = record_from_content(
        "s.pdf",
        "",
        &vec![PageContent::Table(table), PageContent::Text("BCS303 10 20".to_string())],
        &codes(&["BCS301"]),
    );
    assert_eq!(r.marks.get(&"BCS302".to_string()), None);
    assert_eq!(r.marks.get(&"BCS303".to_string()), None);
    assert!(r.logs.iter().any(|e| matches!(e, LogEvent::RowSkipped { .. })));
}

#[test]
fn crlf_lines_of_a_stacked_row_lose_their_carriage_returns() {
    let row = vec![cell("BCS301\r\nBCS302\r\n"), cell("40\r\n36"), None];
    let rows = split_stacked_row(&row);
    assert_eq!(
        rows,
        vec![vec![cell("BCS301"), cell("40"), None], vec![cell("BCS302"), cell("36"), None]]
    );
}
