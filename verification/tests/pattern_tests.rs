use acatrack_rust::pattern::{find_header_field, looks_like_subject_code};
use acatrack_rust::record::HeaderField;

#[test]
fn subject_codes_of_every_scheme() {
    assert!(looks_like_subject_code("21CS51"));
    assert!(looks_like_subject_code("18MAT31"));
    assert!(looks_like_subject_code("22MATS11"));
    assert!(looks_like_subject_code("21CS582A"));
    assert!(looks_like_subject_code("BMATS101"));
    assert!(looks_like_subject_code("BCS301"));
    assert!(looks_like_subject_code("BPLCK105B"));
}

#[test]
fn other_words_are_not_subject_codes() {
    assert!(!looks_like_subject_code("HELLO"));
    assert!(!looks_like_subject_code("40"));
    assert!(!looks_like_subject_code("bcs301"));
    assert!(!looks_like_subject_code("XBCS301"));
    assert!(!looks_like_subject_code(""));
}

#[test]
fn finds_the_seat_number() {
    let text = "VTU\nUniversity Seat Number : 1AB21CS001\nStudent Name : Asha K R\nSemester : 3\n";
    assert_eq!(find_header_field(text, HeaderField::Usn), Some("1AB21CS001".to_string()));
    assert_eq!(find_header_field(text, HeaderField::Name), Some("Asha K R".to_string()));
    assert_eq!(find_header_field(text, HeaderField::Semester), Some("3".to_string()));
}

#[test]
fn header_labels_ignore_case() {
    let text = "usn: 4xy22ec010  student name:   Ravi   \n semester:5";
    assert_eq!(find_header_field(text, HeaderField::Usn), Some("4xy22ec010".to_string()));
    assert_eq!(find_header_field(text, HeaderField::Name), Some("Ravi".to_string()));
    assert_eq!(find_header_field(text, HeaderField::Semester), Some("5".to_string()));
}

#[test]
fn missing_header_fields() {
    let text = "Results of the examination";
    assert_eq!(find_header_field(text, HeaderField::Usn), None);
    assert_eq!(find_header_field(text, HeaderField::Name), None);
    assert_eq!(find_header_field(text, HeaderField::Semester), None);
}

#[test]
fn subject_code_shapes_are_exact() {
    assert!(!looks_like_subject_code("21CS5"));
    assert!(!looks_like_subject_code("21CSABC51"));
    assert!(!looks_like_subject_code("21CS51AB"));
    assert!(!looks_like_subject_code("BCS4011"));
    assert!(!looks_like_subject_code("BC301"));
    assert!(!looks_like_subject_code("BCS301 "));
    assert!(looks_like_subject_code("BCDEFG301"));
    assert!(!looks_like_subject_code("BCDEFGH301"));
}

#[test]
fn seat_number_and_semester_are_one_word() {
    let text = "USN :   1AB21CS001 extra words\nSemester:  III  (odd)";
    assert_eq!(find_header_field(text, HeaderField::Usn), Some("1AB21CS001".to_string()));
    assert_eq!(find_header_field(text, HeaderField::Semester), Some("III".to_string()));
}

#[test]
fn the_name_stops_at_the_end_of_its_line() {
    let text = "Student Name :  Asha K R  \nSemester : 3";
    assert_eq!(find_header_field(text, HeaderField::Name), Some("Asha K R".to_string()));
}
