use acatrack_rust::pdf::parse_pdf_document;
use acatrack_rust::record::LogEvent;

#[test]
fn a_document_without_pages() {
    let doc = pdfsink_rs::PdfDocument {
        path: std::path::PathBuf::from("empty.pdf"),
        pages: Vec::new(),
        metadata: Default::default(),
        structure_tree: None,
    };
    let r = parse_pdf_document("empty.pdf", &doc, &["BCS301".to_string()]);
    assert!(r.usn.is_none());
    assert_eq!(r.logs.len(), 5);
    assert!(matches!(r.logs[1], LogEvent::TextLength { bytes: 0 }));
    assert!(matches!(r.logs[2], LogEvent::FieldMissing { .. }));
}
