//! Reading an opened PDF result sheet with `pdfsink_rs`: its text, and for each
//! page the table it holds or else its text.
use vstd::prelude::*;
use pdfsink_rs::{Page, PdfDocument};
use crate::pattern::header_shapes;
use crate::record::{code_list, StudentRecord};
use crate::sheet::{
    chosen_pages, record_from_tables, sheet_record, LaidOutTable, LaidOutTableView, PageTables,
    PageTablesView, TableLayout,
};
use crate::text::strings_view;

verus! {

#[verifier::external_type_specification]
#[verifier::external_body]
pub struct ExPdfDocument(pdfsink_rs::PdfDocument);

#[verifier::external_type_specification]
#[verifier::external_body]
pub struct ExPage(pdfsink_rs::Page);

#[verifier::external_type_specification]
#[verifier::external_body]
pub struct ExPdfError(pdfsink_rs::Error);

/// What `PdfDocument::extract_text` gives for a document: the text of its pages in
/// order, joined by a blank line.
pub uninterp spec fn pdf_text_of(doc: PdfDocument) -> Seq<char>;

/// What `PdfDocument::pages` gives for a document: its pages, in order.
pub uninterp spec fn pdf_pages_of(doc: PdfDocument) -> Seq<Page>;

/// What `Page::extract_text` gives for a page.
pub uninterp spec fn page_text_of(page: Page) -> Seq<char>;

/// What `Page::extract_table` gives for a page with the settings of [`page_table`]
/// for the layout: `None` when extraction fails, else the largest table, if any.
pub uninterp spec fn page_table_of(page: Page, layout: TableLayout) -> Option<
    Option<Seq<Seq<Option<Seq<char>>>>>,
>;

/// `PdfDocument::pages`: the pages of the document, in order. Claimed: they are a
/// function of the document, named [`pdf_pages_of`].
#[verifier::external_body]
fn document_pages(doc: &PdfDocument) -> (r: &[Page])
    ensures
        r@ == pdf_pages_of(*doc),
{
    doc.pages()
}

/// `PdfDocument::extract_text`: the text of all pages. Claimed: it is a function of
/// the document, named [`pdf_text_of`].
#[verifier::external_body]
fn document_text(doc: &PdfDocument) -> (r: String)
    ensures
        r@ == pdf_text_of(*doc),
{
    doc.extract_text()
}

/// `Page::extract_text`: the text of the page. Claimed: it is a function of the
/// page, named [`page_text_of`].
#[verifier::external_body]
fn page_text(page: &Page) -> (r: String)
    ensures
        r@ == page_text_of(*page),
{
    page.extract_text()
}

/// `Page::extract_table` with the default settings but for the layout strategy,
/// which is used both vertically and horizontally: the largest table on the page,
/// if any, beside the layout it was asked for. Claimed: the outcome is a function
/// of the page and the layout, named [`page_table_of`]; nothing is said of the
/// table found, nor of when extraction fails.
#[verifier::external_body]
fn page_table(page: &Page, layout: TableLayout) -> (r: (
    TableLayout,
    Result<Option<Vec<Vec<Option<String>>>>, pdfsink_rs::Error>,
))
    ensures
        r.0 == layout,
        match r.1 {
            Ok(t) => page_table_of(*page, layout) == Some(t.deep_view()),
            Err(_) => page_table_of(*page, layout) is None,
        },
{
    let strategy = match layout {
        TableLayout::Text => pdfsink_rs::TableStrategy::Text,
        TableLayout::Lines => pdfsink_rs::TableStrategy::Lines,
    };
    (layout, page.extract_table(pdfsink_rs::TableSettings {
        vertical_strategy: strategy,
        horizontal_strategy: strategy,
        ..Default::default()
    }))
}

/// The table that an extraction outcome offers, marked with its layout: none
/// when extraction failed or found no table.
pub open spec fn laid_out(
    found: Option<Option<Seq<Seq<Option<Seq<char>>>>>>,
    layout: TableLayout,
) -> Option<LaidOutTableView> {
    match found {
        Some(Some(rows)) => Some(LaidOutTableView { layout, rows }),
        _ => None,
    }
}

/// What a page offers: its table by word alignment, its table by drawn lines,
/// and its text.
pub open spec fn page_offer(page: Page) -> PageTablesView {
    PageTablesView {
        text_table: laid_out(page_table_of(page, TableLayout::Text), TableLayout::Text),
        lines_table: laid_out(page_table_of(page, TableLayout::Lines), TableLayout::Lines),
        text: page_text_of(page),
    }
}

/// What each page of a document offers, in order.
pub open spec fn document_offers(doc: PdfDocument) -> Seq<PageTablesView> {
    pdf_pages_of(doc).map_values(|p: Page| page_offer(p))
}

/// The table on a page with the given layout strategy, marked with that layout; a
/// failed extraction counts as no table.
fn table_with(page: &Page, layout: TableLayout) -> (r: Option<LaidOutTable>)
    ensures
        r.deep_view() == laid_out(page_table_of(*page, layout), layout),
{
    let (used, found) = page_table(page, layout);
    match found {
        Ok(Some(rows)) => Some(LaidOutTable { layout: used, rows }),
        _ => None,
    }
}

/// What a page offers, read by every method, as [`page_offer`] says.
fn page_tables(page: &Page) -> (r: PageTables)
    ensures
        r.deep_view() == page_offer(*page),
{
    let text_table = table_with(page, TableLayout::Text);
    let lines_table = table_with(page, TableLayout::Lines);
    let text = page_text(page);
    PageTables { text_table, lines_table, text }
}

/// Reads the record of an opened PDF sheet at `pdf_path`: the record that
/// [`sheet_record`] gives for the document's text and, for each page in order, its
/// word-alignment table, else its drawn-lines table, else its text.
pub fn parse_pdf_document(pdf_path: &str, doc: &PdfDocument, subject_codes: &[String]) -> (r: StudentRecord)
    ensures
        r.wf(),
        r@ == sheet_record(
            pdf_path@,
            pdf_text_of(*doc),
            chosen_pages(document_offers(*doc)),
            code_list(strings_view(subject_codes@)),
        ),
        header_shapes(r@),
{
    let full_text = document_text(doc);
    let pages = document_pages(doc);
    let mut read: Vec<PageTables> = Vec::new();
    let mut i: usize = 0;
    while i < pages.len()
        invariant
            i <= pages.len(),
            pages@ == pdf_pages_of(*doc),
            read.len() == i,
            forall|k: int| 0 <= k < i ==> #[trigger] read.deep_view()[k] == page_offer(pages@[k]),
        decreases pages.len() - i,
    {
        let ghost before = read.deep_view();
        let page = page_tables(&pages[i]);
        let ghost seen_page = page.deep_view();
        read.push(page);
        assert(read.deep_view() =~= before.push(seen_page));
        i += 1;
    }
    assert(read.deep_view() =~= document_offers(*doc));
    record_from_tables(pdf_path, full_text.as_str(), read, subject_codes)
}

} // verus!
