//! A whole result sheet: its header fields and its pages, read into one record.
use vstd::prelude::*;
use crate::pattern::{find_header_field, header_shape, header_shapes, header_value};
use crate::record::{
    code_list, CodeSet, HeaderField, LogEntry, LogEvent, RecordView, StudentRecord,
};
use crate::scan::{parse_text_lines, text_scan};
use crate::table::{process_table, table_step};
use crate::text::{string_from, strings_view};

verus! {

/// What a page of a sheet offers the parser.
pub enum PageContent {
    /// The table found on the page, as rows of cells (a missing cell is `None`).
    Table(Vec<Vec<Option<String>>>),
    /// No table was found; the page's text.
    Text(String),
}

/// The mathematical form of a [`PageContent`].
pub enum PageView {
    Table(Seq<Seq<Option<Seq<char>>>>),
    Text(Seq<char>),
}

impl DeepView for PageContent {
    type V = PageView;

    open spec fn deep_view(&self) -> PageView {
        match self {
            PageContent::Table(t) => PageView::Table(t.deep_view()),
            PageContent::Text(s) => PageView::Text(s@),
        }
    }
}

/// How a table's rows and columns are found on a page.
#[derive(Clone, Copy)]
pub enum TableLayout {
    /// By the alignment of the words.
    Text,
    /// By the lines drawn on the page.
    Lines,
}

/// A table found on a page, with the layout strategy that found it.
pub struct LaidOutTable {
    /// How the table was found.
    pub layout: TableLayout,
    /// Its rows of cells (a missing cell is `None`).
    pub rows: Vec<Vec<Option<String>>>,
}

/// The mathematical form of a [`LaidOutTable`].
pub struct LaidOutTableView {
    pub layout: TableLayout,
    pub rows: Seq<Seq<Option<Seq<char>>>>,
}

impl DeepView for LaidOutTable {
    type V = LaidOutTableView;

    open spec fn deep_view(&self) -> LaidOutTableView {
        LaidOutTableView { layout: self.layout, rows: self.rows.deep_view() }
    }
}

/// What a page offers, read by every method the parser knows: the table that the
/// alignment of words finds, the table that drawn lines find, and the page's text.
pub struct PageTables {
    /// The table found by word alignment, if any.
    pub text_table: Option<LaidOutTable>,
    /// The table found by drawn lines, if any.
    pub lines_table: Option<LaidOutTable>,
    /// The page's text.
    pub text: String,
}

/// The mathematical form of a [`PageTables`].
pub struct PageTablesView {
    pub text_table: Option<LaidOutTableView>,
    pub lines_table: Option<LaidOutTableView>,
    pub text: Seq<char>,
}

impl DeepView for PageTables {
    type V = PageTablesView;

    open spec fn deep_view(&self) -> PageTablesView {
        PageTablesView {
            text_table: self.text_table.deep_view(),
            lines_table: self.lines_table.deep_view(),
            text: self.text@,
        }
    }
}

/// What the parser reads from a page: the table that word alignment finds, else
/// the table that drawn lines find, else the page's text.
pub open spec fn page_choice(p: PageTablesView) -> PageView {
    match p.text_table {
        Some(t) => PageView::Table(t.rows),
        None => match p.lines_table {
            Some(t) => PageView::Table(t.rows),
            None => PageView::Text(p.text),
        },
    }
}

/// What the parser reads from each page.
pub open spec fn chosen_pages(pages: Seq<PageTablesView>) -> Seq<PageView> {
    pages.map_values(|p: PageTablesView| page_choice(p))
}

/// Chooses what the parser reads from a page, as [`page_choice`] says.
pub fn page_content(tables: PageTables) -> (r: PageContent)
    ensures
        r.deep_view() == page_choice(tables.deep_view()),
{
    match tables.text_table {
        Some(t) => PageContent::Table(t.rows),
        None => match tables.lines_table {
            Some(t) => PageContent::Table(t.rows),
            None => PageContent::Text(tables.text),
        },
    }
}

/// What page number `page` (counted from 1) does to a record: a table is logged
/// with its size and its rows processed; without one, the page's text is scanned.
pub open spec fn page_step(r: RecordView, page: nat, content: PageView, codes: Seq<Seq<char>>) -> RecordView {
    match content {
        PageView::Table(t) => table_step(
            r.note(
                LogEntry::TableFound {
                    page,
                    rows: t.len(),
                    columns: if t.len() > 0 {
                        t[0].len()
                    } else {
                        0
                    },
                },
            ),
            t,
            codes,
        ),
        PageView::Text(s) => text_scan(r.note(LogEntry::NoTable { page }), s, codes),
    }
}

/// What the pages do to a record, in order, numbered from 1.
pub open spec fn pages_step(r: RecordView, pages: Seq<PageView>, codes: Seq<Seq<char>>) -> RecordView
    decreases pages.len(),
{
    if pages.len() == 0 {
        r
    } else {
        page_step(pages_step(r, pages.drop_last(), codes), pages.len(), pages.last(), codes)
    }
}

/// The record with a header field set.
pub open spec fn set_field(r: RecordView, field: HeaderField, value: Option<Seq<char>>) -> RecordView {
    match field {
        HeaderField::Usn => RecordView { usn: value, ..r },
        HeaderField::Name => RecordView { name: value, ..r },
        HeaderField::Semester => RecordView { semester: value, ..r },
    }
}

/// Looking a header field up in `text`: found, it is set and logged; missing, that
/// is logged.
pub open spec fn header_step(r: RecordView, field: HeaderField, text: Seq<char>) -> RecordView {
    match header_value(field, text) {
        Some(v) => set_field(r, field, Some(v)).note(LogEntry::FieldFound { field, value: v }),
        None => r.note(LogEntry::FieldMissing { field }),
    }
}

/// The length in bytes of the UTF-8 encoding of `text`, as `str::len` gives it.
pub open spec fn utf8_length(text: Seq<char>) -> nat {
    (vstd::utf8::encode_utf8(text).len() as usize) as nat
}

/// The record read from an opened sheet: the opening and the length in bytes of the
/// sheet's text are logged, the seat number, name and semester are looked up in
/// that text, then the pages are processed.
pub open spec fn sheet_record(
    path: Seq<char>,
    text: Seq<char>,
    pages: Seq<PageView>,
    codes: Seq<Seq<char>>,
) -> RecordView {
    let r0 = RecordView::empty().note(LogEntry::Opened { path }).note(
        LogEntry::TextLength { bytes: utf8_length(text) },
    );
    let r1 = header_step(
        header_step(header_step(r0, HeaderField::Usn, text), HeaderField::Name, text),
        HeaderField::Semester,
        text,
    );
    pages_step(r1, pages, codes)
}

/// The record read from plain text: the header fields as found, unlogged, then the
/// text scanned for the codes.
pub open spec fn text_record(text: Seq<char>, codes: Seq<Seq<char>>) -> RecordView {
    text_scan(
        RecordView {
            usn: header_value(HeaderField::Usn, text),
            name: header_value(HeaderField::Name, text),
            semester: header_value(HeaderField::Semester, text),
            marks: Map::empty(),
            logs: seq![],
        },
        text,
        codes,
    )
}

/// The record of a sheet that could not be opened: only the failure, logged.
pub open spec fn unopened_record(path: Seq<char>, error: Seq<char>) -> RecordView {
    RecordView::empty().note(LogEntry::OpenFailed { path, error })
}

/// The value of a header field in a record.
pub open spec fn field_value(r: RecordView, field: HeaderField) -> Option<Seq<char>> {
    match field {
        HeaderField::Usn => r.usn,
        HeaderField::Name => r.name,
        HeaderField::Semester => r.semester,
    }
}

/// Looks a header field up, sets it and logs the outcome.
fn read_header_field(text: &str, field: HeaderField, record: &mut StudentRecord)
    requires
        old(record).wf(),
    ensures
        final(record).wf(),
        final(record)@ == header_step(old(record)@, field, text@),
        header_shape(field, field_value(old(record)@, field)) ==> header_shape(
            field,
            field_value(final(record)@, field),
        ),
{
    match find_header_field(text, field) {
        Some(v) => {
            let shown = v.clone();
            match field {
                HeaderField::Usn => record.usn = Some(v),
                HeaderField::Name => record.name = Some(v),
                HeaderField::Semester => record.semester = Some(v),
            }
            record.log(LogEvent::FieldFound { field, value: shown });
        },
        None => {
            record.log(LogEvent::FieldMissing { field });
        },
    }
}

/// Processes page number `page` as [`page_step`] says.
pub fn process_page(page: usize, content: &PageContent, codes: &CodeSet, record: &mut StudentRecord)
    requires
        old(record).wf(),
    ensures
        final(record).wf(),
        final(record)@ == page_step(old(record)@, page as nat, content.deep_view(), codes@),
{
    match content {
        PageContent::Table(t) => {
            let columns = if t.len() > 0 {
                t[0].len()
            } else {
                0
            };
            record.log(LogEvent::TableFound { page, rows: t.len(), columns });
            process_table(t, codes, record);
        },
        PageContent::Text(s) => {
            record.log(LogEvent::NoTable { page });
            parse_text_lines(s.as_str(), codes, record);
        },
    }
}

/// Reads the record of an opened sheet from its text and what its pages offer, as
/// [`sheet_record`] says, looking for the given subject codes in upper case.
pub fn record_from_content(
    pdf_path: &str,
    full_text: &str,
    pages: &Vec<PageContent>,
    subject_codes: &[String],
) -> (r: StudentRecord)
    ensures
        r.wf(),
        r@ == sheet_record(
            pdf_path@,
            full_text@,
            pages.deep_view(),
            code_list(strings_view(subject_codes@)),
        ),
        header_shapes(r@),
{
    let mut record = StudentRecord::new();
    record.log(LogEvent::Opened { path: string_from(pdf_path) });
    let codes = CodeSet::new(subject_codes);
    record.log(LogEvent::TextLength { bytes: full_text.len() });
    read_header_field(full_text, HeaderField::Usn, &mut record);
    read_header_field(full_text, HeaderField::Name, &mut record);
    read_header_field(full_text, HeaderField::Semester, &mut record);
    let ghost ps = pages.deep_view();
    let ghost start = record@;
    assert(header_shapes(start));
    let mut i: usize = 0;
    while i < pages.len()
        invariant
            i <= pages.len(),
            ps == pages.deep_view(),
            record.wf(),
            record@ == pages_step(start, ps.take(i as int), codes@),
        decreases pages.len() - i,
    {
        assert(ps.take(i + 1).drop_last() =~= ps.take(i as int));
        assert(ps[i as int] == pages[i as int].deep_view());
        process_page(i + 1, &pages[i], &codes, &mut record);
        i += 1;
    }
    assert(ps.take(pages.len() as int) =~= ps);
    proof {
        crate::laws::law_pages_step_extends(start, ps, codes@);
    }
    record
}

/// Reads the record of an opened sheet from its text and what each page offers,
/// as [`sheet_record`] says of the content chosen from each page.
pub fn record_from_tables(
    pdf_path: &str,
    full_text: &str,
    pages: Vec<PageTables>,
    subject_codes: &[String],
) -> (r: StudentRecord)
    ensures
        r.wf(),
        r@ == sheet_record(
            pdf_path@,
            full_text@,
            chosen_pages(pages.deep_view()),
            code_list(strings_view(subject_codes@)),
        ),
        header_shapes(r@),
{
    let ghost given = pages.deep_view();
    let mut contents: Vec<PageContent> = Vec::new();
    let mut rest = pages;
    while rest.len() > 0
        invariant
            given.len() == contents.len() + rest.len(),
            forall|k: int| 0 <= k < rest.len() ==> (#[trigger] rest.deep_view()[k]) == given[contents.len() + k],
            forall|k: int| 0 <= k < contents.len() ==> (#[trigger] contents.deep_view()[k]) == page_choice(given[k]),
        decreases rest.len(),
    {
        let ghost before = rest.deep_view();
        let ghost done = contents.deep_view();
        let p = rest.remove(0);
        assert(p.deep_view() == before[0]);
        assert forall|k: int| 0 <= k < rest.len() implies (#[trigger] rest.deep_view()[k]) == given[done.len() + 1 + k] by {
            assert(rest.deep_view()[k] == before[k + 1]);
        }
        let c = page_content(p);
        contents.push(c);
        assert forall|k: int| 0 <= k < contents.len() implies (#[trigger] contents.deep_view()[k]) == page_choice(given[k]) by {
            if k < done.len() {
                assert(contents.deep_view()[k] == done[k]);
            }
        }
    }
    assert(contents.deep_view() =~= chosen_pages(given));
    record_from_content(pdf_path, full_text, &contents, subject_codes)
}

/// Reads the record of a sheet given as plain text, as [`text_record`] says.
pub fn parse_text_record(text: &str, subject_codes: &[String]) -> (r: StudentRecord)
    ensures
        r.wf(),
        r@ == text_record(text@, code_list(strings_view(subject_codes@))),
        header_shapes(r@),
{
    let codes = CodeSet::new(subject_codes);
    let mut record = StudentRecord::new();
    record.usn = find_header_field(text, HeaderField::Usn);
    record.name = find_header_field(text, HeaderField::Name);
    record.semester = find_header_field(text, HeaderField::Semester);
    let ghost start = record@;
    parse_text_lines(text, &codes, &mut record);
    proof {
        crate::laws::law_text_scan_extends(start, text@, codes@);
    }
    record
}

/// The record of a sheet that could not be opened, as [`unopened_record`] says.
pub fn failed_open_record(pdf_path: &str, error: String) -> (r: StudentRecord)
    ensures
        r.wf(),
        r@ == unopened_record(pdf_path@, error@),
{
    let mut record = StudentRecord::new();
    record.log(LogEvent::OpenFailed { path: string_from(pdf_path), error });
    record
}

} // verus!
