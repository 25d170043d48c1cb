//! The record built for one student, the table of marks in it, the log of what
//! the parser saw, and the set of subject codes it looks for.
use vstd::prelude::*;
use crate::text::{chars_of, same_chars, strings_view, upper, upper_chars};

verus! {

// ---------------------------------------------------------------------------
// Marks
// ---------------------------------------------------------------------------

/// A mark table as entries (code, internal, external): the view of a list of
/// entries is what writing them in order into an empty map gives.
pub open spec fn entries_map(es: Seq<(String, u32, u32)>) -> Map<Seq<char>, (u32, u32)>
    decreases es.len(),
{
    if es.len() == 0 {
        Map::empty()
    } else {
        entries_map(es.drop_last()).insert(es.last().0@, (es.last().1, es.last().2))
    }
}

/// No code occurs twice among the entries.
pub open spec fn distinct_codes(es: Seq<(String, u32, u32)>) -> bool {
    forall|i: int, j: int| 0 <= i < j < es.len() ==> #[trigger] es[i].0@ != #[trigger] es[j].0@
}

/// Internal and external marks by subject code.
pub struct MarkTable {
    entries: Vec<(String, u32, u32)>,
}

impl View for MarkTable {
    type V = Map<Seq<char>, (u32, u32)>;

    closed spec fn view(&self) -> Map<Seq<char>, (u32, u32)> {
        entries_map(self.entries@)
    }
}

proof fn lemma_entries_domain(es: Seq<(String, u32, u32)>, k: Seq<char>)
    ensures
        entries_map(es).dom().contains(k) <==> exists|i: int| 0 <= i < es.len() && #[trigger] es[i].0@ == k,
    decreases es.len(),
{
    if es.len() > 0 {
        lemma_entries_domain(es.drop_last(), k);
        if entries_map(es.drop_last()).dom().contains(k) {
            let i = choose|i: int| 0 <= i < es.drop_last().len() && #[trigger] es.drop_last()[i].0@ == k;
            assert(es[i].0@ == k);
        }
        if exists|i: int| 0 <= i < es.len() && #[trigger] es[i].0@ == k {
            let i = choose|i: int| 0 <= i < es.len() && #[trigger] es[i].0@ == k;
            if i < es.len() - 1 {
                assert(es.drop_last()[i].0@ == k);
            }
        }
    }
}

proof fn lemma_entries_value(es: Seq<(String, u32, u32)>, i: int)
    requires
        distinct_codes(es),
        0 <= i < es.len(),
    ensures
        entries_map(es).dom().contains(es[i].0@),
        entries_map(es)[es[i].0@] == (es[i].1, es[i].2),
    decreases es.len(),
{
    if i < es.len() - 1 {
        let d = es.drop_last();
        assert(d[i] == es[i]);
        assert(distinct_codes(d)) by {
            assert forall|a: int, b: int| 0 <= a < b < d.len() implies #[trigger] d[a].0@ != #[trigger] d[b].0@ by {
                assert(d[a] == es[a] && d[b] == es[b]);
            }
        }
        lemma_entries_value(d, i);
        assert(es[i].0@ != es[es.len() - 1].0@);
    }
}

proof fn lemma_entries_update(es: Seq<(String, u32, u32)>, i: int, e: (String, u32, u32))
    requires
        distinct_codes(es),
        0 <= i < es.len(),
        es[i].0@ == e.0@,
    ensures
        entries_map(es.update(i, e)) =~= entries_map(es).insert(e.0@, (e.1, e.2)),
        distinct_codes(es.update(i, e)),
    decreases es.len(),
{
    let u = es.update(i, e);
    assert(distinct_codes(u)) by {
        assert forall|a: int, b: int| 0 <= a < b < u.len() implies #[trigger] u[a].0@ != #[trigger] u[b].0@ by {
            assert(es[a].0@ != es[b].0@);
        }
    }
    if i == es.len() - 1 {
        assert(u.drop_last() =~= es.drop_last());
    } else {
        let d = es.drop_last();
        assert(distinct_codes(d)) by {
            assert forall|a: int, b: int| 0 <= a < b < d.len() implies #[trigger] d[a].0@ != #[trigger] d[b].0@ by {
                assert(d[a] == es[a] && d[b] == es[b]);
            }
        }
        lemma_entries_update(d, i, e);
        assert(u.drop_last() =~= d.update(i, e));
        assert(es[i].0@ != es.last().0@);
    }
}

impl MarkTable {
    /// An empty table.
    pub fn new() -> (t: MarkTable)
        ensures
            t@ == Map::<Seq<char>, (u32, u32)>::empty(),
            t.wf(),
    {
        MarkTable { entries: Vec::new() }
    }

    /// The table holds each code once.
    pub closed spec fn wf(&self) -> bool {
        distinct_codes(self.entries@)
    }

    /// Records the marks of a subject, replacing any marks it had.
    pub fn insert(&mut self, code: String, internal: u32, external: u32)
        requires
            old(self).wf(),
        ensures
            final(self).wf(),
            final(self)@ == old(self)@.insert(code@, (internal, external)),
    {
        let ghost es = self.entries@;
        let mut i: usize = 0;
        while i < self.entries.len()
            invariant
                i <= self.entries.len(),
                self.entries@ == es,
                old(self).entries@ == es,
                distinct_codes(es),
                forall|k: int| 0 <= k < i ==> es[k].0@ != code@,
            decreases self.entries.len() - i,
        {
            if self.entries[i].0 == code {
                let entry = (code, internal, external);
                proof {
                    lemma_entries_update(es, i as int, entry);
                }
                self.entries.set(i, entry);
                assert(self.entries@ == es.update(i as int, entry));
                return;
            }
            i += 1;
        }
        let ghost k = code@;
        self.entries.push((code, internal, external));
        assert(self.entries@.drop_last() =~= es);
        assert(distinct_codes(self.entries@)) by {
            assert forall|a: int, b: int| 0 <= a < b < self.entries@.len() implies #[trigger] self.entries@[a].0@
                != #[trigger] self.entries@[b].0@ by {
                if b < es.len() {
                    assert(self.entries@[a] == es[a] && self.entries@[b] == es[b]);
                }
            }
        }
    }

    /// The marks of a subject, if recorded.
    pub fn get(&self, code: &String) -> (r: Option<(u32, u32)>)
        requires
            self.wf(),
        ensures
            r == (if self@.dom().contains(code@) { Some(self@[code@]) } else { None }),
    {
        let mut i: usize = 0;
        while i < self.entries.len()
            invariant
                i <= self.entries.len(),
                distinct_codes(self.entries@),
                forall|k: int| 0 <= k < i ==> self.entries@[k].0@ != code@,
            decreases self.entries.len() - i,
        {
            if self.entries[i].0 == *code {
                proof {
                    lemma_entries_value(self.entries@, i as int);
                }
                return Some((self.entries[i].1, self.entries[i].2));
            }
            i += 1;
        }
        proof {
            lemma_entries_domain(self.entries@, code@);
        }
        None
    }
}

// ---------------------------------------------------------------------------
// Subject codes
// ---------------------------------------------------------------------------

/// The sequence without later repeats of an element, in order of first occurrence.
pub open spec fn first_occurrences(s: Seq<Seq<char>>) -> Seq<Seq<char>>
    decreases s.len(),
{
    if s.len() == 0 {
        seq![]
    } else {
        let d = first_occurrences(s.drop_last());
        if d.contains(s.last()) {
            d
        } else {
            d.push(s.last())
        }
    }
}

/// The codes looked for, upper-cased, each once, in the order first given.
pub open spec fn code_list(subject_codes: Seq<Seq<char>>) -> Seq<Seq<char>> {
    first_occurrences(subject_codes.map_values(|c: Seq<char>| upper(c)))
}

/// Whether `code` is among `codes`.
fn holds(codes: &Vec<Vec<char>>, code: &Vec<char>) -> (r: bool)
    ensures
        r == codes.deep_view().contains(code@),
{
    let mut i: usize = 0;
    while i < codes.len()
        invariant
            i <= codes.len(),
            forall|k: int| 0 <= k < i ==> codes.deep_view()[k] != code@,
        decreases codes.len() - i,
    {
        assert(codes.deep_view()[i as int] =~= codes[i as int]@);
        if same_chars(&codes[i], code) {
            return true;
        }
        i += 1;
    }
    false
}

/// The set of subject codes that the parser looks for, in upper case.
pub struct CodeSet {
    codes: Vec<Vec<char>>,
}

impl View for CodeSet {
    type V = Seq<Seq<char>>;

    closed spec fn view(&self) -> Seq<Seq<char>> {
        self.codes.deep_view()
    }
}

impl CodeSet {
    /// The upper-case forms of the given codes, each once.
    pub fn new(subject_codes: &[String]) -> (s: CodeSet)
        ensures
            s@ == code_list(strings_view(subject_codes@)),
    {
        let ghost given = strings_view(subject_codes@);
        let ghost uppers = given.map_values(|c: Seq<char>| upper(c));
        let mut codes: Vec<Vec<char>> = Vec::new();
        let mut i: usize = 0;
        while i < subject_codes.len()
            invariant
                i <= subject_codes.len(),
                given == strings_view(subject_codes@),
                uppers == given.map_values(|c: Seq<char>| upper(c)),
                codes.deep_view() == first_occurrences(uppers.take(i as int)),
            decreases subject_codes.len() - i,
        {
            let raw = chars_of(subject_codes[i].as_str());
            let code = upper_chars(&raw);
            assert(uppers.take(i + 1).drop_last() =~= uppers.take(i as int));
            assert(uppers.take(i + 1).last() == code@);
            if !holds(&codes, &code) {
                let ghost before = codes.deep_view();
                assert(code.deep_view() =~= code@);
                codes.push(code);
                assert(codes.deep_view() =~= before.push(code@));
            }
            i += 1;
        }
        assert(uppers.take(subject_codes.len() as int) =~= uppers);
        CodeSet { codes }
    }

    /// Whether `code` is among the codes.
    pub fn contains(&self, code: &Vec<char>) -> (r: bool)
        ensures
            r == self@.contains(code@),
    {
        holds(&self.codes, code)
    }

    /// The number of codes.
    pub fn len(&self) -> (n: usize)
        ensures
            n == self@.len(),
    {
        self.codes.len()
    }

    /// The code at position `i`.
    pub fn code(&self, i: usize) -> (c: Vec<char>)
        requires
            i < self@.len(),
        ensures
            c@ == self@[i as int],
    {
        let c = self.codes[i].clone();
        assert(c@ =~= self@[i as int]);
        c
    }
}

// ---------------------------------------------------------------------------
// The log
// ---------------------------------------------------------------------------

/// A field of the sheet's header.
#[derive(Clone, Copy, Debug, PartialEq, Eq, Structural)]
pub enum HeaderField {
    /// The University Seat Number.
    Usn,
    /// The student's name.
    Name,
    /// The semester.
    Semester,
}

/// One step of what the parser saw and decided, in the order it happened.
#[derive(Debug)]
pub enum LogEvent {
    /// The document at `path` could not be opened.
    OpenFailed { path: String, error: String },
    /// The document at `path` was opened.
    Opened { path: String },
    /// The document's whole text is `bytes` bytes long (UTF-8).
    TextLength { bytes: usize },
    /// A header field was found.
    FieldFound { field: HeaderField, value: String },
    /// A header field was not found.
    FieldMissing { field: HeaderField },
    /// Page `page` (counted from 1) holds a table of `rows` rows, the first of `columns` cells.
    TableFound { page: usize, rows: usize, columns: usize },
    /// Page `page` (counted from 1) holds no table; its text is scanned instead.
    NoTable { page: usize },
    /// A table row as read, missing cells written as empty.
    RowCells { cells: Vec<String> },
    /// A table row stacked several lines deep was split into `count` rows.
    RowSplit { count: usize },
    /// One of the rows that a table row gave, missing cells written as empty.
    VirtualRowCells { cells: Vec<String> },
    /// A row in which no subject code occurs, with its upper-case text.
    RowSkipped { row_text: String },
    /// The subject codes that occur in a row.
    RowCodes { codes: Vec<String> },
    /// Marks read from the cells after the one cell that names the code.
    ColumnMarks { code: String, internal: u32, external: u32 },
    /// No marks in the cells after the cell at `column` that names the code.
    ColumnScanFailed { code: String, column: usize, tokens: Vec<String> },
    /// The row's text is scanned token by token.
    RowScanFallback { row_text: String },
    /// Marks read from the tokens that follow a code in running text.
    TextScanMarks { code: String, internal: u32, external: u32 },
    /// No marks in the tokens that follow a code in running text.
    TextScanFailed { code: String, tokens: Vec<String> },
}

/// The mathematical form of a [`LogEvent`].
pub enum LogEntry {
    OpenFailed { path: Seq<char>, error: Seq<char> },
    Opened { path: Seq<char> },
    TextLength { bytes: nat },
    FieldFound { field: HeaderField, value: Seq<char> },
    FieldMissing { field: HeaderField },
    TableFound { page: nat, rows: nat, columns: nat },
    NoTable { page: nat },
    RowCells { cells: Seq<Seq<char>> },
    RowSplit { count: nat },
    VirtualRowCells { cells: Seq<Seq<char>> },
    RowSkipped { row_text: Seq<char> },
    RowCodes { codes: Seq<Seq<char>> },
    ColumnMarks { code: Seq<char>, internal: u32, external: u32 },
    ColumnScanFailed { code: Seq<char>, column: nat, tokens: Seq<Seq<char>> },
    RowScanFallback { row_text: Seq<char> },
    TextScanMarks { code: Seq<char>, internal: u32, external: u32 },
    TextScanFailed { code: Seq<char>, tokens: Seq<Seq<char>> },
}

impl DeepView for LogEvent {
    type V = LogEntry;

    open spec fn deep_view(&self) -> LogEntry {
        match self {
            LogEvent::OpenFailed { path, error } => LogEntry::OpenFailed { path: path@, error: error@ },
            LogEvent::Opened { path } => LogEntry::Opened { path: path@ },
            LogEvent::TextLength { bytes } => LogEntry::TextLength { bytes: *bytes as nat },
            LogEvent::FieldFound { field, value } => LogEntry::FieldFound { field: *field, value: value@ },
            LogEvent::FieldMissing { field } => LogEntry::FieldMissing { field: *field },
            LogEvent::TableFound { page, rows, columns } => LogEntry::TableFound {
                page: *page as nat,
                rows: *rows as nat,
                columns: *columns as nat,
            },
            LogEvent::NoTable { page } => LogEntry::NoTable { page: *page as nat },
            LogEvent::RowCells { cells } => LogEntry::RowCells { cells: cells.deep_view() },
            LogEvent::RowSplit { count } => LogEntry::RowSplit { count: *count as nat },
            LogEvent::VirtualRowCells { cells } => LogEntry::VirtualRowCells { cells: cells.deep_view() },
            LogEvent::RowSkipped { row_text } => LogEntry::RowSkipped { row_text: row_text@ },
            LogEvent::RowCodes { codes } => LogEntry::RowCodes { codes: codes.deep_view() },
            LogEvent::ColumnMarks { code, internal, external } => LogEntry::ColumnMarks {
                code: code@,
                internal: *internal,
                external: *external,
            },
            LogEvent::ColumnScanFailed { code, column, tokens } => LogEntry::ColumnScanFailed {
                code: code@,
                column: *column as nat,
                tokens: tokens.deep_view(),
            },
            LogEvent::RowScanFallback { row_text } => LogEntry::RowScanFallback { row_text: row_text@ },
            LogEvent::TextScanMarks { code, internal, external } => LogEntry::TextScanMarks {
                code: code@,
                internal: *internal,
                external: *external,
            },
            LogEvent::TextScanFailed { code, tokens } => LogEntry::TextScanFailed {
                code: code@,
                tokens: tokens.deep_view(),
            },
        }
    }
}

// ---------------------------------------------------------------------------
// The record
// ---------------------------------------------------------------------------

/// What the parser found for one student.
pub struct StudentRecord {
    /// The University Seat Number, if found.
    pub usn: Option<String>,
    /// The student's name, if found.
    pub name: Option<String>,
    /// The semester, if found.
    pub semester: Option<String>,
    /// (internal, external) marks by upper-case subject code.
    pub marks: MarkTable,
    /// What the parser saw, in order.
    pub logs: Vec<LogEvent>,
}

/// The mathematical form of a [`StudentRecord`].
pub struct RecordView {
    pub usn: Option<Seq<char>>,
    pub name: Option<Seq<char>>,
    pub semester: Option<Seq<char>>,
    pub marks: Map<Seq<char>, (u32, u32)>,
    pub logs: Seq<LogEntry>,
}

impl RecordView {
    /// The record with one more log entry.
    pub open spec fn note(self, e: LogEntry) -> RecordView {
        RecordView { logs: self.logs.push(e), ..self }
    }

    /// The record with the marks of `code` set.
    pub open spec fn with_marks(self, code: Seq<char>, m: (u32, u32)) -> RecordView {
        RecordView { marks: self.marks.insert(code, m), ..self }
    }

    /// The record that nothing has been found for yet.
    pub open spec fn empty() -> RecordView {
        RecordView { usn: None, name: None, semester: None, marks: Map::empty(), logs: seq![] }
    }
}

impl View for StudentRecord {
    type V = RecordView;

    open spec fn view(&self) -> RecordView {
        RecordView {
            usn: self.usn.deep_view(),
            name: self.name.deep_view(),
            semester: self.semester.deep_view(),
            marks: self.marks@,
            logs: self.logs.deep_view(),
        }
    }
}

impl StudentRecord {
    /// The record is well formed: its mark table holds each code once.
    pub open spec fn wf(&self) -> bool {
        self.marks.wf()
    }

    /// A record with nothing found yet.
    pub fn new() -> (r: StudentRecord)
        ensures
            r@ == RecordView::empty(),
            r.wf(),
    {
        let r = StudentRecord {
            usn: None,
            name: None,
            semester: None,
            marks: MarkTable::new(),
            logs: Vec::new(),
        };
        assert(r.logs.deep_view() =~= Seq::<LogEntry>::empty());
        r
    }

    /// Appends an event to the log.
    pub fn log(&mut self, e: LogEvent)
        requires
            old(self).wf(),
        ensures
            final(self).wf(),
            final(self)@ == old(self)@.note(e.deep_view()),
    {
        let ghost before = self.logs.deep_view();
        let ghost entry = e.deep_view();
        self.logs.push(e);
        assert(self.logs.deep_view() =~= before.push(entry));
    }

    /// Records the marks of a subject.
    pub fn set_marks(&mut self, code: String, internal: u32, external: u32)
        requires
            old(self).wf(),
        ensures
            final(self).wf(),
            final(self)@ == old(self)@.with_marks(code@, (internal, external)),
    {
        self.marks.insert(code, internal, external);
    }
}

} // verus!
