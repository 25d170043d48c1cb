//! Tables of marks: splitting rows stacked several lines deep, finding the subject
//! codes in a row, and reading the marks from the cells after the code.
use vstd::prelude::*;
use crate::marks::{extract_marks_from_tokens, marks_of_tokens};
use crate::record::{CodeSet, LogEntry, LogEvent, RecordView, StudentRecord};
use crate::scan::{parse_text_lines, text_scan};
use crate::text::{
    chars_of, contains_chars, join_spaced, lines_of, occurs_in, split_chars, string_of,
    strings_view, trim_chars, trim_white, upper, upper_chars, words_of, Separator, TrimClass,
};

verus! {

/// A row of cells as characters; a missing cell is `None`.
pub open spec fn row_view(row: Seq<Option<String>>) -> Seq<Option<Seq<char>>> {
    row.map_values(|c: Option<String>| c.deep_view())
}

// ---------------------------------------------------------------------------
// Stacked rows
// ---------------------------------------------------------------------------

/// The trimmed lines of a cell (none for a missing cell).
pub open spec fn cell_lines(cell: Option<Seq<char>>) -> Seq<Seq<char>> {
    match cell {
        Some(s) => lines_of(s).map_values(|l: Seq<char>| trim_white(l)),
        None => seq![],
    }
}

/// The most lines that any cell of the row has (0 for a row without cells).
pub open spec fn max_lines(row: Seq<Option<Seq<char>>>) -> nat
    decreases row.len(),
{
    if row.len() == 0 {
        0
    } else {
        let m = max_lines(row.drop_last());
        let l = cell_lines(row.last()).len();
        if l > m {
            l
        } else {
            m
        }
    }
}

/// Cell `c` of the `k`-th row that a stacked row gives: the cell's `k`-th trimmed
/// line, or nothing when the cell has fewer lines or that line is empty.
pub open spec fn stacked_cell(cell: Option<Seq<char>>, k: int) -> Option<Seq<char>> {
    let ls = cell_lines(cell);
    if 0 <= k < ls.len() && ls[k].len() > 0 {
        Some(ls[k])
    } else {
        None
    }
}

/// The rows that a table row stands for. A row in which no cell has more than one
/// line is itself; otherwise, where the table extractor merged rows stacked on the
/// page into one, the `k`-th row takes the `k`-th line of every cell, for as many
/// rows as the deepest cell has lines.
pub open spec fn stacked_rows(row: Seq<Option<Seq<char>>>) -> Seq<Seq<Option<Seq<char>>>> {
    let m = max_lines(row);
    if m <= 1 {
        seq![row]
    } else {
        Seq::new(m, |k: int| Seq::new(row.len(), |c: int| stacked_cell(row[c], k)))
    }
}

/// The trimmed lines of a string.
fn trimmed_lines(s: &str) -> (r: Vec<Vec<char>>)
    ensures
        r.deep_view() == lines_of(s@).map_values(|l: Seq<char>| trim_white(l)),
{
    let chars = chars_of(s);
    let lines = split_chars(&chars, Separator::LineBreak);
    let ghost ls = lines.deep_view();
    let mut out: Vec<Vec<char>> = Vec::new();
    let mut i: usize = 0;
    while i < lines.len()
        invariant
            i <= lines.len(),
            ls == lines.deep_view(),
            out.deep_view() =~= ls.take(i as int).map_values(|l: Seq<char>| trim_white(l)),
        decreases lines.len() - i,
    {
        assert(ls[i as int] =~= lines[i as int]@);
        let t = trim_chars(&lines[i], TrimClass::Whitespace);
        let ghost before = out.deep_view();
        assert(t.deep_view() =~= t@);
        out.push(t);
        assert(out.deep_view() =~= before.push(t@));
        assert(ls.take(i + 1).map_values(|l: Seq<char>| trim_white(l)) =~= ls.take(
            i as int,
        ).map_values(|l: Seq<char>| trim_white(l)).push(trim_white(ls[i as int])));
        i += 1;
    }
    assert(ls.take(lines.len() as int) =~= ls);
    out
}

/// A copy of a cell.
pub fn clone_cell(c: &Option<String>) -> (r: Option<String>)
    ensures
        r.deep_view() == c.deep_view(),
{
    match c {
        Some(s) => Some(s.clone()),
        None => None,
    }
}

/// Splits a table row stacked several lines deep into the rows it stands for, as
/// [`stacked_rows`] says; every row given has as many cells as the row.
pub fn split_stacked_row(row: &[Option<String>]) -> (r: Vec<Vec<Option<String>>>)
    ensures
        r.deep_view() == stacked_rows(row_view(row@)),
        forall|k: int| 0 <= k < r.len() ==> (#[trigger] r@[k]).len() == row.len(),
{
    let ghost rv = row_view(row@);
    let n = row.len();
    let mut lines: Vec<Vec<Vec<char>>> = Vec::new();
    let mut most: usize = 0;
    let mut c: usize = 0;
    while c < n
        invariant
            c <= n == row.len(),
            rv == row_view(row@),
            lines.len() == c,
            forall|k: int| 0 <= k < c ==> (#[trigger] lines@[k]).deep_view() == cell_lines(rv[k]),
            most == max_lines(rv.take(c as int)),
        decreases n - c,
    {
        let ls: Vec<Vec<char>> = match &row[c] {
            Some(s) => trimmed_lines(s.as_str()),
            None => {
                let e: Vec<Vec<char>> = Vec::new();
                assert(e.deep_view() =~= Seq::<Seq<char>>::empty());
                e
            },
        };
        assert(rv.take(c + 1).drop_last() =~= rv.take(c as int));
        if ls.len() > most {
            most = ls.len();
        }
        lines.push(ls);
        c += 1;
    }
    assert(rv.take(n as int) =~= rv);
    let mut out: Vec<Vec<Option<String>>> = Vec::new();
    if most <= 1 {
        let mut copy: Vec<Option<String>> = Vec::new();
        let mut c: usize = 0;
        while c < n
            invariant
                c <= n == row.len(),
                rv == row_view(row@),
                copy.len() == c,
                forall|k: int| 0 <= k < c ==> (#[trigger] copy@[k]).deep_view() == rv[k],
            decreases n - c,
        {
            copy.push(clone_cell(&row[c]));
            c += 1;
        }
        assert(copy.deep_view() =~= rv);
        out.push(copy);
        assert(out.deep_view() =~= seq![rv]);
        return out;
    }
    let mut k: usize = 0;
    while k < most
        invariant
            k <= most,
            most == max_lines(rv),
            n == row.len() == lines.len(),
            forall|j: int| 0 <= j < n ==> (#[trigger] lines@[j]).deep_view() == cell_lines(rv[j]),
            out.len() == k,
            forall|j: int| 0 <= j < k ==> (#[trigger] out@[j]).len() == n,
            forall|j: int|
                0 <= j < k ==> (#[trigger] out@[j]).deep_view() == Seq::new(
                    n as nat,
                    |c: int| stacked_cell(rv[c], j),
                ),
        decreases most - k,
    {
        let mut vrow: Vec<Option<String>> = Vec::new();
        let mut c: usize = 0;
        while c < n
            invariant
                c <= n == lines.len(),
                k < most,
                forall|j: int| 0 <= j < n ==> (#[trigger] lines@[j]).deep_view() == cell_lines(rv[j]),
                vrow.len() == c,
                forall|j: int| 0 <= j < c ==> (#[trigger] vrow@[j]).deep_view() == stacked_cell(rv[j], k as int),
            decreases n - c,
        {
            let cl = &lines[c];
            assert(cl.deep_view() == cell_lines(rv[c as int]));
            let cell: Option<String> = if k < cl.len() {
                let l = &cl[k];
                assert(cell_lines(rv[c as int])[k as int] =~= l@);
                if l.len() == 0 {
                    None
                } else {
                    Some(string_of(l))
                }
            } else {
                None
            };
            vrow.push(cell);
            c += 1;
        }
        assert(vrow.deep_view() =~= Seq::new(n as nat, |c: int| stacked_cell(rv[c], k as int)));
        out.push(vrow);
        k += 1;
    }
    assert(out.deep_view() =~= stacked_rows(rv));
    out
}

// ---------------------------------------------------------------------------
// Codes and marks in a row
// ---------------------------------------------------------------------------

/// A cell as shown: its text, or nothing for a missing cell.
pub open spec fn shown(c: Option<Seq<char>>) -> Seq<char> {
    match c {
        Some(s) => s,
        None => seq![],
    }
}

/// The cells of a row as shown.
pub open spec fn shown_cells(row: Seq<Option<Seq<char>>>) -> Seq<Seq<char>> {
    row.map_values(|c: Option<Seq<char>>| shown(c))
}

/// The text of a row: its cells joined by spaces, in upper case.
pub open spec fn row_text(row: Seq<Option<Seq<char>>>) -> Seq<char> {
    upper(join_spaced(shown_cells(row)))
}

/// The codes that occur in `text`, in the order of the code list.
pub open spec fn codes_in(codes: Seq<Seq<char>>, text: Seq<char>) -> Seq<Seq<char>>
    decreases codes.len(),
{
    if codes.len() == 0 {
        seq![]
    } else {
        let found = codes_in(codes.drop_last(), text);
        if occurs_in(codes.last(), text) {
            found.push(codes.last())
        } else {
            found
        }
    }
}

/// The first cell from position `k` on whose upper-case text contains `code`.
pub open spec fn cell_with_code(row: Seq<Option<Seq<char>>>, code: Seq<char>, k: int) -> Option<int>
    decreases row.len() - k,
{
    if k < 0 || k >= row.len() {
        None
    } else if row[k] is Some && occurs_in(code, upper(row[k]->0)) {
        Some(k)
    } else {
        cell_with_code(row, code, k + 1)
    }
}

/// The words of the present cells, in order.
pub open spec fn cell_words(cells: Seq<Option<Seq<char>>>) -> Seq<Seq<char>>
    decreases cells.len(),
{
    if cells.len() == 0 {
        seq![]
    } else {
        match cells.last() {
            Some(s) => cell_words(cells.drop_last()) + words_of(s),
            None => cell_words(cells.drop_last()),
        }
    }
}

/// When exactly one code occurs in the row: the first cell that names it, and the
/// words of the cells after that one.
pub open spec fn column_words(row: Seq<Option<Seq<char>>>, found: Seq<Seq<char>>) -> Option<
    (int, Seq<Seq<char>>),
> {
    if found.len() == 1 {
        match cell_with_code(row, found[0], 0) {
            Some(k) => Some((k, cell_words(row.skip(k + 1)))),
            None => None,
        }
    } else {
        None
    }
}

/// Falling back on scanning the row's text token by token.
pub open spec fn row_fallback(r: RecordView, text: Seq<char>, codes: Seq<Seq<char>>) -> RecordView {
    text_scan(r.note(LogEntry::RowScanFallback { row_text: text }), text, codes)
}

/// What one row of cells does to a record.
///
/// The row is logged. When no code occurs in its text, it is skipped. Otherwise
/// the codes found are logged; when there is exactly one and a cell names it, the
/// words of the cells after that cell give its marks. When they do not, or there
/// was no such cell or more than one code, the row's text is scanned.
pub open spec fn row_step(r: RecordView, row: Seq<Option<Seq<char>>>, codes: Seq<Seq<char>>) -> RecordView {
    let r1 = r.note(LogEntry::VirtualRowCells { cells: shown_cells(row) });
    let text = row_text(row);
    let found = codes_in(codes, text);
    if found.len() == 0 {
        r1.note(LogEntry::RowSkipped { row_text: text })
    } else {
        let r2 = r1.note(LogEntry::RowCodes { codes: found });
        match column_words(row, found) {
            Some((k, toks)) => match marks_of_tokens(toks) {
                Some((ia, see)) => r2.with_marks(found[0], (ia, see)).note(
                    LogEntry::ColumnMarks { code: found[0], internal: ia, external: see },
                ),
                None => row_fallback(
                    r2.note(
                        LogEntry::ColumnScanFailed { code: found[0], column: k as nat, tokens: toks },
                    ),
                    text,
                    codes,
                ),
            },
            None => row_fallback(r2, text, codes),
        }
    }
}

/// The cells of a row as shown.
fn shown_strings(row: &Vec<Option<String>>) -> (r: Vec<String>)
    ensures
        r.deep_view() == shown_cells(row.deep_view()),
{
    let mut out: Vec<String> = Vec::new();
    let mut i: usize = 0;
    while i < row.len()
        invariant
            i <= row.len(),
            out.len() == i,
            forall|k: int| 0 <= k < i ==> (#[trigger] out@[k])@ == shown(row.deep_view()[k]),
        decreases row.len() - i,
    {
        let s = match &row[i] {
            Some(s) => s.clone(),
            None => String::new(),
        };
        out.push(s);
        i += 1;
    }
    assert(out.deep_view() =~= shown_cells(row.deep_view()));
    out
}

/// The upper-case text of a row.
fn row_text_of(row: &Vec<Option<String>>) -> (r: Vec<char>)
    ensures
        r@ == row_text(row.deep_view()),
{
    let cells = shown_strings(row);
    let ghost parts = cells.deep_view();
    let mut joined: Vec<char> = Vec::new();
    let mut i: usize = 0;
    while i < cells.len()
        invariant
            i <= cells.len(),
            parts == cells.deep_view(),
            joined@ == join_spaced(parts.take(i as int)),
        decreases cells.len() - i,
    {
        let ghost before = joined@;
        if i > 0 {
            joined.push(' ');
        }
        let part = chars_of(cells[i].as_str());
        let mut k: usize = 0;
        let ghost mid = joined@;
        while k < part.len()
            invariant
                k <= part.len(),
                joined@ == mid + part@.take(k as int),
            decreases part.len() - k,
        {
            joined.push(part[k]);
            assert(part@.take(k + 1) =~= part@.take(k as int).push(part@[k as int]));
            k += 1;
        }
        assert(part@.take(part.len() as int) =~= part@);
        let ghost p = parts.take(i + 1);
        assert(p.drop_last() =~= parts.take(i as int));
        assert(p.last() == part@);
        if i == 0 {
            assert(joined@ =~= join_spaced(p));
        } else {
            assert(joined@ =~= join_spaced(p.drop_last()) + seq![' '] + p.last());
        }
        i += 1;
    }
    assert(parts.take(cells.len() as int) =~= parts);
    upper_chars(&joined)
}

/// The codes that occur in `text`, as characters.
fn codes_found(codes: &CodeSet, text: &Vec<char>) -> (r: Vec<Vec<char>>)
    ensures
        r.deep_view() == codes_in(codes@, text@),
{
    let mut found: Vec<Vec<char>> = Vec::new();
    let mut i: usize = 0;
    while i < codes.len()
        invariant
            i <= codes@.len(),
            found.deep_view() == codes_in(codes@.take(i as int), text@),
        decreases codes@.len() - i,
    {
        let code = codes.code(i);
        assert(codes@.take(i + 1).drop_last() =~= codes@.take(i as int));
        if contains_chars(text, &code) {
            let ghost before = found.deep_view();
            assert(code.deep_view() =~= code@);
            found.push(code);
            assert(found.deep_view() =~= before.push(code@));
        }
        i += 1;
    }
    assert(codes@.take(codes@.len() as int) =~= codes@);
    found
}

/// The first cell whose upper-case text contains `code`.
fn find_cell_with_code(row: &Vec<Option<String>>, code: &Vec<char>) -> (r: Option<usize>)
    ensures
        match r {
            Some(k) => cell_with_code(row.deep_view(), code@, 0) == Some(k as int),
            None => cell_with_code(row.deep_view(), code@, 0) is None,
        },
        r matches Some(k) ==> k < row.len(),
{
    let ghost rv = row.deep_view();
    let mut k: usize = 0;
    while k < row.len()
        invariant
            k <= row.len(),
            rv == row.deep_view(),
            cell_with_code(rv, code@, 0) == cell_with_code(rv, code@, k as int),
        decreases row.len() - k,
    {
        match &row[k] {
            Some(s) => {
                let cs = chars_of(s.as_str());
                let up = upper_chars(&cs);
                if contains_chars(&up, code) {
                    return Some(k);
                }
            },
            None => {},
        }
        k += 1;
    }
    None
}

/// The words of the cells after position `k`, as strings.
fn words_after(row: &Vec<Option<String>>, k: usize) -> (r: Vec<String>)
    requires
        k < row.len(),
    ensures
        r.deep_view() == cell_words(row.deep_view().skip(k + 1)),
{
    let ghost rv = row.deep_view();
    let mut out: Vec<String> = Vec::new();
    let mut c: usize = k + 1;
    assert(rv.skip(k + 1).take(0) =~= Seq::<Option<Seq<char>>>::empty());
    while c < row.len()
        invariant
            k < c <= row.len(),
            rv == row.deep_view(),
            out.deep_view() == cell_words(rv.skip(k + 1).take(c - (k + 1))),
        decreases row.len() - c,
    {
        let ghost pre = rv.skip(k + 1).take(c - (k + 1));
        let ghost next = rv.skip(k + 1).take(c + 1 - (k + 1));
        assert(next.drop_last() =~= pre);
        assert(next.last() == rv[c as int]);
        match &row[c] {
            Some(s) => {
                let cs = chars_of(s.as_str());
                let words = split_chars(&cs, Separator::Whitespace);
                let ghost ws = words.deep_view();
                let mut w: usize = 0;
                let ghost base = out.deep_view();
                while w < words.len()
                    invariant
                        w <= words.len(),
                        ws == words.deep_view(),
                        out.deep_view() =~= base + ws.take(w as int),
                    decreases words.len() - w,
                {
                    let word = string_of(&words[w]);
                    assert(ws[w as int] =~= words[w as int]@);
                    let ghost before = out.deep_view();
                    out.push(word);
                    assert(out.deep_view() =~= before.push(words[w as int]@));
                    assert(ws.take(w + 1) =~= ws.take(w as int).push(ws[w as int]));
                    w += 1;
                }
                assert(ws.take(words.len() as int) =~= ws);
            },
            None => {},
        }
        c += 1;
    }
    assert(rv.skip(k + 1).take(row.len() - (k + 1)) =~= rv.skip(k + 1));
    out
}

/// Processes one row of cells as [`row_step`] says.
pub fn process_row(row: &Vec<Option<String>>, codes: &CodeSet, record: &mut StudentRecord)
    requires
        old(record).wf(),
    ensures
        final(record).wf(),
        final(record)@ == row_step(old(record)@, row.deep_view(), codes@),
{
    let rv = Ghost(row.deep_view());
    record.log(LogEvent::VirtualRowCells { cells: shown_strings(row) });
    let text = row_text_of(row);
    let text_str = string_of(&text);
    let found = codes_found(codes, &text);
    if found.len() == 0 {
        record.log(LogEvent::RowSkipped { row_text: text_str });
        return;
    }
    let mut listed: Vec<String> = Vec::new();
    let mut i: usize = 0;
    while i < found.len()
        invariant
            i <= found.len(),
            listed.len() == i,
            forall|k: int| 0 <= k < i ==> (#[trigger] listed@[k])@ == found.deep_view()[k],
        decreases found.len() - i,
    {
        assert(found.deep_view()[i as int] =~= found[i as int]@);
        listed.push(string_of(&found[i]));
        i += 1;
    }
    assert(listed.deep_view() =~= found.deep_view());
    record.log(LogEvent::RowCodes { codes: listed });
    if found.len() == 1 {
        assert(found.deep_view()[0] =~= found[0]@);
        match find_cell_with_code(row, &found[0]) {
            Some(k) => {
                let toks = words_after(row, k);
                assert(strings_view(toks@) =~= toks.deep_view());
                match extract_marks_from_tokens(toks.as_slice()) {
                    Some((ia, see)) => {
                        let code = string_of(&found[0]);
                        record.set_marks(code.clone(), ia, see);
                        record.log(LogEvent::ColumnMarks { code, internal: ia, external: see });
                        return;
                    },
                    None => {
                        let code = string_of(&found[0]);
                        record.log(LogEvent::ColumnScanFailed { code, column: k, tokens: toks });
                    },
                }
            },
            None => {},
        }
    }
    record.log(LogEvent::RowScanFallback { row_text: text_str.clone() });
    parse_text_lines(text_str.as_str(), codes, record);
}

// ---------------------------------------------------------------------------
// Whole rows and tables
// ---------------------------------------------------------------------------

/// What a list of rows of cells does to a record, in order.
pub open spec fn rows_step(r: RecordView, rows: Seq<Seq<Option<Seq<char>>>>, codes: Seq<Seq<char>>) -> RecordView
    decreases rows.len(),
{
    if rows.len() == 0 {
        r
    } else {
        row_step(rows_step(r, rows.drop_last(), codes), rows.last(), codes)
    }
}

/// What one row of a table does to a record: it is logged, split when stacked
/// (and the split logged), and the rows it stands for are processed in order.
pub open spec fn table_row_step(r: RecordView, row: Seq<Option<Seq<char>>>, codes: Seq<Seq<char>>) -> RecordView {
    let r1 = r.note(LogEntry::RowCells { cells: shown_cells(row) });
    let rows = stacked_rows(row);
    let r2 = if rows.len() > 1 {
        r1.note(LogEntry::RowSplit { count: rows.len() })
    } else {
        r1
    };
    rows_step(r2, rows, codes)
}

/// What the rows of a table do to a record, in order.
pub open spec fn table_step(r: RecordView, table: Seq<Seq<Option<Seq<char>>>>, codes: Seq<Seq<char>>) -> RecordView
    decreases table.len(),
{
    if table.len() == 0 {
        r
    } else {
        table_row_step(table_step(r, table.drop_last(), codes), table.last(), codes)
    }
}

/// Processes one row of a table as [`table_row_step`] says.
pub fn process_table_row(row: &Vec<Option<String>>, codes: &CodeSet, record: &mut StudentRecord)
    requires
        old(record).wf(),
    ensures
        final(record).wf(),
        final(record)@ == table_row_step(old(record)@, row.deep_view(), codes@),
{
    assert(row_view(row@) =~= row.deep_view());
    record.log(LogEvent::RowCells { cells: shown_strings(row) });
    let rows = split_stacked_row(row.as_slice());
    let ghost rs = rows.deep_view();
    if rows.len() > 1 {
        record.log(LogEvent::RowSplit { count: rows.len() });
    }
    let ghost start = record@;
    let mut i: usize = 0;
    while i < rows.len()
        invariant
            i <= rows.len(),
            rs == rows.deep_view(),
            record.wf(),
            record@ == rows_step(start, rs.take(i as int), codes@),
        decreases rows.len() - i,
    {
        assert(rs.take(i + 1).drop_last() =~= rs.take(i as int));
        assert(rs[i as int] == rows[i as int].deep_view());
        process_row(&rows[i], codes, record);
        i += 1;
    }
    assert(rs.take(rows.len() as int) =~= rs);
}

/// Processes the rows of a table as [`table_step`] says.
pub fn process_table(table: &Vec<Vec<Option<String>>>, codes: &CodeSet, record: &mut StudentRecord)
    requires
        old(record).wf(),
    ensures
        final(record).wf(),
        final(record)@ == table_step(old(record)@, table.deep_view(), codes@),
{
    let ghost ts = table.deep_view();
    let ghost start = record@;
    let mut i: usize = 0;
    while i < table.len()
        invariant
            i <= table.len(),
            ts == table.deep_view(),
            record.wf(),
            record@ == table_step(start, ts.take(i as int), codes@),
        decreases table.len() - i,
    {
        assert(ts.take(i + 1).drop_last() =~= ts.take(i as int));
        assert(ts[i as int] == table[i as int].deep_view());
        process_table_row(&table[i], codes, record);
        i += 1;
    }
    assert(ts.take(table.len() as int) =~= ts);
}

} // verus!
