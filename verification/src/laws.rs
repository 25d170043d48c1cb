//! What holds of the parser as a whole: marks are only ever recorded under the
//! subject codes asked for, records only grow, noise among the tokens after a code
//! changes nothing, and the code list holds each code once.
use vstd::prelude::*;
use crate::entries::{code_fields, codes_fields, record_fields, FieldView};
use crate::marks::{
    clean_token, lemma_number_tokens_shape, lemma_small_fits, mark_token, marks_from_numbers, marks_of_tokens,
    number_tokens,
};
use crate::pattern::header_value;
use crate::record::HeaderField;
use crate::sheet::unopened_record;
use crate::text::{
    all_digits, keeps_empty, lines_of, separates, trim_white, split_pieces, split_scan, strip_back, strip_front,
    occurs_in, trim_by, trimmed_away, Separator, TrimClass,
};
use crate::record::{code_list, first_occurrences, RecordView};
use crate::scan::{apply_hit, apply_hits, ends_marks, gather, lemma_gather_end, scan_hits, text_scan};
use crate::sheet::{header_step, page_step, pages_step, sheet_record, text_record, PageView};
use crate::table::{cell_lines, max_lines, stacked_cell, stacked_rows, codes_in, row_fallback, row_step, rows_step, table_row_step, table_step};
use crate::table::{column_words, row_text};
use crate::text::{concat_all, decimal, digit_value, is_white, upper, words_of};

verus! {

/// `r1` extends `r0` under the codes: the header fields are the same, no marks
/// were dropped, every new mark is under one of the codes, every mark set anew has
/// an external mark below 1000, and the log of `r0` is the start of the log of `r1`.
pub open spec fn extends(r0: RecordView, r1: RecordView, codes: Seq<Seq<char>>) -> bool {
    &&& r1.usn == r0.usn
    &&& r1.name == r0.name
    &&& r1.semester == r0.semester
    &&& forall|k: Seq<char>| #[trigger] r0.marks.dom().contains(k) ==> r1.marks.dom().contains(k)
    &&& forall|k: Seq<char>|
        #[trigger] r1.marks.dom().contains(k) ==> r0.marks.dom().contains(k) || codes.contains(k)
    &&& forall|k: Seq<char>|
        #[trigger] r1.marks.dom().contains(k) ==> r1.marks[k].1 <= 999 || (r0.marks.dom().contains(k)
            && r1.marks[k] == r0.marks[k])
    &&& r0.logs.len() <= r1.logs.len()
    &&& r1.logs.take(r0.logs.len() as int) == r0.logs
}

proof fn lemma_extends_refl(r: RecordView, codes: Seq<Seq<char>>)
    ensures
        extends(r, r, codes),
{
    assert(r.logs.take(r.logs.len() as int) =~= r.logs);
}

proof fn lemma_extends_trans(a: RecordView, b: RecordView, c: RecordView, codes: Seq<Seq<char>>)
    requires
        extends(a, b, codes),
        extends(b, c, codes),
    ensures
        extends(a, c, codes),
{
    assert(c.logs.take(a.logs.len() as int) =~= c.logs.take(b.logs.len() as int).take(
        a.logs.len() as int,
    ));
}

proof fn lemma_note_extends(r: RecordView, e: crate::record::LogEntry, codes: Seq<Seq<char>>)
    ensures
        extends(r, r.note(e), codes),
{
    assert(r.note(e).logs.take(r.logs.len() as int) =~= r.logs);
}

proof fn lemma_with_marks_extends(r: RecordView, code: Seq<char>, m: (u32, u32), codes: Seq<Seq<char>>)
    requires
        codes.contains(code),
        m.1 <= 999,
    ensures
        extends(r, r.with_marks(code, m), codes),
{
    assert(r.with_marks(code, m).logs.take(r.logs.len() as int) =~= r.logs);
}

/// Every code found by the scanner is one of the codes, and no word gathered after
/// it is a code or shaped like one.
pub proof fn law_scan_hits_are_codes(words: Seq<Seq<char>>, codes: Seq<Seq<char>>, i: int)
    ensures
        forall|h: int|
            0 <= h < scan_hits(words, codes, i).len() ==> codes.contains(
                (#[trigger] scan_hits(words, codes, i)[h]).0,
            ),
        forall|h: int, t: int|
            0 <= h < scan_hits(words, codes, i).len() && 0 <= t < scan_hits(words, codes, i)[h].1.len()
                ==> !ends_marks(#[trigger] scan_hits(words, codes, i)[h].1[t], codes),
    decreases words.len() - i,
{
    if 0 <= i < words.len() {
        let key = clean_token(words[i]);
        crate::scan::lemma_scan_step(words, codes, i);
        if codes.contains(key) {
            let end = gather(words, codes, i + 1, 0, seq![]).0;
            let toks = gather(words, codes, i + 1, 0, seq![]).1;
            lemma_gather_end(words, codes, i + 1, 0, seq![]);
            law_scan_hits_are_codes(words, codes, end);
            lemma_gather_no_stops(words, codes, i + 1, 0, seq![]);
            let rest = scan_hits(words, codes, end);
            let all = seq![(key, toks)] + rest;
            assert(scan_hits(words, codes, i) == all);
            assert forall|h: int| 0 <= h < all.len() implies codes.contains((#[trigger] all[h]).0) by {
                if h > 0 {
                    assert(all[h] == rest[h - 1]);
                }
            }
            assert forall|h: int, t: int| 0 <= h < all.len() && 0 <= t < all[h].1.len() implies !ends_marks(
                #[trigger] all[h].1[t],
                codes,
            ) by {
                if h > 0 {
                    assert(all[h] == rest[h - 1]);
                }
            }
        } else {
            law_scan_hits_are_codes(words, codes, i + 1);
        }
    }
}

proof fn lemma_gather_no_stops(
    words: Seq<Seq<char>>,
    codes: Seq<Seq<char>>,
    j: int,
    skip: nat,
    acc: Seq<Seq<char>>,
)
    requires
        forall|t: int| 0 <= t < acc.len() ==> !ends_marks(#[trigger] acc[t], codes),
    ensures
        forall|t: int|
            0 <= t < gather(words, codes, j, skip, acc).1.len() ==> !ends_marks(
                #[trigger] gather(words, codes, j, skip, acc).1[t],
                codes,
            ),
    decreases words.len() - j,
{
    if 0 <= j < words.len() {
        let t = clean_token(words[j]);
        if !ends_marks(t, codes) && !(!crate::scan::counts_as_mark(t) && skip + 1
            > crate::scan::MAX_SKIPPED_WORDS) {
            let next = acc.push(t);
            assert forall|x: int| 0 <= x < next.len() implies !ends_marks(#[trigger] next[x], codes) by {
                if x < acc.len() {
                    assert(next[x] == acc[x]);
                }
            }
            lemma_gather_no_stops(words, codes, j + 1, crate::scan::next_skip(t, skip), next);
            assert(gather(words, codes, j, skip, acc) == gather(
                words,
                codes,
                j + 1,
                crate::scan::next_skip(t, skip),
                next,
            ));
        }
    }
}

proof fn lemma_apply_hits_extends(r: RecordView, hits: Seq<(Seq<char>, Seq<Seq<char>>)>, codes: Seq<Seq<char>>)
    requires
        forall|h: int| 0 <= h < hits.len() ==> codes.contains((#[trigger] hits[h]).0),
    ensures
        extends(r, apply_hits(r, hits), codes),
    decreases hits.len(),
{
    if hits.len() == 0 {
        lemma_extends_refl(r, codes);
    } else {
        let d = hits.drop_last();
        assert forall|h: int| 0 <= h < d.len() implies codes.contains((#[trigger] d[h]).0) by {
            assert(d[h] == hits[h]);
        }
        lemma_apply_hits_extends(r, d, codes);
        let mid = apply_hits(r, d);
        let hit = hits.last();
        assert(codes.contains(hit.0));
        match marks_of_tokens(hit.1) {
            Some((ia, see)) => {
                law_external_mark_below_thousand(hit.1);
                lemma_with_marks_extends(mid, hit.0, (ia, see), codes);
                lemma_note_extends(
                    mid.with_marks(hit.0, (ia, see)),
                    crate::record::LogEntry::TextScanMarks { code: hit.0, internal: ia, external: see },
                    codes,
                );
                lemma_extends_trans(mid, mid.with_marks(hit.0, (ia, see)), apply_hit(mid, hit), codes);
            },
            None => {
                lemma_note_extends(
                    mid,
                    crate::record::LogEntry::TextScanFailed { code: hit.0, tokens: hit.1 },
                    codes,
                );
            },
        }
        lemma_extends_trans(r, mid, apply_hits(r, hits), codes);
    }
}

/// Scanning text only adds marks, only under the codes looked for, keeps the
/// header fields, and only appends to the log.
pub proof fn law_text_scan_extends(r: RecordView, text: Seq<char>, codes: Seq<Seq<char>>)
    ensures
        extends(r, text_scan(r, text, codes), codes),
{
    law_scan_hits_are_codes(words_of(text), codes, 0);
    lemma_apply_hits_extends(r, scan_hits(words_of(text), codes, 0), codes);
}

proof fn lemma_codes_in_sub(codes: Seq<Seq<char>>, text: Seq<char>)
    ensures
        forall|i: int| 0 <= i < codes_in(codes, text).len() ==> codes.contains(#[trigger] codes_in(codes, text)[i]),
    decreases codes.len(),
{
    if codes.len() > 0 {
        let d = codes.drop_last();
        lemma_codes_in_sub(d, text);
        let f = codes_in(d, text);
        assert forall|i: int| 0 <= i < f.len() implies codes.contains(#[trigger] f[i]) by {
            let j = choose|j: int| 0 <= j < d.len() && d[j] == f[i];
            assert(codes[j] == d[j]);
        }
        assert(codes.contains(codes.last())) by {
            assert(codes[codes.len() - 1] == codes.last());
        }
        if crate::text::occurs_in(codes.last(), text) {
            let g = f.push(codes.last());
            assert forall|i: int| 0 <= i < g.len() implies codes.contains(#[trigger] g[i]) by {
                if i < f.len() {
                    assert(g[i] == f[i]);
                }
            }
        }
    }
}

proof fn lemma_row_step_extends(r: RecordView, row: Seq<Option<Seq<char>>>, codes: Seq<Seq<char>>)
    ensures
        extends(r, row_step(r, row, codes), codes),
{
    let r1 = r.note(crate::record::LogEntry::VirtualRowCells { cells: crate::table::shown_cells(row) });
    lemma_note_extends(r, crate::record::LogEntry::VirtualRowCells { cells: crate::table::shown_cells(row) }, codes);
    let text = crate::table::row_text(row);
    let found = codes_in(codes, text);
    lemma_codes_in_sub(codes, text);
    if found.len() == 0 {
        lemma_note_extends(r1, crate::record::LogEntry::RowSkipped { row_text: text }, codes);
        lemma_extends_trans(r, r1, row_step(r, row, codes), codes);
    } else {
        let e2 = crate::record::LogEntry::RowCodes { codes: found };
        let r2 = r1.note(e2);
        lemma_note_extends(r1, e2, codes);
        lemma_extends_trans(r, r1, r2, codes);
        assert(codes.contains(found[0]));
        match crate::table::column_words(row, found) {
            Some((k, toks)) => match marks_of_tokens(toks) {
                Some((ia, see)) => {
                    let r3 = r2.with_marks(found[0], (ia, see));
                    law_external_mark_below_thousand(toks);
                    lemma_with_marks_extends(r2, found[0], (ia, see), codes);
                    let e = crate::record::LogEntry::ColumnMarks { code: found[0], internal: ia, external: see };
                    lemma_note_extends(r3, e, codes);
                    lemma_extends_trans(r2, r3, r3.note(e), codes);
                    lemma_extends_trans(r, r2, r3.note(e), codes);
                },
                None => {
                    let e = crate::record::LogEntry::ColumnScanFailed {
                        code: found[0],
                        column: k as nat,
                        tokens: toks,
                    };
                    let r3 = r2.note(e);
                    lemma_note_extends(r2, e, codes);
                    lemma_fallback_extends(r3, text, codes);
                    lemma_extends_trans(r2, r3, row_fallback(r3, text, codes), codes);
                    lemma_extends_trans(r, r2, row_fallback(r3, text, codes), codes);
                },
            },
            None => {
                lemma_fallback_extends(r2, text, codes);
                lemma_extends_trans(r, r2, row_fallback(r2, text, codes), codes);
            },
        }
    }
}

proof fn lemma_fallback_extends(r: RecordView, text: Seq<char>, codes: Seq<Seq<char>>)
    ensures
        extends(r, row_fallback(r, text, codes), codes),
{
    let e = crate::record::LogEntry::RowScanFallback { row_text: text };
    lemma_note_extends(r, e, codes);
    law_text_scan_extends(r.note(e), text, codes);
    lemma_extends_trans(r, r.note(e), row_fallback(r, text, codes), codes);
}

proof fn lemma_rows_step_extends(r: RecordView, rows: Seq<Seq<Option<Seq<char>>>>, codes: Seq<Seq<char>>)
    ensures
        extends(r, rows_step(r, rows, codes), codes),
    decreases rows.len(),
{
    if rows.len() == 0 {
        lemma_extends_refl(r, codes);
    } else {
        lemma_rows_step_extends(r, rows.drop_last(), codes);
        let mid = rows_step(r, rows.drop_last(), codes);
        lemma_row_step_extends(mid, rows.last(), codes);
        lemma_extends_trans(r, mid, rows_step(r, rows, codes), codes);
    }
}

/// Processing the rows of a table only adds marks, only under the codes looked
/// for, keeps the header fields, and only appends to the log.
pub proof fn law_table_step_extends(r: RecordView, table: Seq<Seq<Option<Seq<char>>>>, codes: Seq<Seq<char>>)
    ensures
        extends(r, table_step(r, table, codes), codes),
    decreases table.len(),
{
    if table.len() == 0 {
        lemma_extends_refl(r, codes);
    } else {
        law_table_step_extends(r, table.drop_last(), codes);
        let mid = table_step(r, table.drop_last(), codes);
        let row = table.last();
        let e = crate::record::LogEntry::RowCells { cells: crate::table::shown_cells(row) };
        let r1 = mid.note(e);
        lemma_note_extends(mid, e, codes);
        let rows = crate::table::stacked_rows(row);
        let r2 = if rows.len() > 1 {
            r1.note(crate::record::LogEntry::RowSplit { count: rows.len() })
        } else {
            r1
        };
        if rows.len() > 1 {
            lemma_note_extends(r1, crate::record::LogEntry::RowSplit { count: rows.len() }, codes);
        } else {
            lemma_extends_refl(r1, codes);
        }
        lemma_rows_step_extends(r2, rows, codes);
        lemma_extends_trans(r1, r2, rows_step(r2, rows, codes), codes);
        lemma_extends_trans(mid, r1, table_row_step(mid, row, codes), codes);
        lemma_extends_trans(r, mid, table_step(r, table, codes), codes);
    }
}

/// Processing pages only adds marks, only under the codes looked for, keeps the
/// header fields, and only appends to the log.
pub proof fn law_pages_step_extends(r: RecordView, pages: Seq<PageView>, codes: Seq<Seq<char>>)
    ensures
        extends(r, pages_step(r, pages, codes), codes),
    decreases pages.len(),
{
    if pages.len() == 0 {
        lemma_extends_refl(r, codes);
    } else {
        law_pages_step_extends(r, pages.drop_last(), codes);
        let mid = pages_step(r, pages.drop_last(), codes);
        let page = pages.len();
        match pages.last() {
            PageView::Table(t) => {
                let e = crate::record::LogEntry::TableFound {
                    page,
                    rows: t.len(),
                    columns: if t.len() > 0 {
                        t[0].len()
                    } else {
                        0
                    },
                };
                lemma_note_extends(mid, e, codes);
                law_table_step_extends(mid.note(e), t, codes);
                lemma_extends_trans(mid, mid.note(e), page_step(mid, page, pages.last(), codes), codes);
            },
            PageView::Text(s) => {
                let e = crate::record::LogEntry::NoTable { page };
                lemma_note_extends(mid, e, codes);
                law_text_scan_extends(mid.note(e), s, codes);
                lemma_extends_trans(mid, mid.note(e), page_step(mid, page, pages.last(), codes), codes);
            },
        }
        lemma_extends_trans(r, mid, pages_step(r, pages, codes), codes);
    }
}

/// Every mark in the record of a sheet is under one of the subject codes asked
/// for, in upper case, and its external mark is below 1000.
pub proof fn law_sheet_marks_are_requested(
    path: Seq<char>,
    text: Seq<char>,
    pages: Seq<PageView>,
    subject_codes: Seq<Seq<char>>,
)
    ensures
        forall|k: Seq<char>|
            #[trigger] sheet_record(path, text, pages, code_list(subject_codes)).marks.dom().contains(k)
                ==> code_list(subject_codes).contains(k) && sheet_record(
                path,
                text,
                pages,
                code_list(subject_codes),
            ).marks[k].1 <= 999,
{
    let codes = code_list(subject_codes);
    let r0 = RecordView::empty().note(crate::record::LogEntry::Opened { path }).note(
        crate::record::LogEntry::TextLength { bytes: crate::sheet::utf8_length(text) },
    );
    let r1 = header_step(
        header_step(header_step(r0, crate::record::HeaderField::Usn, text), crate::record::HeaderField::Name, text),
        crate::record::HeaderField::Semester,
        text,
    );
    assert(r1.marks == Map::<Seq<char>, (u32, u32)>::empty());
    law_pages_step_extends(r1, pages, codes);
}

/// Every mark in the record read from plain text is under one of the subject codes
/// asked for, in upper case, and its external mark is below 1000.
pub proof fn law_text_marks_are_requested(text: Seq<char>, subject_codes: Seq<Seq<char>>)
    ensures
        forall|k: Seq<char>|
            #[trigger] text_record(text, code_list(subject_codes)).marks.dom().contains(k)
                ==> code_list(subject_codes).contains(k) && text_record(
                text,
                code_list(subject_codes),
            ).marks[k].1 <= 999,
{
    let codes = code_list(subject_codes);
    let r = RecordView {
        usn: crate::pattern::header_value(crate::record::HeaderField::Usn, text),
        name: crate::pattern::header_value(crate::record::HeaderField::Name, text),
        semester: crate::pattern::header_value(crate::record::HeaderField::Semester, text),
        marks: Map::empty(),
        logs: seq![],
    };
    law_text_scan_extends(r, text, codes);
}

/// The list of codes looked for holds each code once, and holds exactly the
/// upper-case forms of the codes given.
pub proof fn law_code_list_distinct(subject_codes: Seq<Seq<char>>)
    ensures
        code_list(subject_codes).no_duplicates(),
        forall|c: Seq<char>|
            #[trigger] code_list(subject_codes).contains(c) <==> exists|i: int|
                0 <= i < subject_codes.len() && upper(subject_codes[i]) == c,
{
    let ups = subject_codes.map_values(|c: Seq<char>| upper(c));
    lemma_first_occurrences(ups);
    assert forall|c: Seq<char>| #[trigger] code_list(subject_codes).contains(c) <==> exists|i: int|
        0 <= i < subject_codes.len() && upper(subject_codes[i]) == c by {
        if ups.contains(c) {
            let i = choose|i: int| 0 <= i < ups.len() && ups[i] == c;
            assert(upper(subject_codes[i]) == c);
        }
        if exists|i: int| 0 <= i < subject_codes.len() && upper(subject_codes[i]) == c {
            let i = choose|i: int| 0 <= i < subject_codes.len() && upper(subject_codes[i]) == c;
            assert(ups[i] == c);
        }
    }
}

proof fn lemma_first_occurrences(s: Seq<Seq<char>>)
    ensures
        first_occurrences(s).no_duplicates(),
        forall|c: Seq<char>| #[trigger] first_occurrences(s).contains(c) <==> s.contains(c),
    decreases s.len(),
{
    if s.len() > 0 {
        let d = s.drop_last();
        lemma_first_occurrences(d);
        let f = first_occurrences(d);
        assert forall|c: Seq<char>| #[trigger] s.contains(c) <==> d.contains(c) || c == s.last() by {
            if s.contains(c) {
                let i = choose|i: int| 0 <= i < s.len() && s[i] == c;
                if i < d.len() {
                    assert(d[i] == c);
                }
            }
            if d.contains(c) {
                let i = choose|i: int| 0 <= i < d.len() && d[i] == c;
                assert(s[i] == c);
            }
            if c == s.last() {
                assert(s[s.len() - 1] == c);
            }
        }
        if !f.contains(s.last()) {
            let g = f.push(s.last());
            assert forall|c: Seq<char>| #[trigger] g.contains(c) <==> f.contains(c) || c == s.last() by {
                if g.contains(c) {
                    let i = choose|i: int| 0 <= i < g.len() && g[i] == c;
                    if i < f.len() {
                        assert(f[i] == c);
                    }
                }
                if f.contains(c) {
                    let i = choose|i: int| 0 <= i < f.len() && f[i] == c;
                    assert(g[i] == c);
                }
                if c == s.last() {
                    assert(g[f.len() as int] == c);
                }
            }
            assert(g.no_duplicates()) by {
                assert forall|i: int, j: int| 0 <= i < g.len() && 0 <= j < g.len() && i != j implies g[i] != g[j] by {
                    if i < f.len() && j < f.len() {
                        assert(g[i] == f[i] && g[j] == f[j]);
                    } else if i < f.len() {
                        assert(g[i] == f[i]);
                    } else if j < f.len() {
                        assert(g[j] == f[j]);
                    }
                }
            }
        }
    }
}

proof fn lemma_number_tokens_append(a: Seq<Seq<char>>, b: Seq<Seq<char>>)
    ensures
        number_tokens(a + b) == number_tokens(a) + number_tokens(b),
    decreases b.len(),
{
    if b.len() == 0 {
        assert(a + b =~= a);
        assert(number_tokens(a) + number_tokens(b) =~= number_tokens(a));
    } else {
        lemma_number_tokens_append(a, b.drop_last());
        assert((a + b).drop_last() =~= a + b.drop_last());
        assert((a + b).last() == b.last());
        match mark_token(clean_token(b.last())) {
            Some(d) => {
                assert(number_tokens(a) + number_tokens(b.drop_last()).push(d) =~= (number_tokens(a)
                    + number_tokens(b.drop_last())).push(d));
            },
            None => {},
        }
    }
}

/// A token that contributes no number (a date, a year, a word) changes nothing,
/// wherever it stands among the tokens that follow a code.
pub proof fn law_noise_tokens_ignored(before: Seq<Seq<char>>, noise: Seq<char>, after: Seq<Seq<char>>)
    requires
        mark_token(clean_token(noise)) is None,
    ensures
        marks_of_tokens(before + seq![noise] + after) == marks_of_tokens(before + after),
{
    lemma_number_tokens_append(before + seq![noise], after);
    lemma_number_tokens_append(before, after);
    lemma_number_tokens_append(before, seq![noise]);
    let one = seq![noise];
    assert(one.drop_last() =~= Seq::<Seq<char>>::empty());
    assert(one.last() == noise);
    assert(number_tokens(one.drop_last()) == Seq::<Seq<char>>::empty());
    assert(number_tokens(one) =~= Seq::<Seq<char>>::empty());
    assert(number_tokens(before) + number_tokens(one) =~= number_tokens(before));
}

proof fn lemma_pair_digits(a: Seq<char>, b: Seq<char>)
    requires
        all_digits(a),
        all_digits(b),
    ensures
        all_digits(a + b),
{
    assert forall|i: int| 0 <= i < (a + b).len() implies '0' <= #[trigger] (a + b)[i] <= '9' by {
        if i < a.len() {
            assert((a + b)[i] == a[i]);
        } else {
            assert((a + b)[i] == b[i - a.len()]);
        }
    }
}

/// Two or three numbers after a code always give marks.
pub proof fn law_few_numbers_always_read(tokens: Seq<Seq<char>>)
    requires
        2 <= number_tokens(tokens).len() <= 3,
    ensures
        marks_of_tokens(tokens) is Some,
{
    let nums = number_tokens(tokens);
    lemma_number_tokens_shape(tokens);
    assert(all_digits(nums[0]) && nums[0].len() <= 3);
    assert(all_digits(nums[1]) && nums[1].len() <= 3);
    lemma_small_fits(nums[0]);
    lemma_small_fits(nums[1]);
    if nums.len() == 3 {
        assert(all_digits(nums[2]) && nums[2].len() <= 3);
        lemma_small_fits(nums[2]);
        if nums[0].len() == 1 && nums[1].len() == 1 {
            lemma_pair_digits(nums[0], nums[1]);
            lemma_small_fits(nums[0] + nums[1]);
        }
    }
}

/// The external mark read after a code is one number of at most three digits.
pub proof fn law_external_mark_below_thousand(tokens: Seq<Seq<char>>)
    ensures
        marks_of_tokens(tokens) matches Some((ia, see)) ==> see <= 999,
{
    let nums = number_tokens(tokens);
    lemma_number_tokens_shape(tokens);
    let n = nums.len();
    if n >= 2 {
        assert(all_digits(nums[1]) && nums[1].len() <= 3);
        lemma_small_fits(nums[1]);
        if n == 3 {
            assert(all_digits(nums[2]) && nums[2].len() <= 3);
            lemma_small_fits(nums[2]);
        }
        if n >= 4 {
            assert(all_digits(nums[n - 2]) && nums[n - 2].len() <= 3);
            lemma_small_fits(nums[n - 2]);
        }
    }
}

/// A record has named fields exactly when its seat number was found.
pub proof fn law_fields_iff_seat_number(r: RecordView, subject_codes: Seq<Seq<char>>)
    ensures
        record_fields(r, subject_codes) is Some <==> r.usn is Some,
{
}

/// A sheet that could not be opened gives no fields.
pub proof fn law_unopened_sheet_gives_no_fields(
    path: Seq<char>,
    error: Seq<char>,
    subject_codes: Seq<Seq<char>>,
)
    ensures
        record_fields(unopened_record(path, error), subject_codes) is None,
{
}

/// The seat number, name and semester of a sheet's record are those found in the
/// sheet's text; processing the pages never changes them.
pub proof fn law_sheet_header_fields(
    path: Seq<char>,
    text: Seq<char>,
    pages: Seq<PageView>,
    subject_codes: Seq<Seq<char>>,
)
    ensures
        sheet_record(path, text, pages, code_list(subject_codes)).usn == header_value(HeaderField::Usn, text),
        sheet_record(path, text, pages, code_list(subject_codes)).name == header_value(HeaderField::Name, text),
        sheet_record(path, text, pages, code_list(subject_codes)).semester == header_value(
            HeaderField::Semester,
            text,
        ),
{
    let codes = code_list(subject_codes);
    let r0 = RecordView::empty().note(crate::record::LogEntry::Opened { path }).note(
        crate::record::LogEntry::TextLength { bytes: crate::sheet::utf8_length(text) },
    );
    let r1 = header_step(
        header_step(header_step(r0, HeaderField::Usn, text), HeaderField::Name, text),
        HeaderField::Semester,
        text,
    );
    law_pages_step_extends(r1, pages, codes);
}

/// The seat number, name and semester of a record read from text are those found
/// in the text; scanning never changes them.
pub proof fn law_text_header_fields(text: Seq<char>, subject_codes: Seq<Seq<char>>)
    ensures
        text_record(text, code_list(subject_codes)).usn == header_value(HeaderField::Usn, text),
        text_record(text, code_list(subject_codes)).name == header_value(HeaderField::Name, text),
        text_record(text, code_list(subject_codes)).semester == header_value(HeaderField::Semester, text),
{
    law_text_marks_are_requested(text, subject_codes);
    let r = RecordView {
        usn: header_value(HeaderField::Usn, text),
        name: header_value(HeaderField::Name, text),
        semester: header_value(HeaderField::Semester, text),
        marks: Map::empty(),
        logs: seq![],
    };
    law_text_scan_extends(r, text, code_list(subject_codes));
}

proof fn lemma_split_scan(s: Seq<char>, by: Separator)
    ensures
        forall|i: int, k: int|
            0 <= i < split_scan(s, by).0.len() && 0 <= k < split_scan(s, by).0[i].len() ==> !separates(
                #[trigger] split_scan(s, by).0[i][k],
                by,
            ),
        forall|k: int| 0 <= k < split_scan(s, by).1.len() ==> !separates(#[trigger] split_scan(s, by).1[k], by),
        !keeps_empty(by) ==> forall|i: int|
            0 <= i < split_scan(s, by).0.len() ==> (#[trigger] split_scan(s, by).0[i]).len() > 0,
    decreases s.len(),
{
    if s.len() > 0 {
        lemma_split_scan(s.drop_last(), by);
        let (done, open) = split_scan(s.drop_last(), by);
        let c = s.last();
        if separates(c, by) {
            if keeps_empty(by) || open.len() > 0 {
                let d = done.push(open);
                assert forall|i: int, k: int| 0 <= i < d.len() && 0 <= k < d[i].len() implies !separates(
                    #[trigger] d[i][k],
                    by,
                ) by {
                    if i < done.len() {
                        assert(d[i] == done[i]);
                    }
                }
                assert forall|i: int| 0 <= i < d.len() && !keeps_empty(by) implies (#[trigger] d[i]).len() > 0 by {
                    if i < done.len() {
                        assert(d[i] == done[i]);
                    }
                }
            }
        } else {
            let o = open.push(c);
            assert forall|k: int| 0 <= k < o.len() implies !separates(#[trigger] o[k], by) by {
                if k < open.len() {
                    assert(o[k] == open[k]);
                }
            }
        }
    }
}

/// The pieces of a split hold no separator; the words of a text are never empty.
pub proof fn law_split_pieces(s: Seq<char>, by: Separator)
    ensures
        forall|i: int, k: int|
            0 <= i < split_pieces(s, by).len() && 0 <= k < split_pieces(s, by)[i].len() ==> !separates(
                #[trigger] split_pieces(s, by)[i][k],
                by,
            ),
        !keeps_empty(by) ==> forall|i: int|
            0 <= i < split_pieces(s, by).len() ==> (#[trigger] split_pieces(s, by)[i]).len() > 0,
{
    lemma_split_scan(s, by);
    let (done, open) = split_scan(s, by);
    if open.len() > 0 {
        let p = done.push(open);
        assert forall|i: int, k: int| 0 <= i < p.len() && 0 <= k < p[i].len() implies !separates(
            #[trigger] p[i][k],
            by,
        ) by {
            if i < done.len() {
                assert(p[i] == done[i]);
            }
        }
        assert forall|i: int| 0 <= i < p.len() && !keeps_empty(by) implies (#[trigger] p[i]).len() > 0 by {
            if i < done.len() {
                assert(p[i] == done[i]);
            }
        }
    }
}

proof fn lemma_strip_front(s: Seq<char>, class: TrimClass)
    ensures
        exists|i: int| 0 <= i <= s.len() && strip_front(s, class) == s.subrange(i, s.len() as int),
        strip_front(s, class).len() > 0 ==> !trimmed_away(strip_front(s, class)[0], class),
    decreases s.len(),
{
    if s.len() > 0 && trimmed_away(s[0], class) {
        lemma_strip_front(s.drop_first(), class);
        let i = choose|i: int|
            0 <= i <= s.drop_first().len() && strip_front(s.drop_first(), class) == s.drop_first().subrange(
                i,
                s.drop_first().len() as int,
            );
        assert(s.drop_first().subrange(i, s.drop_first().len() as int) =~= s.subrange(i + 1, s.len() as int));
    } else {
        assert(s.subrange(0, s.len() as int) =~= s);
    }
}

proof fn lemma_strip_back(s: Seq<char>, class: TrimClass)
    ensures
        strip_back(s, class).len() <= s.len(),
        strip_back(s, class) == s.subrange(0, strip_back(s, class).len() as int),
        strip_back(s, class).len() > 0 ==> !trimmed_away(strip_back(s, class).last(), class),
    decreases s.len(),
{
    if s.len() > 0 && trimmed_away(s.last(), class) {
        lemma_strip_back(s.drop_last(), class);
        let r = strip_back(s.drop_last(), class);
        assert(s.drop_last().subrange(0, r.len() as int) =~= s.subrange(0, r.len() as int));
    } else {
        assert(s.subrange(0, s.len() as int) =~= s);
    }
}

proof fn lemma_strip_back_prefix(s: Seq<char>, class: TrimClass)
    requires
        s.len() > 0,
    ensures
        strip_back(s, class).len() > 0 ==> strip_back(s, class)[0] == s[0],
    decreases s.len(),
{
    if s.len() > 1 && trimmed_away(s.last(), class) {
        lemma_strip_back_prefix(s.drop_last(), class);
        assert(s.drop_last()[0] == s[0]);
    } else if trimmed_away(s.last(), class) {
        assert(s.drop_last().len() == 0);
        assert(strip_back(s.drop_last(), class) == s.drop_last());
    }
}

/// Trimming leaves a contiguous part of the string, with no character of the class
/// at either end.
pub proof fn law_trim_ends(s: Seq<char>, class: TrimClass)
    ensures
        occurs_in(trim_by(s, class), s),
        trim_by(s, class).len() > 0 ==> !trimmed_away(trim_by(s, class)[0], class),
        trim_by(s, class).len() > 0 ==> !trimmed_away(trim_by(s, class).last(), class),
{
    lemma_strip_front(s, class);
    let f = strip_front(s, class);
    lemma_strip_back(f, class);
    let i = choose|i: int| 0 <= i <= s.len() && f == s.subrange(i, s.len() as int);
    let t = strip_back(f, class);
    assert(t == f.subrange(0, t.len() as int));
    assert(f.subrange(0, t.len() as int) =~= s.subrange(i, i + t.len()));
    assert(s.subrange(i, i + t.len()) == t);
    if t.len() > 0 {
        lemma_strip_back_prefix(f, class);
    }
}

/// The marks that a list of codes found, each with its gathered words, writes over `m`.
pub open spec fn hit_marks(m: Map<Seq<char>, (u32, u32)>, hits: Seq<(Seq<char>, Seq<Seq<char>>)>) -> Map<
    Seq<char>,
    (u32, u32),
>
    decreases hits.len(),
{
    if hits.len() == 0 {
        m
    } else {
        let m1 = hit_marks(m, hits.drop_last());
        match marks_of_tokens(hits.last().1) {
            Some(p) => m1.insert(hits.last().0, p),
            None => m1,
        }
    }
}

proof fn lemma_apply_hits_marks(r: RecordView, hits: Seq<(Seq<char>, Seq<Seq<char>>)>)
    ensures
        apply_hits(r, hits).marks == hit_marks(r.marks, hits),
        apply_hits(r, hits).usn == r.usn,
        apply_hits(r, hits).name == r.name,
        apply_hits(r, hits).semester == r.semester,
    decreases hits.len(),
{
    if hits.len() > 0 {
        lemma_apply_hits_marks(r, hits.drop_last());
    }
}

proof fn lemma_hit_marks_union(m: Map<Seq<char>, (u32, u32)>, hits: Seq<(Seq<char>, Seq<Seq<char>>)>)
    ensures
        hit_marks(m, hits) =~= m.union_prefer_right(hit_marks(Map::empty(), hits)),
    decreases hits.len(),
{
    if hits.len() > 0 {
        lemma_hit_marks_union(m, hits.drop_last());
        lemma_hit_marks_union(Map::empty(), hits.drop_last());
    }
}

/// Scanning the same text a second time leaves the marks and the header fields as
/// the first scan left them; only the log grows.
pub proof fn law_scan_twice(r: RecordView, text: Seq<char>, codes: Seq<Seq<char>>)
    ensures
        text_scan(text_scan(r, text, codes), text, codes).marks == text_scan(r, text, codes).marks,
        text_scan(text_scan(r, text, codes), text, codes).usn == text_scan(r, text, codes).usn,
        text_scan(text_scan(r, text, codes), text, codes).name == text_scan(r, text, codes).name,
        text_scan(text_scan(r, text, codes), text, codes).semester == text_scan(r, text, codes).semester,
{
    let hits = scan_hits(words_of(text), codes, 0);
    let once = text_scan(r, text, codes);
    lemma_apply_hits_marks(r, hits);
    lemma_apply_hits_marks(once, hits);
    lemma_hit_marks_union(r.marks, hits);
    lemma_hit_marks_union(once.marks, hits);
    let f = hit_marks(Map::empty(), hits);
    assert(r.marks.union_prefer_right(f).union_prefer_right(f) =~= r.marks.union_prefer_right(f));
}

/// Some word of `words`, at position `i` or later, is `key` once cleaned.
pub open spec fn cleaned_word_from(words: Seq<Seq<char>>, i: int, key: Seq<char>) -> bool {
    exists|k: int| i <= k < words.len() && 0 <= k && #[trigger] clean_token(words[k]) == key
}

proof fn lemma_hit_keys_are_words(words: Seq<Seq<char>>, codes: Seq<Seq<char>>, i: int)
    ensures
        forall|h: int|
            0 <= h < scan_hits(words, codes, i).len() ==> cleaned_word_from(
                words,
                i,
                (#[trigger] scan_hits(words, codes, i)[h]).0,
            ),
    decreases words.len() - i,
{
    if 0 <= i < words.len() {
        let key = clean_token(words[i]);
        crate::scan::lemma_scan_step(words, codes, i);
        if codes.contains(key) {
            let end = gather(words, codes, i + 1, 0, seq![]).0;
            let toks = gather(words, codes, i + 1, 0, seq![]).1;
            lemma_gather_end(words, codes, i + 1, 0, seq![]);
            lemma_hit_keys_are_words(words, codes, end);
            let rest = scan_hits(words, codes, end);
            let all = seq![(key, toks)] + rest;
            assert(scan_hits(words, codes, i) == all);
            assert forall|h: int| 0 <= h < all.len() implies cleaned_word_from(
                words,
                i,
                (#[trigger] all[h]).0,
            ) by {
                if h > 0 {
                    assert(all[h] == rest[h - 1]);
                    let k = choose|k: int|
                        end <= k < words.len() && 0 <= k && #[trigger] clean_token(words[k])
                            == rest[h - 1].0;
                    assert(clean_token(words[k]) == all[h].0);
                } else {
                    assert(clean_token(words[i]) == all[h].0);
                }
            }
        } else {
            lemma_hit_keys_are_words(words, codes, i + 1);
            assert forall|h: int| 0 <= h < scan_hits(words, codes, i).len() implies cleaned_word_from(
                words,
                i,
                (#[trigger] scan_hits(words, codes, i)[h]).0,
            ) by {
                let key_h = scan_hits(words, codes, i + 1)[h].0;
                let k = choose|k: int|
                    i + 1 <= k < words.len() && 0 <= k && #[trigger] clean_token(words[k]) == key_h;
                assert(clean_token(words[k]) == key_h);
            }
        }
    }
}

proof fn lemma_changed_marks_are_hits(
    m: Map<Seq<char>, (u32, u32)>,
    hits: Seq<(Seq<char>, Seq<Seq<char>>)>,
)
    ensures
        forall|k: Seq<char>|
            #[trigger] hit_marks(m, hits).dom().contains(k) && (!m.dom().contains(k) || hit_marks(
                m,
                hits,
            )[k] != m[k]) ==> exists|h: int| 0 <= h < hits.len() && #[trigger] hits[h].0 == k,
    decreases hits.len(),
{
    if hits.len() > 0 {
        let d = hits.drop_last();
        lemma_changed_marks_are_hits(m, d);
        let m1 = hit_marks(m, d);
        assert forall|k: Seq<char>|
            #[trigger] hit_marks(m, hits).dom().contains(k) && (!m.dom().contains(k) || hit_marks(
                m,
                hits,
            )[k] != m[k]) implies exists|h: int| 0 <= h < hits.len() && #[trigger] hits[h].0 == k by {
            if hits.last().0 == k {
                assert(hits[hits.len() - 1].0 == k);
            } else {
                assert(m1.dom().contains(k));
                assert(hit_marks(m, hits)[k] == m1[k]);
                let h = choose|h: int| 0 <= h < d.len() && #[trigger] d[h].0 == k;
                assert(hits[h] == d[h]);
            }
        }
    }
}

/// Every mark that scanning a text sets anew or changes stands under one of the
/// codes looked for, and that code occurs in the text as a word once the word is
/// cleaned (punctuation round it removed, upper-cased).
pub proof fn law_scan_changes_only_found_codes(r: RecordView, text: Seq<char>, codes: Seq<Seq<char>>)
    ensures
        forall|k: Seq<char>|
            #[trigger] text_scan(r, text, codes).marks.dom().contains(k) && (!r.marks.dom().contains(k)
                || text_scan(r, text, codes).marks[k] != r.marks[k]) ==> codes.contains(k)
                && cleaned_word_from(words_of(text), 0, k),
{
    let words = words_of(text);
    let hits = scan_hits(words, codes, 0);
    lemma_apply_hits_marks(r, hits);
    lemma_changed_marks_are_hits(r.marks, hits);
    law_scan_hits_are_codes(words, codes, 0);
    lemma_hit_keys_are_words(words, codes, 0);
    assert forall|k: Seq<char>|
        #[trigger] text_scan(r, text, codes).marks.dom().contains(k) && (!r.marks.dom().contains(k)
            || text_scan(r, text, codes).marks[k] != r.marks[k]) implies codes.contains(k)
            && cleaned_word_from(words, 0, k) by {
        assert(hit_marks(r.marks, hits).dom().contains(k));
        let h = choose|h: int| 0 <= h < hits.len() && #[trigger] hits[h].0 == k;
        assert(codes.contains(hits[h].0));
        assert(cleaned_word_from(words, 0, hits[h].0));
    }
}

/// Some field of the list has the name `key`.
pub open spec fn names_field(f: Seq<(Seq<char>, FieldView)>, key: Seq<char>) -> bool {
    exists|j: int| 0 <= j < f.len() && #[trigger] f[j].0 == key
}

/// `key` is one of the fixed field names, or the `_INTERNALS` or `_EXTERNALS` name
/// of one of the codes.
pub open spec fn expected_field_name(key: Seq<char>, codes: Seq<Seq<char>>) -> bool {
    ||| key == "student_usn"@
    ||| key == "student_name"@
    ||| key == "SEMESTER"@
    ||| key == "logs"@
    ||| exists|i: int|
        0 <= i < codes.len() && (key == #[trigger] codes[i] + "_INTERNALS"@ || key == codes[i]
            + "_EXTERNALS"@)
}

proof fn lemma_codes_fields(m: Map<Seq<char>, (u32, u32)>, codes: Seq<Seq<char>>)
    ensures
        codes_fields(m, codes).len() == 2 * codes.len(),
        forall|i: int|
            0 <= i < codes.len() ==> codes_fields(m, codes)[2 * i] == #[trigger] code_fields(m, codes[i])[0]
                && codes_fields(m, codes)[2 * i + 1] == code_fields(m, codes[i])[1],
    decreases codes.len(),
{
    if codes.len() > 0 {
        let d = codes.drop_last();
        lemma_codes_fields(m, d);
        let a = codes_fields(m, d);
        let b = code_fields(m, codes.last());
        assert forall|i: int| 0 <= i < codes.len() implies codes_fields(m, codes)[2 * i]
            == #[trigger] code_fields(m, codes[i])[0] && codes_fields(m, codes)[2 * i + 1] == code_fields(
            m,
            codes[i],
        )[1] by {
            if i < d.len() {
                assert(codes[i] == d[i]);
            }
        }
    }
}

/// The named fields of a record with a seat number: the seat number, name and
/// semester first, then for each code asked for, in order, its `_INTERNALS` and
/// `_EXTERNALS` fields with the marks recorded under exactly that code, then the
/// log; the names are exactly these.
pub proof fn law_record_field_names(r: RecordView, codes: Seq<Seq<char>>)
    requires
        r.usn is Some,
    ensures
        record_fields(r, codes) is Some,
        ({
            let f = record_fields(r, codes)->0;
            &&& f.len() == 2 * codes.len() + 4
            &&& f[0] == ("student_usn"@, FieldView::Text(r.usn))
            &&& f[1] == ("student_name"@, FieldView::Text(r.name))
            &&& f[2] == ("SEMESTER"@, FieldView::Text(r.semester))
            &&& f[f.len() - 1] == ("logs"@, FieldView::Log(r.logs))
            &&& forall|i: int|
                0 <= i < codes.len() ==> f[3 + 2 * i] == #[trigger] code_fields(r.marks, codes[i])[0] && f[4
                    + 2 * i] == code_fields(r.marks, codes[i])[1]
            &&& forall|key: Seq<char>| #[trigger] names_field(f, key) <==> expected_field_name(key, codes)
        }),
{
    let head = seq![
        ("student_usn"@, FieldView::Text(r.usn)),
        ("student_name"@, FieldView::Text(r.name)),
        ("SEMESTER"@, FieldView::Text(r.semester)),
    ];
    let mid = codes_fields(r.marks, codes);
    let tail = seq![("logs"@, FieldView::Log(r.logs))];
    let f = head + mid + tail;
    lemma_codes_fields(r.marks, codes);
    assert(record_fields(r, codes) == Some(f));
    assert forall|i: int| 0 <= i < codes.len() implies f[3 + 2 * i] == #[trigger] code_fields(r.marks, codes[i])[0]
        && f[4 + 2 * i] == code_fields(r.marks, codes[i])[1] by {
        assert(f[3 + 2 * i] == mid[2 * i]);
        assert(f[4 + 2 * i] == mid[2 * i + 1]);
    }
    assert forall|key: Seq<char>| #[trigger] names_field(f, key) <==> expected_field_name(key, codes) by {
        if exists|j: int| 0 <= j < f.len() && #[trigger] f[j].0 == key {
            let j = choose|j: int| 0 <= j < f.len() && #[trigger] f[j].0 == key;
            if 3 <= j < f.len() - 1 {
                let i = (j - 3) / 2;
                assert(0 <= i < codes.len());
                assert(f[3 + 2 * i] == code_fields(r.marks, codes[i])[0]);
                if j == 3 + 2 * i {
                    assert(key == codes[i] + "_INTERNALS"@);
                } else {
                    assert(j == 4 + 2 * i);
                    assert(key == codes[i] + "_EXTERNALS"@);
                }
            } else if j == f.len() - 1 {
                assert(f[j] == tail[0]);
            } else {
                assert(f[j] == head[j]);
            }
        }
        if key == "student_usn"@ {
            assert(f[0].0 == key);
        }
        if key == "student_name"@ {
            assert(f[1].0 == key);
        }
        if key == "SEMESTER"@ {
            assert(f[2].0 == key);
        }
        if key == "logs"@ {
            assert(f[f.len() - 1].0 == key);
        }
        if exists|i: int| 0 <= i < codes.len() && (key == #[trigger] codes[i] + "_INTERNALS"@ || key
            == codes[i] + "_EXTERNALS"@) {
            let i = choose|i: int| 0 <= i < codes.len() && (key == #[trigger] codes[i] + "_INTERNALS"@
                || key == codes[i] + "_EXTERNALS"@);
            assert(f[3 + 2 * i] == code_fields(r.marks, codes[i])[0]);
            assert(f[4 + 2 * i] == code_fields(r.marks, codes[i])[1]);
            if key == codes[i] + "_INTERNALS"@ {
                assert(f[3 + 2 * i].0 == key);
            } else {
                assert(f[4 + 2 * i].0 == key);
            }
        }
    }
}

/// The present cells of column `c`, from the first row down.
pub open spec fn column_cells(rows: Seq<Seq<Option<Seq<char>>>>, c: int) -> Seq<Seq<char>>
    decreases rows.len(),
{
    if rows.len() == 0 {
        seq![]
    } else {
        let d = column_cells(rows.drop_last(), c);
        match rows.last()[c] {
            Some(s) => d.push(s),
            None => d,
        }
    }
}

proof fn lemma_max_lines(row: Seq<Option<Seq<char>>>, c: int)
    requires
        0 <= c < row.len(),
    ensures
        cell_lines(row[c]).len() <= max_lines(row),
    decreases row.len(),
{
    if c < row.len() - 1 {
        lemma_max_lines(row.drop_last(), c);
        assert(row.drop_last()[c] == row[c]);
    }
}

proof fn lemma_column_prefix(rows: Seq<Seq<Option<Seq<char>>>>, c: int, ls: Seq<Seq<char>>, j: int)
    requires
        0 <= j <= rows.len(),
        ls.len() <= rows.len(),
        forall|k: int|
            0 <= k < rows.len() ==> (#[trigger] rows[k])[c] == (if k < ls.len() {
                Some(ls[k])
            } else {
                None
            }),
    ensures
        column_cells(rows.take(j), c) == ls.take(if j < ls.len() { j } else { ls.len() as int }),
    decreases j,
{
    if j > 0 {
        lemma_column_prefix(rows, c, ls, j - 1);
        assert(rows.take(j).drop_last() =~= rows.take(j - 1));
        assert(rows.take(j).last() == rows[j - 1]);
        if j <= ls.len() {
            assert(ls.take(j) =~= ls.take(j - 1).push(ls[j - 1]));
        }
    } else {
        assert(rows.take(0) =~= Seq::<Seq<Option<Seq<char>>>>::empty());
        assert(ls.take(0) =~= Seq::<Seq<char>>::empty());
    }
}

/// A line without the carriage return at its end, if it has one, as `str::lines`
/// gives a line ended by `\r\n`.
pub open spec fn without_cr(l: Seq<char>) -> Seq<char> {
    if l.len() > 0 && l.last() == '\r' {
        l.drop_last()
    } else {
        l
    }
}

proof fn lemma_trim_line(l: Seq<char>)
    requires
        without_cr(l).len() > 0,
        trim_white(without_cr(l)) == without_cr(l),
    ensures
        trim_white(l) == without_cr(l),
{
    let m = without_cr(l);
    law_trim_ends(m, TrimClass::Whitespace);
    assert(!crate::text::is_white(m[0]) && !crate::text::is_white(m.last()));
    if l.len() > 0 && l.last() == '\r' {
        assert(l[0] == m[0]);
        assert(strip_front(l, TrimClass::Whitespace) == l);
        assert(l.drop_last() == m);
        assert(strip_back(m, TrimClass::Whitespace) == m);
        assert(strip_back(l, TrimClass::Whitespace) == strip_back(m, TrimClass::Whitespace));
    }
}

/// When a row is split because some cell has several lines, a missing cell stays
/// missing in every row given, and a cell whose lines (a carriage return before
/// each line feed aside) are non-empty and trimmed comes back, line by line, as the
/// present cells of its column.
pub proof fn law_stacked_column(row: Seq<Option<Seq<char>>>, c: int)
    requires
        0 <= c < row.len(),
        max_lines(row) > 1,
    ensures
        row[c] is None ==> forall|k: int|
            0 <= k < stacked_rows(row).len() ==> (#[trigger] stacked_rows(row)[k])[c] is None,
        (row[c] matches Some(s) && forall|i: int|
            0 <= i < lines_of(s).len() ==> without_cr(#[trigger] lines_of(s)[i]).len() > 0 && trim_white(
                without_cr(lines_of(s)[i]),
            ) == without_cr(lines_of(s)[i])) ==> column_cells(stacked_rows(row), c) == lines_of(
            row[c]->0,
        ).map_values(|l: Seq<char>| without_cr(l)),
{
    let rows = stacked_rows(row);
    let m = max_lines(row);
    lemma_max_lines(row, c);
    if row[c] is None {
        assert forall|k: int| 0 <= k < rows.len() implies (#[trigger] rows[k])[c] is None by {
            assert(rows[k][c] == stacked_cell(row[c], k));
        }
    }
    if row[c] is Some {
        let s = row[c]->0;
        let raw = lines_of(s);
        let ls = raw.map_values(|l: Seq<char>| without_cr(l));
        if forall|i: int|
            0 <= i < raw.len() ==> without_cr(#[trigger] raw[i]).len() > 0 && trim_white(without_cr(raw[i]))
                == without_cr(raw[i]) {
            assert forall|i: int| 0 <= i < raw.len() implies #[trigger] cell_lines(row[c])[i]
                == ls[i] by {
                lemma_trim_line(raw[i]);
            }
            assert(cell_lines(row[c]) =~= ls);
            assert forall|k: int| 0 <= k < rows.len() implies (#[trigger] rows[k])[c] == (if k < ls.len() {
                Some(ls[k])
            } else {
                None
            }) by {
                assert(rows[k][c] == stacked_cell(row[c], k));
            }
            lemma_column_prefix(rows, c, ls, rows.len() as int);
            assert(rows.take(rows.len() as int) =~= rows);
            assert(ls.take(ls.len() as int) =~= ls);
        }
    }
}

/// A header value found in a text has no white space at either end.
pub proof fn law_header_values_trimmed(field: HeaderField, text: Seq<char>)
    ensures
        header_value(field, text) matches Some(v) ==> (v.len() > 0 ==> !crate::text::is_white(v[0])
            && !crate::text::is_white(v.last())),
{
    match crate::pattern::regex_group(crate::pattern::field_pattern(field), text) {
        Some(Some(g)) => {
            law_trim_ends(g, TrimClass::Whitespace);
        },
        _ => {},
    }
}

// ---------------------------------------------------------------------------
// Only the set of codes matters
// ---------------------------------------------------------------------------

/// Two records hold the same findings: header fields and marks (logs may differ).
pub open spec fn same_findings(r1: RecordView, r2: RecordView) -> bool {
    &&& r1.usn == r2.usn
    &&& r1.name == r2.name
    &&& r1.semester == r2.semester
    &&& r1.marks == r2.marks
}

/// Two code lists hold the same codes.
pub open spec fn same_codes(a: Seq<Seq<char>>, b: Seq<Seq<char>>) -> bool {
    forall|c: Seq<char>| #[trigger] a.contains(c) <==> b.contains(c)
}

proof fn lemma_gather_same_codes(
    words: Seq<Seq<char>>,
    a: Seq<Seq<char>>,
    b: Seq<Seq<char>>,
    j: int,
    skip: nat,
    acc: Seq<Seq<char>>,
)
    requires
        same_codes(a, b),
    ensures
        gather(words, a, j, skip, acc) == gather(words, b, j, skip, acc),
    decreases words.len() - j,
{
    if 0 <= j < words.len() {
        let t = clean_token(words[j]);
        assert(a.contains(t) == b.contains(t));
        lemma_gather_same_codes(words, a, b, j + 1, crate::scan::next_skip(t, skip), acc.push(t));
    }
}

proof fn lemma_scan_same_codes(words: Seq<Seq<char>>, a: Seq<Seq<char>>, b: Seq<Seq<char>>, i: int)
    requires
        same_codes(a, b),
    ensures
        scan_hits(words, a, i) == scan_hits(words, b, i),
    decreases words.len() - i,
{
    if 0 <= i < words.len() {
        let key = clean_token(words[i]);
        crate::scan::lemma_scan_step(words, a, i);
        crate::scan::lemma_scan_step(words, b, i);
        assert(a.contains(key) == b.contains(key));
        if a.contains(key) {
            lemma_gather_same_codes(words, a, b, i + 1, 0, seq![]);
            let end = gather(words, a, i + 1, 0, seq![]).0;
            lemma_gather_end(words, a, i + 1, 0, seq![]);
            lemma_scan_same_codes(words, a, b, end);
        } else {
            lemma_scan_same_codes(words, a, b, i + 1);
        }
    }
}

proof fn lemma_text_scan_same(
    r1: RecordView,
    r2: RecordView,
    text: Seq<char>,
    a: Seq<Seq<char>>,
    b: Seq<Seq<char>>,
)
    requires
        same_codes(a, b),
        same_findings(r1, r2),
    ensures
        same_findings(text_scan(r1, text, a), text_scan(r2, text, b)),
{
    lemma_scan_same_codes(words_of(text), a, b, 0);
    let hits = scan_hits(words_of(text), a, 0);
    lemma_apply_hits_marks(r1, hits);
    lemma_apply_hits_marks(r2, hits);
}

proof fn lemma_codes_in_members(codes: Seq<Seq<char>>, text: Seq<char>)
    requires
        codes.no_duplicates(),
    ensures
        codes_in(codes, text).no_duplicates(),
        forall|x: Seq<char>|
            #[trigger] codes_in(codes, text).contains(x) <==> codes.contains(x) && crate::text::occurs_in(
                x,
                text,
            ),
    decreases codes.len(),
{
    if codes.len() > 0 {
        let d = codes.drop_last();
        assert(d.no_duplicates()) by {
            assert forall|i: int, j: int| 0 <= i < d.len() && 0 <= j < d.len() && i != j implies d[i]
                != d[j] by {
                assert(d[i] == codes[i] && d[j] == codes[j]);
            }
        }
        lemma_codes_in_members(d, text);
        let f = codes_in(d, text);
        let last = codes.last();
        assert forall|x: Seq<char>| #[trigger] codes.contains(x) <==> d.contains(x) || x == last by {
            if codes.contains(x) {
                let i = choose|i: int| 0 <= i < codes.len() && codes[i] == x;
                if i < d.len() {
                    assert(d[i] == x);
                }
            }
            if d.contains(x) {
                let i = choose|i: int| 0 <= i < d.len() && d[i] == x;
                assert(codes[i] == x);
            }
            if x == last {
                assert(codes[codes.len() - 1] == x);
            }
        }
        assert(!d.contains(last)) by {
            if d.contains(last) {
                let i = choose|i: int| 0 <= i < d.len() && d[i] == last;
                assert(codes[i] == codes[codes.len() - 1]);
            }
        }
        if crate::text::occurs_in(last, text) {
            let g = f.push(last);
            assert forall|x: Seq<char>| #[trigger] g.contains(x) <==> f.contains(x) || x == last by {
                if g.contains(x) {
                    let i = choose|i: int| 0 <= i < g.len() && g[i] == x;
                    if i < f.len() {
                        assert(f[i] == x);
                    }
                }
                if f.contains(x) {
                    let i = choose|i: int| 0 <= i < f.len() && f[i] == x;
                    assert(g[i] == x);
                }
                if x == last {
                    assert(g[f.len() as int] == x);
                }
            }
            assert(g.no_duplicates()) by {
                assert forall|i: int, j: int| 0 <= i < g.len() && 0 <= j < g.len() && i != j implies g[i]
                    != g[j] by {
                    if i < f.len() {
                        assert(g[i] == f[i]);
                    }
                    if j < f.len() {
                        assert(g[j] == f[j]);
                    }
                    if i == f.len() {
                        assert(f.contains(g[j]));
                    }
                    if j == f.len() {
                        assert(f.contains(g[i]));
                    }
                }
            }
        }
    }
}

proof fn lemma_codes_in_same(a: Seq<Seq<char>>, b: Seq<Seq<char>>, text: Seq<char>)
    requires
        a.no_duplicates(),
        b.no_duplicates(),
        same_codes(a, b),
    ensures
        codes_in(a, text).len() == codes_in(b, text).len(),
        codes_in(a, text).len() == 1 ==> codes_in(a, text)[0] == codes_in(b, text)[0],
{
    let fa = codes_in(a, text);
    let fb = codes_in(b, text);
    lemma_codes_in_members(a, text);
    lemma_codes_in_members(b, text);
    assert(fa.to_set() =~= fb.to_set()) by {
        assert forall|x: Seq<char>| fa.to_set().contains(x) <==> fb.to_set().contains(x) by {
            assert(fa.contains(x) == fb.contains(x));
        }
    }
    fa.unique_seq_to_set();
    fb.unique_seq_to_set();
    if fa.len() == 1 {
        assert(fa.contains(fa[0]));
        assert(fb.contains(fa[0]));
    }
}

proof fn lemma_row_step_same(
    r1: RecordView,
    r2: RecordView,
    row: Seq<Option<Seq<char>>>,
    a: Seq<Seq<char>>,
    b: Seq<Seq<char>>,
)
    requires
        a.no_duplicates(),
        b.no_duplicates(),
        same_codes(a, b),
        same_findings(r1, r2),
    ensures
        same_findings(row_step(r1, row, a), row_step(r2, row, b)),
{
    let text = crate::table::row_text(row);
    lemma_codes_in_same(a, b, text);
    let fa = codes_in(a, text);
    let fb = codes_in(b, text);
    if fa.len() > 0 {
        let e1 = crate::record::LogEntry::VirtualRowCells { cells: crate::table::shown_cells(row) };
        let s1 = r1.note(e1).note(crate::record::LogEntry::RowCodes { codes: fa });
        let s2 = r2.note(e1).note(crate::record::LogEntry::RowCodes { codes: fb });
        assert(crate::table::column_words(row, fa) == crate::table::column_words(row, fb));
        match crate::table::column_words(row, fa) {
            Some((k, toks)) => match marks_of_tokens(toks) {
                Some((ia, see)) => {},
                None => {
                    let t1 = s1.note(
                        crate::record::LogEntry::ColumnScanFailed { code: fa[0], column: k as nat, tokens: toks },
                    );
                    let t2 = s2.note(
                        crate::record::LogEntry::ColumnScanFailed { code: fb[0], column: k as nat, tokens: toks },
                    );
                    let e = crate::record::LogEntry::RowScanFallback { row_text: text };
                    lemma_text_scan_same(t1.note(e), t2.note(e), text, a, b);
                },
            },
            None => {
                let e = crate::record::LogEntry::RowScanFallback { row_text: text };
                lemma_text_scan_same(s1.note(e), s2.note(e), text, a, b);
            },
        }
    }
}

proof fn lemma_rows_step_same(
    r1: RecordView,
    r2: RecordView,
    rows: Seq<Seq<Option<Seq<char>>>>,
    a: Seq<Seq<char>>,
    b: Seq<Seq<char>>,
)
    requires
        a.no_duplicates(),
        b.no_duplicates(),
        same_codes(a, b),
        same_findings(r1, r2),
    ensures
        same_findings(rows_step(r1, rows, a), rows_step(r2, rows, b)),
    decreases rows.len(),
{
    if rows.len() > 0 {
        lemma_rows_step_same(r1, r2, rows.drop_last(), a, b);
        lemma_row_step_same(
            rows_step(r1, rows.drop_last(), a),
            rows_step(r2, rows.drop_last(), b),
            rows.last(),
            a,
            b,
        );
    }
}

proof fn lemma_table_step_same(
    r1: RecordView,
    r2: RecordView,
    table: Seq<Seq<Option<Seq<char>>>>,
    a: Seq<Seq<char>>,
    b: Seq<Seq<char>>,
)
    requires
        a.no_duplicates(),
        b.no_duplicates(),
        same_codes(a, b),
        same_findings(r1, r2),
    ensures
        same_findings(table_step(r1, table, a), table_step(r2, table, b)),
    decreases table.len(),
{
    if table.len() > 0 {
        lemma_table_step_same(r1, r2, table.drop_last(), a, b);
        let m1 = table_step(r1, table.drop_last(), a);
        let m2 = table_step(r2, table.drop_last(), b);
        let row = table.last();
        let e = crate::record::LogEntry::RowCells { cells: crate::table::shown_cells(row) };
        let rows = stacked_rows(row);
        let n1 = if rows.len() > 1 {
            m1.note(e).note(crate::record::LogEntry::RowSplit { count: rows.len() })
        } else {
            m1.note(e)
        };
        let n2 = if rows.len() > 1 {
            m2.note(e).note(crate::record::LogEntry::RowSplit { count: rows.len() })
        } else {
            m2.note(e)
        };
        lemma_rows_step_same(n1, n2, rows, a, b);
    }
}

proof fn lemma_pages_step_same(
    r1: RecordView,
    r2: RecordView,
    pages: Seq<PageView>,
    a: Seq<Seq<char>>,
    b: Seq<Seq<char>>,
)
    requires
        a.no_duplicates(),
        b.no_duplicates(),
        same_codes(a, b),
        same_findings(r1, r2),
    ensures
        same_findings(pages_step(r1, pages, a), pages_step(r2, pages, b)),
    decreases pages.len(),
{
    if pages.len() > 0 {
        lemma_pages_step_same(r1, r2, pages.drop_last(), a, b);
        let m1 = pages_step(r1, pages.drop_last(), a);
        let m2 = pages_step(r2, pages.drop_last(), b);
        let page = pages.len();
        match pages.last() {
            PageView::Table(t) => {
                let e = crate::record::LogEntry::TableFound {
                    page,
                    rows: t.len(),
                    columns: if t.len() > 0 {
                        t[0].len()
                    } else {
                        0
                    },
                };
                lemma_table_step_same(m1.note(e), m2.note(e), t, a, b);
            },
            PageView::Text(s) => {
                let e = crate::record::LogEntry::NoTable { page };
                lemma_text_scan_same(m1.note(e), m2.note(e), s, a, b);
            },
        }
    }
}

/// The upper-case forms of the codes, as a set.
pub open spec fn upper_set(s: Seq<Seq<char>>) -> Set<Seq<char>> {
    Set::new(|c: Seq<char>| exists|i: int| 0 <= i < s.len() && #[trigger] upper(s[i]) == c)
}

proof fn lemma_same_code_lists(sa: Seq<Seq<char>>, sb: Seq<Seq<char>>)
    requires
        upper_set(sa) == upper_set(sb),
    ensures
        code_list(sa).no_duplicates(),
        code_list(sb).no_duplicates(),
        same_codes(code_list(sa), code_list(sb)),
{
    law_code_list_distinct(sa);
    law_code_list_distinct(sb);
    assert forall|c: Seq<char>| #[trigger] code_list(sa).contains(c) <==> code_list(sb).contains(c) by {
        if code_list(sa).contains(c) {
            let i = choose|i: int| 0 <= i < sa.len() && upper(sa[i]) == c;
            assert(upper_set(sa).contains(c));
            assert(upper_set(sb).contains(c));
            let j = choose|j: int| 0 <= j < sb.len() && #[trigger] upper(sb[j]) == c;
            assert(upper(sb[j]) == c);
        }
        if code_list(sb).contains(c) {
            let j = choose|j: int| 0 <= j < sb.len() && upper(sb[j]) == c;
            assert(upper_set(sb).contains(c));
            assert(upper_set(sa).contains(c));
            let i = choose|i: int| 0 <= i < sa.len() && #[trigger] upper(sa[i]) == c;
            assert(upper(sa[i]) == c);
        }
    }
}

/// Subject-code lists with the same set of upper-case codes give a sheet the same
/// header fields and marks: order, repeats and letter case of the codes do not matter.
pub proof fn law_sheet_same_codes_same_findings(
    path: Seq<char>,
    text: Seq<char>,
    pages: Seq<PageView>,
    sa: Seq<Seq<char>>,
    sb: Seq<Seq<char>>,
)
    requires
        upper_set(sa) == upper_set(sb),
    ensures
        same_findings(sheet_record(path, text, pages, code_list(sa)), sheet_record(path, text, pages, code_list(sb))),
{
    lemma_same_code_lists(sa, sb);
    let r0 = RecordView::empty().note(crate::record::LogEntry::Opened { path }).note(
        crate::record::LogEntry::TextLength { bytes: crate::sheet::utf8_length(text) },
    );
    let r1 = header_step(
        header_step(header_step(r0, HeaderField::Usn, text), HeaderField::Name, text),
        HeaderField::Semester,
        text,
    );
    lemma_pages_step_same(r1, r1, pages, code_list(sa), code_list(sb));
}

/// Subject-code lists with the same set of upper-case codes give a text the same
/// header fields and marks.
pub proof fn law_text_same_codes_same_findings(text: Seq<char>, sa: Seq<Seq<char>>, sb: Seq<Seq<char>>)
    requires
        upper_set(sa) == upper_set(sb),
    ensures
        same_findings(text_record(text, code_list(sa)), text_record(text, code_list(sb))),
{
    lemma_same_code_lists(sa, sb);
    let r = RecordView {
        usn: header_value(HeaderField::Usn, text),
        name: header_value(HeaderField::Name, text),
        semester: header_value(HeaderField::Semester, text),
        marks: Map::empty(),
        logs: seq![],
    };
    lemma_text_scan_same(r, r, text, code_list(sa), code_list(sb));
}

// ---------------------------------------------------------------------------
// Which tokens count, and how three numbers are read
// ---------------------------------------------------------------------------

/// The cleaned tokens that give a number are exactly the digit strings of one to
/// three digits, which give themselves, and the words AB and ABS, which give 0.
pub proof fn law_mark_token_cases(t: Seq<char>)
    ensures
        mark_token(t) is Some <==> ((1 <= t.len() <= 3 && forall|i: int|
            0 <= i < t.len() ==> '0' <= #[trigger] t[i] <= '9') || t == seq!['A', 'B'] || t == seq![
            'A',
            'B',
            'S',
        ]),
        mark_token(t) matches Some(d) ==> (if t == seq!['A', 'B'] || t == seq!['A', 'B', 'S'] {
            d == seq!['0']
        } else {
            d == t
        }),
{
    let ab = seq!['A', 'B'];
    let abs = seq!['A', 'B', 'S'];
    assert(!all_digits(ab)) by {
        assert(ab[0] == 'A');
    }
    assert(!all_digits(abs)) by {
        assert(abs[0] == 'A');
    }
    if t.len() == 6 {
        assert(t != ab && t != abs);
    }
}

/// A stray letter after a code (a result letter such as A or P, once cleaned) adds
/// no number and changes nothing.
pub proof fn law_stray_letter_ignored(tokens: Seq<Seq<char>>, letter: Seq<char>)
    requires
        clean_token(letter).len() == 1,
        !('0' <= clean_token(letter)[0] <= '9'),
    ensures
        marks_of_tokens(tokens.push(letter)) == marks_of_tokens(tokens),
{
    let t = clean_token(letter);
    law_mark_token_cases(t);
    assert(t != seq!['A', 'B']);
    assert(t != seq!['A', 'B', 'S']);
    assert(mark_token(t) is None);
    assert(tokens.push(letter).drop_last() =~= tokens);
    assert(tokens.push(letter).last() == letter);
}

/// Of three numbers read after a code (digit strings of one to three digits), the
/// first is the internal mark and the second the external mark; only when the
/// first two are single digits and the third is longer are those two digits the
/// tens and units of the internal mark, and the third the external mark.
pub proof fn law_three_numbers(a: Seq<char>, b: Seq<char>, c: Seq<char>)
    requires
        all_digits(a),
        all_digits(b),
        all_digits(c),
        1 <= a.len() <= 3,
        1 <= b.len() <= 3,
        1 <= c.len() <= 3,
    ensures
        a.len() == 1 && b.len() == 1 && c.len() >= 2 ==> marks_from_numbers(seq![a, b, c]) == Some(
            ((10 * decimal(a) + decimal(b)) as u32, decimal(c) as u32),
        ),
        !(a.len() == 1 && b.len() == 1 && c.len() >= 2) ==> marks_from_numbers(seq![a, b, c])
            == Some((decimal(a) as u32, decimal(b) as u32)),
{
    let nums = seq![a, b, c];
    assert(nums[0] == a && nums[1] == b && nums[2] == c);
    lemma_small_fits(a);
    lemma_small_fits(b);
    lemma_small_fits(c);
    if a.len() == 1 && b.len() == 1 {
        lemma_pair_digits(a, b);
        lemma_small_fits(a + b);
        assert((a + b).drop_last() =~= a);
        assert((a + b).last() == b[0]);
        assert(b.drop_last() =~= Seq::<char>::empty());
        assert(decimal(b.drop_last()) == 0);
        assert(b.last() == b[0]);
        assert(decimal(b) == digit_value(b[0]));
        assert(decimal(a + b) == 10 * decimal(a) + decimal(b));
    }
}

// ---------------------------------------------------------------------------
// A table row whose column read fails is scanned
// ---------------------------------------------------------------------------

proof fn lemma_text_scan_marks(x: RecordView, y: RecordView, text: Seq<char>, codes: Seq<Seq<char>>)
    requires
        x.marks == y.marks,
    ensures
        text_scan(x, text, codes).marks == text_scan(y, text, codes).marks,
{
    let hits = scan_hits(words_of(text), codes, 0);
    lemma_apply_hits_marks(x, hits);
    lemma_apply_hits_marks(y, hits);
}

/// What a row does to the marks: a row naming none of the codes changes none; a
/// row naming exactly one code in a cell, with marks in the words of the cells after
/// that cell, sets those marks; and any other row naming a code, a failed column
/// read included, gives the marks that scanning the row's text gives.
pub proof fn law_row_marks(r: RecordView, row: Seq<Option<Seq<char>>>, codes: Seq<Seq<char>>)
    ensures
        codes_in(codes, row_text(row)).len() == 0 ==> row_step(r, row, codes).marks == r.marks,
        codes_in(codes, row_text(row)).len() > 0 && !(column_words(row, codes_in(codes, row_text(row)))
            matches Some((k, toks)) && marks_of_tokens(toks) is Some) ==> row_step(r, row, codes).marks
            == text_scan(r, row_text(row), codes).marks,
        column_words(row, codes_in(codes, row_text(row))) matches Some((k, toks)) ==> (marks_of_tokens(
            toks,
        ) matches Some(m) ==> row_step(r, row, codes).marks == r.marks.insert(
            codes_in(codes, row_text(row))[0],
            m,
        )),
{
    let text = row_text(row);
    let found = codes_in(codes, text);
    if found.len() > 0 {
        let r2 = r.note(crate::record::LogEntry::VirtualRowCells { cells: crate::table::shown_cells(row) }).note(
            crate::record::LogEntry::RowCodes { codes: found },
        );
        match column_words(row, found) {
            Some((k, toks)) => {
                match marks_of_tokens(toks) {
                    Some(mm) => {
                        assert(row_step(r, row, codes) == r2.with_marks(found[0], mm).note(
                            crate::record::LogEntry::ColumnMarks {
                                code: found[0],
                                internal: mm.0,
                                external: mm.1,
                            },
                        ));
                    },
                    None => {},
                }
                let r3 = r2.note(
                    crate::record::LogEntry::ColumnScanFailed { code: found[0], column: k as nat, tokens: toks },
                );
                lemma_text_scan_marks(
                    r3.note(crate::record::LogEntry::RowScanFallback { row_text: text }),
                    r,
                    text,
                    codes,
                );
            },
            None => {
                lemma_text_scan_marks(
                    r2.note(crate::record::LogEntry::RowScanFallback { row_text: text }),
                    r,
                    text,
                    codes,
                );
            },
        }
    }
}

// ---------------------------------------------------------------------------
// Every page of a sheet is read
// ---------------------------------------------------------------------------

/// A sheet with one more page is read as the sheet without it, then that page,
/// numbered after the others: every page is processed, in order.
pub proof fn law_sheet_reads_every_page(
    path: Seq<char>,
    text: Seq<char>,
    pages: Seq<PageView>,
    page: PageView,
    codes: Seq<Seq<char>>,
)
    ensures
        sheet_record(path, text, pages.push(page), codes) == page_step(
            sheet_record(path, text, pages, codes),
            (pages.len() + 1) as nat,
            page,
            codes,
        ),
{
    assert(pages.push(page).drop_last() =~= pages);
    assert(pages.push(page).last() == page);
}

/// A page added after the others whose table is one single-line row naming one code
/// in a cell, with marks in the cells after it, records those marks under the code,
/// whatever pages came before.
pub proof fn law_table_page_marks(
    path: Seq<char>,
    text: Seq<char>,
    pages: Seq<PageView>,
    row: Seq<Option<Seq<char>>>,
    codes: Seq<Seq<char>>,
    k: int,
    toks: Seq<Seq<char>>,
    m: (u32, u32),
)
    requires
        max_lines(row) <= 1,
        column_words(row, codes_in(codes, row_text(row))) == Some((k, toks)),
        marks_of_tokens(toks) == Some(m),
    ensures
        sheet_record(path, text, pages.push(PageView::Table(seq![row])), codes).marks == sheet_record(
            path,
            text,
            pages,
            codes,
        ).marks.insert(codes_in(codes, row_text(row))[0], m),
{
    let before = sheet_record(path, text, pages, codes);
    let t = seq![row];
    law_sheet_reads_every_page(path, text, pages, PageView::Table(t), codes);
    let n = (pages.len() + 1) as nat;
    let r0 = before.note(crate::record::LogEntry::TableFound { page: n, rows: t.len(), columns: t[0].len() });
    assert(t.drop_last() =~= Seq::<Seq<Option<Seq<char>>>>::empty());
    assert(t.last() == row);
    assert(table_step(r0, t.drop_last(), codes) == r0);
    assert(table_step(r0, t, codes) == table_row_step(r0, row, codes));
    let r1 = r0.note(crate::record::LogEntry::RowCells { cells: crate::table::shown_cells(row) });
    assert(stacked_rows(row) == seq![row]);
    let rows = seq![row];
    assert(rows.drop_last() =~= Seq::<Seq<Option<Seq<char>>>>::empty());
    assert(rows_step(r1, rows.drop_last(), codes) == r1);
    assert(rows.last() == row);
    assert(rows_step(r1, rows, codes) == row_step(r1, row, codes));
    law_row_marks(r1, row, codes);
}

// ---------------------------------------------------------------------------
// Plain text is one stream of words
// ---------------------------------------------------------------------------

/// The marks read from a text do not depend on its header fields: they are those
/// that scanning the whole text gives an empty record.
pub proof fn law_text_marks_from_whole_text(text: Seq<char>, codes: Seq<Seq<char>>)
    ensures
        text_record(text, codes).marks == text_scan(RecordView::empty(), text, codes).marks,
{
    let r = RecordView {
        usn: header_value(HeaderField::Usn, text),
        name: header_value(HeaderField::Name, text),
        semester: header_value(HeaderField::Semester, text),
        marks: Map::empty(),
        logs: seq![],
    };
    lemma_text_scan_marks(r, RecordView::empty(), text, codes);
}

proof fn lemma_split_white_alike(s1: Seq<char>, s2: Seq<char>)
    requires
        s1.len() == s2.len(),
        forall|i: int| 0 <= i < s1.len() ==> s1[i] == s2[i] || (is_white(s1[i]) && is_white(#[trigger] s2[i])),
    ensures
        split_scan(s1, Separator::Whitespace) == split_scan(s2, Separator::Whitespace),
    decreases s1.len(),
{
    if s1.len() > 0 {
        let d1 = s1.drop_last();
        let d2 = s2.drop_last();
        assert forall|i: int| 0 <= i < d1.len() implies d1[i] == d2[i] || (is_white(d1[i]) && is_white(
            #[trigger] d2[i],
        )) by {
            assert(d1[i] == s1[i] && d2[i] == s2[i]);
        }
        lemma_split_white_alike(d1, d2);
        assert(s1.last() == s1[s1.len() - 1] && s2.last() == s2[s2.len() - 1]);
    }
}

/// Line breaks in a text are only white space to the scanner: a text gives the
/// same marks with a line feed between two parts as with a space there.
pub proof fn law_text_lines_are_one_stream(a: Seq<char>, b: Seq<char>, codes: Seq<Seq<char>>)
    ensures
        text_record(a + seq!['\n'] + b, codes).marks == text_record(a + seq![' '] + b, codes).marks,
{
    let s1 = a + seq!['\n'] + b;
    let s2 = a + seq![' '] + b;
    assert(is_white('\n') && is_white(' '));
    assert forall|i: int| 0 <= i < s1.len() implies s1[i] == s2[i] || (is_white(s1[i]) && is_white(
        #[trigger] s2[i],
    )) by {
        if i < a.len() {
            assert(s1[i] == a[i] && s2[i] == a[i]);
        } else if i == a.len() {
            assert(s1[i] == '\n' && s2[i] == ' ');
        } else {
            assert(s1[i] == b[i - a.len() - 1] && s2[i] == b[i - a.len() - 1]);
        }
    }
    lemma_split_white_alike(s1, s2);
    assert(words_of(s1) == words_of(s2));
    law_text_marks_from_whole_text(s1, codes);
    law_text_marks_from_whole_text(s2, codes);
}

// ---------------------------------------------------------------------------
// More on how numbers are read
// ---------------------------------------------------------------------------

/// Two numbers after a code are the internal and the external mark.
pub proof fn law_two_numbers(a: Seq<char>, b: Seq<char>)
    requires
        all_digits(a),
        all_digits(b),
        1 <= a.len() <= 3,
        1 <= b.len() <= 3,
    ensures
        marks_from_numbers(seq![a, b]) == Some((decimal(a) as u32, decimal(b) as u32)),
{
    assert(seq![a, b][0] == a && seq![a, b][1] == b);
    lemma_small_fits(a);
    lemma_small_fits(b);
}

/// Of four or more numbers, the last (the total) does not matter, the one before
/// it is the external mark, and all before that, written together, are the internal
/// mark; marks are read exactly when that internal mark fits in a `u32`.
pub proof fn law_many_numbers(nums: Seq<Seq<char>>, total: Seq<char>)
    requires
        nums.len() >= 4,
        forall|i: int| 0 <= i < nums.len() ==> all_digits(#[trigger] nums[i]) && 1 <= nums[i].len() <= 3,
    ensures
        marks_from_numbers(nums.update(nums.len() - 1, total)) == marks_from_numbers(nums),
        marks_from_numbers(nums) is Some <==> decimal(concat_all(nums.take(nums.len() - 2))) <= u32::MAX,
        marks_from_numbers(nums) matches Some((ia, see)) ==> ia == decimal(concat_all(
            nums.take(nums.len() - 2),
        )) && see == decimal(nums[nums.len() - 2]),
{
    let n = nums.len();
    let u = nums.update(n - 1, total);
    assert(u.take(n - 2) =~= nums.take(n - 2));
    assert(u[n - 2] == nums[n - 2]);
    lemma_small_fits(nums[n - 2]);
    lemma_concat_all_digits(nums.take(n - 2));
    let joined = concat_all(nums.take(n - 2));
    if joined.len() == 0 {
        lemma_concat_all_len(nums.take(n - 2));
    }
}

proof fn lemma_concat_all_digits(parts: Seq<Seq<char>>)
    requires
        forall|i: int| 0 <= i < parts.len() ==> all_digits(#[trigger] parts[i]),
    ensures
        all_digits(concat_all(parts)),
    decreases parts.len(),
{
    if parts.len() > 0 {
        let d = parts.drop_last();
        assert forall|i: int| 0 <= i < d.len() implies all_digits(#[trigger] d[i]) by {
            assert(d[i] == parts[i]);
        }
        lemma_concat_all_digits(d);
        assert(all_digits(parts[parts.len() - 1]));
        lemma_pair_digits(concat_all(d), parts.last());
    }
}

proof fn lemma_concat_all_len(parts: Seq<Seq<char>>)
    requires
        parts.len() > 0,
        parts[0].len() > 0,
    ensures
        concat_all(parts).len() > 0,
    decreases parts.len(),
{
    if parts.len() > 1 {
        assert(parts.drop_last()[0] == parts[0]);
        lemma_concat_all_len(parts.drop_last());
    } else {
        assert(parts.drop_last() =~= Seq::<Seq<char>>::empty());
        assert(parts.last() == parts[0]);
    }
}

// ---------------------------------------------------------------------------
// The cell that names a code
// ---------------------------------------------------------------------------

/// Whether cell `k` of the row holds text naming `code`, in any case.
pub open spec fn names_code(row: Seq<Option<Seq<char>>>, code: Seq<char>, k: int) -> bool {
    row[k] is Some && occurs_in(code, upper(row[k]->0))
}

/// The cell found for a code, from position `from` on, is the first there that names
/// it; none is found when no cell there names it.
pub proof fn law_code_cell_is_first(row: Seq<Option<Seq<char>>>, code: Seq<char>, from: int)
    requires
        0 <= from,
    ensures
        crate::table::cell_with_code(row, code, from) matches Some(k) ==> from <= k < row.len()
            && names_code(row, code, k) && forall|j: int| from <= j < k ==> !#[trigger] names_code(
            row,
            code,
            j,
        ),
        crate::table::cell_with_code(row, code, from) is None ==> forall|j: int|
            from <= j < row.len() ==> !#[trigger] names_code(row, code, j),
    decreases row.len() - from,
{
    if from < row.len() && !names_code(row, code, from) {
        law_code_cell_is_first(row, code, from + 1);
    }
}

// ---------------------------------------------------------------------------
// Pages of text, and a code followed by its marks
// ---------------------------------------------------------------------------

/// A page without a table added after the others gives the marks that scanning
/// its text gives, over the marks of the pages before.
pub proof fn law_text_page_marks(
    path: Seq<char>,
    text: Seq<char>,
    pages: Seq<PageView>,
    page_text: Seq<char>,
    codes: Seq<Seq<char>>,
)
    ensures
        sheet_record(path, text, pages.push(PageView::Text(page_text)), codes).marks == text_scan(
            sheet_record(path, text, pages, codes),
            page_text,
            codes,
        ).marks,
{
    let before = sheet_record(path, text, pages, codes);
    law_sheet_reads_every_page(path, text, pages, PageView::Text(page_text), codes);
    lemma_text_scan_marks(
        before.note(crate::record::LogEntry::NoTable { page: (pages.len() + 1) as nat }),
        before,
        page_text,
        codes,
    );
}

/// A text of three words, a code looked for and two numbers of one to three digits
/// (already in clean form, and not themselves codes looked for), gives the code those
/// two numbers as its internal and external marks.
pub proof fn law_code_then_two_numbers(
    r: RecordView,
    text: Seq<char>,
    codes: Seq<Seq<char>>,
    w: Seq<char>,
    x: Seq<char>,
    y: Seq<char>,
)
    requires
        words_of(text) == seq![w, x, y],
        codes.contains(clean_token(w)),
        clean_token(x) == x,
        clean_token(y) == y,
        all_digits(x),
        all_digits(y),
        1 <= x.len() <= 3,
        1 <= y.len() <= 3,
        !codes.contains(x),
        !codes.contains(y),
    ensures
        text_scan(r, text, codes).marks == r.marks.insert(
            clean_token(w),
            (decimal(x) as u32, decimal(y) as u32),
        ),
{
    let words = seq![w, x, y];
    assert(words[0] == w && words[1] == x && words[2] == y);
    assert(!crate::pattern::code_shape(x));
    assert(!crate::pattern::code_shape(y));
    let empty = Seq::<Seq<char>>::empty();
    assert(gather(words, codes, 3, 0, empty.push(x).push(y)) == (3int, empty.push(x).push(y)));
    assert(gather(words, codes, 2, 0, empty.push(x)) == (3int, empty.push(x).push(y)));
    assert(gather(words, codes, 1, 0, empty) == (3int, empty.push(x).push(y)));
    let toks = empty.push(x).push(y);
    crate::scan::lemma_scan_step(words, codes, 0);
    assert(scan_hits(words, codes, 3) == Seq::<(Seq<char>, Seq<Seq<char>>)>::empty());
    let hits = scan_hits(words, codes, 0);
    assert(hits =~= seq![(clean_token(w), toks)]);
    assert(toks.drop_last() =~= empty.push(x));
    assert(empty.push(x).drop_last() =~= empty);
    law_mark_token_cases(x);
    law_mark_token_cases(y);
    assert(mark_token(x) == Some(x)) by {
        assert(x != seq!['A', 'B'] && x != seq!['A', 'B', 'S']) by {
            if x == seq!['A', 'B'] || x == seq!['A', 'B', 'S'] {
                assert(x[0] == 'A');
            }
        }
    }
    assert(mark_token(y) == Some(y)) by {
        assert(y != seq!['A', 'B'] && y != seq!['A', 'B', 'S']) by {
            if y == seq!['A', 'B'] || y == seq!['A', 'B', 'S'] {
                assert(y[0] == 'A');
            }
        }
    }
    assert(number_tokens(empty) == empty);
    assert(number_tokens(empty.push(x)) =~= seq![x]);
    assert(number_tokens(toks) =~= seq![x, y]);
    law_two_numbers(x, y);
    assert(hits.drop_last() =~= Seq::<(Seq<char>, Seq<Seq<char>>)>::empty());
    assert(hits.last() == (clean_token(w), toks));
    let m = (decimal(x) as u32, decimal(y) as u32);
    assert(marks_of_tokens(toks) == Some(m));
    assert(apply_hits(r, hits.drop_last()) == r);
    assert(apply_hits(r, hits) == apply_hit(r, (clean_token(w), toks)));
    assert(text_scan(r, text, codes) == apply_hits(r, hits));
}

} // verus!
