//! The record as named fields, the form handed on to callers: seat number, name,
//! semester, internal and external marks of each subject asked for, and the log.
use vstd::prelude::*;
use crate::record::{LogEntry, LogEvent, RecordView, StudentRecord};
use crate::text::{chars_of, push_char, string_from, strings_view};

verus! {

/// The value of a named field.
pub enum FieldValue {
    /// A header field, if found.
    Text(Option<String>),
    /// A mark, if recorded.
    Mark(Option<u32>),
    /// The log.
    Log(Vec<LogEvent>),
}

/// The mathematical form of a [`FieldValue`].
pub enum FieldView {
    Text(Option<Seq<char>>),
    Mark(Option<u32>),
    Log(Seq<LogEntry>),
}

impl DeepView for FieldValue {
    type V = FieldView;

    open spec fn deep_view(&self) -> FieldView {
        match self {
            FieldValue::Text(t) => FieldView::Text(t.deep_view()),
            FieldValue::Mark(m) => FieldView::Mark(*m),
            FieldValue::Log(l) => FieldView::Log(l.deep_view()),
        }
    }
}

/// The two mark fields of a subject code: `<code>_INTERNALS` and `<code>_EXTERNALS`,
/// with the marks recorded under exactly that code, if any.
pub open spec fn code_fields(marks: Map<Seq<char>, (u32, u32)>, code: Seq<char>) -> Seq<
    (Seq<char>, FieldView),
> {
    let known = marks.dom().contains(code);
    seq![
        (code + "_INTERNALS"@, FieldView::Mark(if known { Some(marks[code].0) } else { None })),
        (code + "_EXTERNALS"@, FieldView::Mark(if known { Some(marks[code].1) } else { None })),
    ]
}

/// The mark fields of each code in turn.
pub open spec fn codes_fields(marks: Map<Seq<char>, (u32, u32)>, codes: Seq<Seq<char>>) -> Seq<
    (Seq<char>, FieldView),
>
    decreases codes.len(),
{
    if codes.len() == 0 {
        seq![]
    } else {
        codes_fields(marks, codes.drop_last()) + code_fields(marks, codes.last())
    }
}

/// The named fields of a record: none when no seat number was found; otherwise the
/// seat number, name and semester, the mark fields of each code asked for, and the log.
pub open spec fn record_fields(r: RecordView, subject_codes: Seq<Seq<char>>) -> Option<
    Seq<(Seq<char>, FieldView)>,
> {
    if r.usn is None {
        None
    } else {
        Some(
            seq![
                ("student_usn"@, FieldView::Text(r.usn)),
                ("student_name"@, FieldView::Text(r.name)),
                ("SEMESTER"@, FieldView::Text(r.semester)),
            ] + codes_fields(r.marks, subject_codes) + seq![("logs"@, FieldView::Log(r.logs))],
        )
    }
}

/// `a` followed by `b`.
fn joined(a: &str, b: &str) -> (r: String)
    ensures
        r@ == a@ + b@,
{
    let mut r = string_from(a);
    let bs = chars_of(b);
    let mut i: usize = 0;
    while i < bs.len()
        invariant
            i <= bs.len(),
            r@ == a@ + bs@.take(i as int),
        decreases bs.len() - i,
    {
        push_char(&mut r, bs[i]);
        assert(bs@.take(i + 1) =~= bs@.take(i as int).push(bs@[i as int]));
        i += 1;
    }
    assert(bs@.take(bs.len() as int) =~= bs@);
    r
}

/// Gives the named fields of a record, as [`record_fields`] says. The marks of each
/// code are looked up under the code as given.
pub fn record_entries(record: StudentRecord, subject_codes: &[String]) -> (r: Option<
    Vec<(String, FieldValue)>,
>)
    requires
        record.wf(),
    ensures
        r.deep_view() == record_fields(record@, strings_view(subject_codes@)),
{
    let ghost rv = record@;
    let ghost codes = strings_view(subject_codes@);
    if record.usn.is_none() {
        return None;
    }
    let mut fields: Vec<(String, FieldValue)> = Vec::new();
    fields.push((string_from("student_usn"), FieldValue::Text(record.usn)));
    fields.push((string_from("student_name"), FieldValue::Text(record.name)));
    fields.push((string_from("SEMESTER"), FieldValue::Text(record.semester)));
    let ghost head = seq![
        ("student_usn"@, FieldView::Text(rv.usn)),
        ("student_name"@, FieldView::Text(rv.name)),
        ("SEMESTER"@, FieldView::Text(rv.semester)),
    ];
    assert(fields.deep_view() =~= head);
    let mut i: usize = 0;
    while i < subject_codes.len()
        invariant
            i <= subject_codes.len(),
            codes == strings_view(subject_codes@),
            record.wf(),
            record.marks@ == rv.marks,
            fields.deep_view() == head + codes_fields(rv.marks, codes.take(i as int)),
        decreases subject_codes.len() - i,
    {
        let code = &subject_codes[i];
        let found = record.marks.get(code);
        let (internal, external) = match found {
            Some((a, b)) => (Some(a), Some(b)),
            None => (None, None),
        };
        let ghost before = fields.deep_view();
        fields.push((joined(code.as_str(), "_INTERNALS"), FieldValue::Mark(internal)));
        fields.push((joined(code.as_str(), "_EXTERNALS"), FieldValue::Mark(external)));
        assert(codes.take(i + 1).drop_last() =~= codes.take(i as int));
        assert(codes.take(i + 1).last() == code@);
        assert(fields.deep_view() =~= before + code_fields(rv.marks, code@));
        i += 1;
    }
    assert(codes.take(subject_codes.len() as int) =~= codes);
    let ghost before = fields.deep_view();
    fields.push((string_from("logs"), FieldValue::Log(record.logs)));
    assert(fields.deep_view() =~= before.push(("logs"@, FieldView::Log(rv.logs))));
    Some(fields)
}

} // verus!
