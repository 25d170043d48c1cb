//! The regular expressions of a result sheet: the header fields and the shape of
//! a subject code.
use vstd::prelude::*;
use crate::record::{HeaderField, RecordView};
use crate::text::{is_white, trim_string, trim_white};

verus! {

#[verifier::external_type_specification]
#[verifier::external_body]
pub struct ExRegexError(regex::Error);

/// What `regex::Regex::new(pattern)` and then `is_match(text)` give: `None` when the
/// pattern does not compile, else whether the pattern matches somewhere in `text`.
pub uninterp spec fn regex_finds(pattern: Seq<char>, text: Seq<char>) -> Option<bool>;

/// What `regex::Regex::new(pattern)` and then `captures(text)` give for capture
/// group 1: `None` when the pattern does not compile, else the text of group 1 in
/// the first match, if there is a match and group 1 took part in it.
pub uninterp spec fn regex_group(pattern: Seq<char>, text: Seq<char>) -> Option<Option<Seq<char>>>;

/// Every character of `t` from `i` up to `j` is an ASCII digit.
pub open spec fn digits_in(t: Seq<char>, i: int, j: int) -> bool {
    forall|k: int| i <= k < j ==> '0' <= #[trigger] t[k] <= '9'
}

/// Every character of `t` from `i` up to `j` is an ASCII capital letter.
pub open spec fn capitals_in(t: Seq<char>, i: int, j: int) -> bool {
    forall|k: int| i <= k < j ==> 'A' <= #[trigger] t[k] <= 'Z'
}

/// `t` is two digits, `l` capitals (two to four), `d` digits (two or three) and at
/// most one more capital.
pub open spec fn numbered_code(t: Seq<char>, l: int, d: int) -> bool {
    &&& 2 <= l <= 4
    &&& 2 <= d <= 3
    &&& 2 + l + d <= t.len() <= 2 + l + d + 1
    &&& digits_in(t, 0, 2)
    &&& capitals_in(t, 2, 2 + l)
    &&& digits_in(t, 2 + l, 2 + l + d)
    &&& capitals_in(t, 2 + l + d, t.len() as int)
}

/// `t` is a B, `l` capitals (two to five), three digits and at most one more capital.
pub open spec fn lettered_code(t: Seq<char>, l: int) -> bool {
    &&& 2 <= l <= 5
    &&& 1 + l + 3 <= t.len() <= 1 + l + 3 + 1
    &&& t[0] == 'B'
    &&& capitals_in(t, 1, 1 + l)
    &&& digits_in(t, 1 + l, 1 + l + 3)
    &&& capitals_in(t, 1 + l + 3, t.len() as int)
}

/// The strings that [`SUBJECT_CODE_PATTERN`] matches, whole: one of the two
/// shapes of a subject code.
pub open spec fn code_shape(t: Seq<char>) -> bool {
    ||| exists|l: int, d: int| #[trigger] numbered_code(t, l, d)
    ||| exists|l: int| #[trigger] lettered_code(t, l)
}

/// Compiles `pattern` with `regex::Regex::new` and tests it against `text` with
/// `Regex::is_match`. Claimed: the outcome is a function of the two strings, named
/// [`regex_finds`]; and for [`SUBJECT_CODE_PATTERN`], which compiles and is anchored
/// at both ends (`^`, `$` without the multi-line flag), that it matches exactly the
/// strings of [`code_shape`] (`[0-9]` and `[A-Z]` are ASCII ranges). Nothing is said
/// of other patterns.
#[verifier::external_body]
fn regex_is_match(pattern: &str, text: &str) -> (r: Result<bool, regex::Error>)
    ensures
        match r {
            Ok(b) => regex_finds(pattern@, text@) == Some(b),
            Err(_) => regex_finds(pattern@, text@) is None,
        },
        pattern@ == SUBJECT_CODE_PATTERN@ ==> (r is Ok && r->Ok_0 == code_shape(text@)),
{
    Ok(regex::Regex::new(pattern)?.is_match(text))
}

/// `s` is one word: not empty, and none of its characters is white space.
pub open spec fn one_word(s: Seq<char>) -> bool {
    s.len() > 0 && forall|i: int| 0 <= i < s.len() ==> !is_white(#[trigger] s[i])
}

/// No character of `s` is a line feed.
pub open spec fn on_one_line(s: Seq<char>) -> bool {
    forall|i: int| 0 <= i < s.len() ==> #[trigger] s[i] != '\n'
}

/// Compiles `pattern` with `regex::Regex::new` and reads capture group 1 of the
/// first match of `Regex::captures` in `text`. Claimed: the outcome is a function of
/// the two strings, named [`regex_group`]; and of what the header patterns capture:
/// for [`USN_PATTERN`] and [`SEMESTER_PATTERN`] the group is `\S+`, so one word
/// (`\S` is any character outside Unicode `White_Space`, which [`is_white`] lists);
/// for [`NAME_PATTERN`] the group is `.+`, so not empty and without a line feed
/// (`.` matches anything but `\n`). Nothing is said of where the match lies.
#[verifier::external_body]
fn regex_first_group(pattern: &str, text: &str) -> (r: Result<Option<String>, regex::Error>)
    ensures
        match r {
            Ok(g) => regex_group(pattern@, text@) == Some(g.deep_view()),
            Err(_) => regex_group(pattern@, text@) is None,
        },
        pattern@ == USN_PATTERN@ || pattern@ == SEMESTER_PATTERN@ ==> (r matches Ok(Some(g))
            ==> one_word(g@)),
        pattern@ == NAME_PATTERN@ ==> (r matches Ok(Some(g)) ==> g@.len() > 0 && on_one_line(g@)),
{
    let re = regex::Regex::new(pattern)?;
    match re.captures(text) {
        Some(caps) => match caps.get(1) {
            Some(m) => Ok(Some(m.as_str().to_string())),
            None => Ok(None),
        },
        None => Ok(None),
    }
}

/// The shape of a subject code, in every scheme: two digits, two to four letters,
/// two or three digits and an optional letter; or B, two to five letters, three
/// digits and an optional letter.
pub const SUBJECT_CODE_PATTERN: &'static str = "^(?:[0-9]{2}[A-Z]{2,4}[0-9]{2,3}[A-Z]?|B[A-Z]{2,5}[0-9]{3}[A-Z]?)$";

/// The seat number follows "University Seat Number :" or "USN :", in any case.
pub const USN_PATTERN: &'static str = "(?i)(?:University Seat Number\\s*:|USN\\s*:)\\s*(\\S+)";

/// The name is the rest of the line after "Student Name :", in any case.
pub const NAME_PATTERN: &'static str = "(?i)Student Name\\s*:\\s*(.+)";

/// The semester is the word after "Semester :", in any case.
pub const SEMESTER_PATTERN: &'static str = "(?i)Semester\\s*:\\s*(\\S+)";

/// Whether `t` has the shape of a subject code, as [`SUBJECT_CODE_PATTERN`] says.
pub open spec fn is_subject_code(t: Seq<char>) -> bool {
    code_shape(t)
}

/// Tests whether `t` has the shape of a subject code.
pub fn looks_like_subject_code(t: &str) -> (r: bool)
    ensures
        r == is_subject_code(t@),
{
    match regex_is_match(SUBJECT_CODE_PATTERN, t) {
        Ok(b) => b,
        Err(_) => false,
    }
}

/// The pattern that finds a header field.
pub open spec fn field_pattern(field: HeaderField) -> Seq<char> {
    match field {
        HeaderField::Usn => USN_PATTERN@,
        HeaderField::Name => NAME_PATTERN@,
        HeaderField::Semester => SEMESTER_PATTERN@,
    }
}

/// The value of a header field in `text`: the captured text, trimmed.
pub open spec fn header_value(field: HeaderField, text: Seq<char>) -> Option<Seq<char>> {
    match regex_group(field_pattern(field), text) {
        Some(Some(g)) => Some(trim_white(g)),
        _ => None,
    }
}

/// What a header field's value looks like: the seat number and the semester are
/// one word each; the name lies on one line and has no white space at either end.
pub open spec fn header_shape(field: HeaderField, value: Option<Seq<char>>) -> bool {
    match value {
        None => true,
        Some(v) => match field {
            HeaderField::Name => on_one_line(v) && trim_white(v) == v,
            _ => one_word(v),
        },
    }
}

/// Each header field of the record looks as [`header_shape`] says.
pub open spec fn header_shapes(r: RecordView) -> bool {
    &&& header_shape(HeaderField::Usn, r.usn)
    &&& header_shape(HeaderField::Name, r.name)
    &&& header_shape(HeaderField::Semester, r.semester)
}

proof fn lemma_trim_one_word(s: Seq<char>)
    requires
        one_word(s),
    ensures
        trim_white(s) == s,
{
    assert(!is_white(s[0]));
    assert(!is_white(s.last()));
}

proof fn lemma_trim_keeps_line(s: Seq<char>)
    requires
        on_one_line(s),
    ensures
        on_one_line(trim_white(s)),
        trim_white(trim_white(s)) == trim_white(s),
{
    let t = trim_white(s);
    crate::laws::law_trim_ends(s, crate::text::TrimClass::Whitespace);
    let k = choose|k: int| 0 <= k && k + t.len() <= s.len() && #[trigger] s.subrange(k, k + t.len()) == t;
    assert forall|i: int| 0 <= i < t.len() implies #[trigger] t[i] != '\n' by {
        assert(t[i] == s.subrange(k, k + t.len())[i]);
    }
}

/// Finds a header field in `text`.
pub fn find_header_field(text: &str, field: HeaderField) -> (r: Option<String>)
    ensures
        r.deep_view() == header_value(field, text@),
        header_shape(field, r.deep_view()),
{
    let pattern = match field {
        HeaderField::Usn => USN_PATTERN,
        HeaderField::Name => NAME_PATTERN,
        HeaderField::Semester => SEMESTER_PATTERN,
    };
    match regex_first_group(pattern, text) {
        Ok(Some(g)) => {
            proof {
                match field {
                    HeaderField::Name => lemma_trim_keeps_line(g@),
                    _ => lemma_trim_one_word(g@),
                }
            }
            Some(trim_string(g.as_str()))
        },
        _ => None,
    }
}

} // verus!
