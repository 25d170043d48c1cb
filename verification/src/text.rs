//! Character-level text handling: Unicode white space, trimming, splitting
//! into lines and words, substring search and decimal digit strings.
use vstd::prelude::*;

verus! {

// ---------------------------------------------------------------------------
// Names for what std's Unicode tables give
// ---------------------------------------------------------------------------

/// Whether `c` is alphabetic or numeric in the Unicode sense.
pub uninterp spec fn alnum(c: char) -> bool;

/// The Unicode upper-case mapping of a string (one character may map to several).
pub uninterp spec fn upper(s: Seq<char>) -> Seq<char>;

/// `char::is_alphanumeric`: true when `c` has the Unicode `Alphabetic` property
/// or a numeric general category. The table is named, not restated.
#[verifier::external_body]
pub(crate) fn is_alphanumeric(c: char) -> (r: bool)
    ensures
        r == alnum(c),
{
    c.is_alphanumeric()
}

/// `str::to_uppercase`: the Unicode upper-case mapping of every character of `s`,
/// concatenated. The mapping table is named, not restated.
#[verifier::external_body]
pub(crate) fn to_upper(s: &str) -> (r: String)
    ensures
        r@ == upper(s@),
{
    s.to_uppercase()
}

/// `String::push`: appends one character.
#[verifier::external_body]
pub(crate) fn push_char(s: &mut String, c: char)
    ensures
        final(s)@ == old(s)@.push(c),
{
    s.push(c);
}

// ---------------------------------------------------------------------------
// Conversions between strings and character vectors
// ---------------------------------------------------------------------------

/// The characters of a string slice, in order.
pub fn chars_of(s: &str) -> (v: Vec<char>)
    ensures
        v@ == s@,
{
    let mut v: Vec<char> = Vec::new();
    for c in it: s.chars()
        invariant
            v@ == it.seq().take(it.index() as int),
            it.seq() == s@,
    {
        v.push(c);
    }
    v
}

/// A string holding the characters of a string slice.
pub fn string_from(s: &str) -> (r: String)
    ensures
        r@ == s@,
{
    let r = s.to_string();
    proof {
        vstd::string::to_string_from_display_ensures_for_str(s, r);
    }
    r
}

/// The string made of the given characters.
pub fn string_of(v: &Vec<char>) -> (s: String)
    ensures
        s@ == v@,
{
    let mut s = String::new();
    let mut i: usize = 0;
    while i < v.len()
        invariant
            i <= v.len(),
            s@ == v@.take(i as int),
        decreases v.len() - i,
    {
        push_char(&mut s, v[i]);
        assert(v@.take(i + 1) =~= v@.take(i as int).push(v@[i as int]));
        i += 1;
    }
    assert(v@.take(v.len() as int) =~= v@);
    s
}

/// The characters `from..to` of `v`.
pub fn sub_chars(v: &Vec<char>, from: usize, to: usize) -> (r: Vec<char>)
    requires
        from <= to <= v.len(),
    ensures
        r@ == v@.subrange(from as int, to as int),
{
    let mut r: Vec<char> = Vec::new();
    let mut i: usize = from;
    while i < to
        invariant
            from <= i <= to <= v.len(),
            r@ == v@.subrange(from as int, i as int),
        decreases to - i,
    {
        r.push(v[i]);
        assert(v@.subrange(from as int, i + 1) =~= v@.subrange(from as int, i as int).push(
            v@[i as int],
        ));
        i += 1;
    }
    r
}

/// Whether two character vectors hold the same characters.
pub fn same_chars(a: &Vec<char>, b: &Vec<char>) -> (r: bool)
    ensures
        r == (a@ == b@),
{
    if a.len() != b.len() {
        return false;
    }
    let mut i: usize = 0;
    while i < a.len()
        invariant
            a.len() == b.len(),
            i <= a.len(),
            forall|k: int| 0 <= k < i ==> a@[k] == b@[k],
        decreases a.len() - i,
    {
        if a[i] != b[i] {
            return false;
        }
        i += 1;
    }
    assert(a@ =~= b@);
    true
}

/// The upper-case form of a character vector, as characters.
pub fn upper_chars(v: &Vec<char>) -> (r: Vec<char>)
    ensures
        r@ == upper(v@),
{
    let s = string_of(v);
    let u = to_upper(s.as_str());
    chars_of(u.as_str())
}

// ---------------------------------------------------------------------------
// White space
// ---------------------------------------------------------------------------

/// The Unicode `White_Space` characters, which `char::is_whitespace` tests for.
pub open spec fn is_white(c: char) -> bool {
    let n = c as u32;
    ||| 0x9 <= n <= 0xd
    ||| n == 0x20
    ||| n == 0x85
    ||| n == 0xa0
    ||| n == 0x1680
    ||| 0x2000 <= n <= 0x200a
    ||| n == 0x2028
    ||| n == 0x2029
    ||| n == 0x202f
    ||| n == 0x205f
    ||| n == 0x3000
}

/// Tests a character for Unicode white space.
pub fn is_whitespace(c: char) -> (r: bool)
    ensures
        r == is_white(c),
{
    let n = c as u32;
    (0x9 <= n && n <= 0xd) || n == 0x20 || n == 0x85 || n == 0xa0 || n == 0x1680 || (0x2000
        <= n && n <= 0x200a) || n == 0x2028 || n == 0x2029 || n == 0x202f || n == 0x205f || n
        == 0x3000
}

// ---------------------------------------------------------------------------
// Trimming
// ---------------------------------------------------------------------------

/// Which characters a trim removes from both ends.
pub enum TrimClass {
    /// Unicode white space.
    Whitespace,
    /// Every character that is not alphanumeric (punctuation wrapped round a word).
    Symbol,
}

/// Whether a trim of the given class removes `c`.
pub open spec fn trimmed_away(c: char, class: TrimClass) -> bool {
    match class {
        TrimClass::Whitespace => is_white(c),
        TrimClass::Symbol => !alnum(c),
    }
}

/// `s` without its leading characters of the class.
pub open spec fn strip_front(s: Seq<char>, class: TrimClass) -> Seq<char>
    decreases s.len(),
{
    if s.len() > 0 && trimmed_away(s[0], class) {
        strip_front(s.drop_first(), class)
    } else {
        s
    }
}

/// `s` without its trailing characters of the class.
pub open spec fn strip_back(s: Seq<char>, class: TrimClass) -> Seq<char>
    decreases s.len(),
{
    if s.len() > 0 && trimmed_away(s.last(), class) {
        strip_back(s.drop_last(), class)
    } else {
        s
    }
}

/// `s` without the characters of the class at either end.
pub open spec fn trim_by(s: Seq<char>, class: TrimClass) -> Seq<char> {
    strip_back(strip_front(s, class), class)
}

/// `s` without white space at either end.
pub open spec fn trim_white(s: Seq<char>) -> Seq<char> {
    trim_by(s, TrimClass::Whitespace)
}

/// Whether a trim of the given class removes `c`.
pub fn trims(c: char, class: &TrimClass) -> (r: bool)
    ensures
        r == trimmed_away(c, *class),
{
    match class {
        TrimClass::Whitespace => is_whitespace(c),
        TrimClass::Symbol => !is_alphanumeric(c),
    }
}

/// Removes the characters of the class from both ends of `s`.
pub fn trim_chars(s: &Vec<char>, class: TrimClass) -> (r: Vec<char>)
    ensures
        r@ == trim_by(s@, class),
{
    let n = s.len();
    let mut i: usize = 0;
    assert(s@.subrange(0, n as int) =~= s@);
    while i < n && trims(s[i], &class)
        invariant
            i <= n == s.len(),
            strip_front(s@, class) == strip_front(s@.subrange(i as int, n as int), class),
        decreases n - i,
    {
        assert(s@.subrange(i as int, n as int).drop_first() =~= s@.subrange(i + 1, n as int));
        i += 1;
    }
    let ghost front = s@.subrange(i as int, n as int);
    assert(strip_front(s@, class) == front);
    let mut j: usize = n;
    while j > i && trims(s[j - 1], &class)
        invariant
            i <= j <= n == s.len(),
            front == s@.subrange(i as int, n as int),
            strip_back(front, class) == strip_back(s@.subrange(i as int, j as int), class),
        decreases j,
    {
        assert(s@.subrange(i as int, j as int).drop_last() =~= s@.subrange(i as int, j - 1));
        j -= 1;
    }
    sub_chars(s, i, j)
}

/// Removes white space from both ends of a string.
pub fn trim_string(s: &str) -> (r: String)
    ensures
        r@ == trim_white(s@),
{
    let v = chars_of(s);
    let t = trim_chars(&v, TrimClass::Whitespace);
    string_of(&t)
}

// ---------------------------------------------------------------------------
// Splitting into lines and words
// ---------------------------------------------------------------------------

/// What separates the pieces of a split.
pub enum Separator {
    /// A line feed; pieces are lines, empty lines included, and a final line feed
    /// ends the last line rather than starting an empty one.
    LineBreak,
    /// A run of Unicode white space; pieces are the non-empty words between runs.
    Whitespace,
}

/// Whether `c` separates pieces.
pub open spec fn separates(c: char, by: Separator) -> bool {
    match by {
        Separator::LineBreak => c == '\n',
        Separator::Whitespace => is_white(c),
    }
}

/// Whether empty pieces are kept.
pub open spec fn keeps_empty(by: Separator) -> bool {
    by is LineBreak
}

/// Reading `s` from the left: the pieces closed so far and the piece still open.
pub open spec fn split_scan(s: Seq<char>, by: Separator) -> (Seq<Seq<char>>, Seq<char>)
    decreases s.len(),
{
    if s.len() == 0 {
        (seq![], seq![])
    } else {
        let (done, open) = split_scan(s.drop_last(), by);
        if separates(s.last(), by) {
            if keeps_empty(by) || open.len() > 0 {
                (done.push(open), seq![])
            } else {
                (done, seq![])
            }
        } else {
            (done, open.push(s.last()))
        }
    }
}

/// The pieces of `s`: those closed by a separator, then the last one when it is
/// not empty.
pub open spec fn split_pieces(s: Seq<char>, by: Separator) -> Seq<Seq<char>> {
    let (done, open) = split_scan(s, by);
    if open.len() > 0 {
        done.push(open)
    } else {
        done
    }
}

/// The lines of `s`, split at line feeds. A carriage return before a line feed
/// stays at the end of its line, where `str::lines` would drop it; every line is
/// trimmed of white space afterwards, which removes it either way.
pub open spec fn lines_of(s: Seq<char>) -> Seq<Seq<char>> {
    split_pieces(s, Separator::LineBreak)
}

/// The white-space separated words of `s`, as `str::split_whitespace` gives them.
pub open spec fn words_of(s: Seq<char>) -> Seq<Seq<char>> {
    split_pieces(s, Separator::Whitespace)
}

/// Splits `s` into its pieces.
pub fn split_chars(s: &Vec<char>, by: Separator) -> (r: Vec<Vec<char>>)
    ensures
        r.deep_view() == split_pieces(s@, by),
{
    let mut done: Vec<Vec<char>> = Vec::new();
    let mut open: Vec<char> = Vec::new();
    let mut i: usize = 0;
    let keep = match by {
        Separator::LineBreak => true,
        Separator::Whitespace => false,
    };
    while i < s.len()
        invariant
            i <= s.len(),
            keep == keeps_empty(by),
            (done.deep_view(), open@) == split_scan(s@.take(i as int), by),
        decreases s.len() - i,
    {
        let c = s[i];
        let sep = match by {
            Separator::LineBreak => c == '\n',
            Separator::Whitespace => is_whitespace(c),
        };
        assert(s@.take(i + 1).drop_last() =~= s@.take(i as int));
        let ghost before = done.deep_view();
        if sep {
            if keep || open.len() > 0 {
                let piece = open;
                open = Vec::new();
                assert(piece.deep_view() =~= piece@);
                done.push(piece);
                assert(done.deep_view() =~= before.push(piece@));
            } else {
                open = Vec::new();
            }
        } else {
            open.push(c);
        }
        i += 1;
    }
    assert(s@.take(s.len() as int) =~= s@);
    if open.len() > 0 {
        let ghost before = done.deep_view();
        let piece = open;
        assert(piece.deep_view() =~= piece@);
        done.push(piece);
        assert(done.deep_view() =~= before.push(piece@));
    }
    done
}

// ---------------------------------------------------------------------------
// Substrings, joining and digits
// ---------------------------------------------------------------------------

/// The characters of each string.
pub open spec fn strings_view(v: Seq<String>) -> Seq<Seq<char>> {
    v.map_values(|t: String| t@)
}

/// Whether `pat` occurs in `s` as a contiguous run.
pub open spec fn occurs_in(pat: Seq<char>, s: Seq<char>) -> bool {
    exists|k: int| 0 <= k && k + pat.len() <= s.len() && #[trigger] s.subrange(k, k + pat.len()) == pat
}

/// Whether `pat` occurs in `s` at position `k`.
fn occurs_at(pat: &Vec<char>, s: &Vec<char>, k: usize) -> (r: bool)
    requires
        k + pat.len() <= s.len(),
    ensures
        r == (s@.subrange(k as int, k + pat.len()) == pat@),
{
    let mut i: usize = 0;
    while i < pat.len()
        invariant
            k + pat.len() <= s.len(),
            i <= pat.len(),
            forall|m: int| 0 <= m < i ==> s@[k + m] == pat@[m],
        decreases pat.len() - i,
    {
        if s[k + i] != pat[i] {
            assert(s@.subrange(k as int, k + pat.len())[i as int] != pat@[i as int]);
            return false;
        }
        i += 1;
    }
    assert(s@.subrange(k as int, k + pat.len()) =~= pat@);
    true
}

/// Whether `pat` occurs in `s`.
pub fn contains_chars(s: &Vec<char>, pat: &Vec<char>) -> (r: bool)
    ensures
        r == occurs_in(pat@, s@),
{
    if pat.len() == 0 {
        assert(s@.subrange(0, 0 + pat.len()) =~= pat@);
        return true;
    }
    if pat.len() > s.len() {
        return false;
    }
    let last = s.len() - pat.len();
    let mut k: usize = 0;
    while k <= last
        invariant
            last + pat.len() == s.len(),
            pat.len() > 0,
            k <= last + 1,
            forall|m: int| 0 <= m < k ==> #[trigger] s@.subrange(m, m + pat.len()) != pat@,
        decreases last + 1 - k,
    {
        if occurs_at(pat, s, k) {
            return true;
        }
        k += 1;
    }
    false
}

/// The parts joined with one space between neighbours.
pub open spec fn join_spaced(parts: Seq<Seq<char>>) -> Seq<char>
    decreases parts.len(),
{
    if parts.len() == 0 {
        seq![]
    } else if parts.len() == 1 {
        parts[0]
    } else {
        join_spaced(parts.drop_last()) + seq![' '] + parts.last()
    }
}

/// The parts written one after another.
pub open spec fn concat_all(parts: Seq<Seq<char>>) -> Seq<char>
    decreases parts.len(),
{
    if parts.len() == 0 {
        seq![]
    } else {
        concat_all(parts.drop_last()) + parts.last()
    }
}

/// Whether `s` is made of ASCII digits only (the empty string is).
pub open spec fn all_digits(s: Seq<char>) -> bool {
    forall|i: int| 0 <= i < s.len() ==> '0' <= #[trigger] s[i] <= '9'
}

/// Tests a character sequence for ASCII digits only.
pub fn is_all_digits(s: &Vec<char>) -> (r: bool)
    ensures
        r == all_digits(s@),
{
    let mut i: usize = 0;
    while i < s.len()
        invariant
            i <= s.len(),
            forall|k: int| 0 <= k < i ==> '0' <= #[trigger] s@[k] <= '9',
        decreases s.len() - i,
    {
        if !('0' <= s[i] && s[i] <= '9') {
            return false;
        }
        i += 1;
    }
    true
}

/// The value of a digit.
pub open spec fn digit_value(c: char) -> nat {
    (c as u32 - '0' as u32) as nat
}

/// The decimal value of a digit string (0 for the empty string).
pub open spec fn decimal(s: Seq<char>) -> nat
    decreases s.len(),
{
    if s.len() == 0 {
        0
    } else {
        decimal(s.drop_last()) * 10 + digit_value(s.last())
    }
}

/// What `str::parse::<u32>` gives for a digit string: nothing for the empty string,
/// else its value when it fits in a `u32`.
pub open spec fn parse_u32(s: Seq<char>) -> Option<u32> {
    if s.len() == 0 {
        None
    } else if decimal(s) <= u32::MAX {
        Some(decimal(s) as u32)
    } else {
        None
    }
}

proof fn lemma_decimal_grows(s: Seq<char>, i: int)
    requires
        0 <= i <= s.len(),
        all_digits(s),
    ensures
        decimal(s.take(i)) <= decimal(s),
    decreases s.len() - i,
{
    if i < s.len() {
        lemma_decimal_grows(s, i + 1);
        assert(s.take(i + 1).drop_last() =~= s.take(i));
    } else {
        assert(s.take(i) =~= s);
    }
}

/// Reads a digit string as a `u32`; `None` when it is empty or its value does not fit.
pub fn parse_digits(s: &Vec<char>) -> (r: Option<u32>)
    requires
        all_digits(s@),
    ensures
        r == parse_u32(s@),
{
    if s.len() == 0 {
        return None;
    }
    let mut value: u64 = 0;
    let mut i: usize = 0;
    while i < s.len()
        invariant
            i <= s.len(),
            all_digits(s@),
            value == decimal(s@.take(i as int)),
            value <= u32::MAX,
        decreases s.len() - i,
    {
        let d = (s[i] as u32 - '0' as u32) as u64;
        assert(s@.take(i + 1).drop_last() =~= s@.take(i as int));
        assert('0' <= s@[i as int] <= '9');
        value = value * 10 + d;
        i += 1;
        if value > 0xffff_ffff {
            proof {
                lemma_decimal_grows(s@, i as int);
            }
            return None;
        }
    }
    assert(s@.take(s.len() as int) =~= s@);
    Some(value as u32)
}

} // verus!
