//! The token scanner: running text read as one stream of words, in which each
//! subject code is followed by the numbers that give its marks.
use vstd::prelude::*;
use crate::marks::{
    absent_word, clean_chars, clean_token, extract_marks_from_tokens, is_absent_word,
    marks_of_tokens,
};
use crate::pattern::{is_subject_code, looks_like_subject_code};
use crate::record::{CodeSet, LogEntry, LogEvent, RecordView, StudentRecord};
use crate::text::{
    all_digits, chars_of, is_all_digits, split_chars, string_of, strings_view, words_of,
    Separator,
};

verus! {

/// How many words in a row that are neither numbers nor absence marks end the
/// marks of a code.
pub const MAX_SKIPPED_WORDS: usize = 25;

/// Whether a cleaned word counts towards marks: a digit string (the empty word
/// counts too) or an absence mark.
pub open spec fn counts_as_mark(t: Seq<char>) -> bool {
    all_digits(t) || absent_word(t)
}

/// Whether a cleaned word ends the marks of the code before it: another code
/// looked for, or any word shaped like a subject code.
pub open spec fn ends_marks(t: Seq<char>, codes: Seq<Seq<char>>) -> bool {
    codes.contains(t) || is_subject_code(t)
}

/// The length of the run of words not counting as marks, after word `t`.
pub open spec fn next_skip(t: Seq<char>, skip: nat) -> nat {
    if counts_as_mark(t) {
        0
    } else {
        skip + 1
    }
}

/// Gathers the cleaned words from position `j` on, `skip` words into a run of
/// words that do not count as marks, after `acc`: stops before a word that ends
/// the marks, before the word that would make the run longer than
/// [`MAX_SKIPPED_WORDS`], or at the end. Gives where it stopped and what it gathered.
pub open spec fn gather(
    words: Seq<Seq<char>>,
    codes: Seq<Seq<char>>,
    j: int,
    skip: nat,
    acc: Seq<Seq<char>>,
) -> (int, Seq<Seq<char>>)
    decreases words.len() - j,
{
    if j < 0 || j >= words.len() {
        (j, acc)
    } else {
        let t = clean_token(words[j]);
        if ends_marks(t, codes) {
            (j, acc)
        } else if !counts_as_mark(t) && skip + 1 > MAX_SKIPPED_WORDS {
            (j, acc)
        } else {
            gather(words, codes, j + 1, next_skip(t, skip), acc.push(t))
        }
    }
}

/// Gathering never stops before where it started.
pub proof fn lemma_gather_end(
    words: Seq<Seq<char>>,
    codes: Seq<Seq<char>>,
    j: int,
    skip: nat,
    acc: Seq<Seq<char>>,
)
    ensures
        gather(words, codes, j, skip, acc).0 >= j,
        j <= words.len() ==> gather(words, codes, j, skip, acc).0 <= words.len(),
    decreases words.len() - j,
{
    if 0 <= j < words.len() {
        let t = clean_token(words[j]);
        if !ends_marks(t, codes) && !(!counts_as_mark(t) && skip + 1 > MAX_SKIPPED_WORDS) {
            lemma_gather_end(words, codes, j + 1, next_skip(t, skip), acc.push(t));
        }
    }
}

/// The codes found in the words from position `i` on, each with the cleaned words
/// gathered after it; scanning goes on from where gathering stopped.
pub open spec fn scan_hits(words: Seq<Seq<char>>, codes: Seq<Seq<char>>, i: int) -> Seq<
    (Seq<char>, Seq<Seq<char>>),
>
    decreases words.len() - i,
{
    if i < 0 || i >= words.len() {
        seq![]
    } else {
        let key = clean_token(words[i]);
        if codes.contains(key) {
            let (end, toks) = gather(words, codes, i + 1, 0, seq![]);
            proof {
                lemma_gather_end(words, codes, i + 1, 0, seq![]);
            }
            seq![(key, toks)] + scan_hits(words, codes, end)
        } else {
            scan_hits(words, codes, i + 1)
        }
    }
}

/// What one code and its gathered words do to a record: its marks are set and
/// logged, or the failure is logged.
pub open spec fn apply_hit(r: RecordView, hit: (Seq<char>, Seq<Seq<char>>)) -> RecordView {
    match marks_of_tokens(hit.1) {
        Some((ia, see)) => r.with_marks(hit.0, (ia, see)).note(
            LogEntry::TextScanMarks { code: hit.0, internal: ia, external: see },
        ),
        None => r.note(LogEntry::TextScanFailed { code: hit.0, tokens: hit.1 }),
    }
}

/// What the codes found do to a record, in order.
pub open spec fn apply_hits(r: RecordView, hits: Seq<(Seq<char>, Seq<Seq<char>>)>) -> RecordView
    decreases hits.len(),
{
    if hits.len() == 0 {
        r
    } else {
        apply_hit(apply_hits(r, hits.drop_last()), hits.last())
    }
}

/// What scanning `text` for the codes does to a record.
pub open spec fn text_scan(r: RecordView, text: Seq<char>, codes: Seq<Seq<char>>) -> RecordView {
    apply_hits(r, scan_hits(words_of(text), codes, 0))
}

pub proof fn lemma_scan_step(words: Seq<Seq<char>>, codes: Seq<Seq<char>>, i: int)
    requires
        0 <= i < words.len(),
    ensures
        codes.contains(clean_token(words[i])) ==> scan_hits(words, codes, i) == seq![
            (clean_token(words[i]), gather(words, codes, i + 1, 0, seq![]).1),
        ] + scan_hits(words, codes, gather(words, codes, i + 1, 0, seq![]).0),
        !codes.contains(clean_token(words[i])) ==> scan_hits(words, codes, i) == scan_hits(
            words,
            codes,
            i + 1,
        ),
{
}

// ---------------------------------------------------------------------------
// Scanning over cleaned words
// ---------------------------------------------------------------------------

/// Whether the cleaned word at position `j` is shaped like a subject code, by the
/// given flags (a word without a flag is not).
pub open spec fn shaped_at(shaped: Seq<bool>, j: int) -> bool {
    0 <= j < shaped.len() && shaped[j]
}

/// [`gather`] over words already cleaned, with a flag for each telling whether it
/// is shaped like a subject code.
pub open spec fn gather_on(
    cleaned: Seq<Seq<char>>,
    shaped: Seq<bool>,
    codes: Seq<Seq<char>>,
    j: int,
    skip: nat,
    acc: Seq<Seq<char>>,
) -> (int, Seq<Seq<char>>)
    decreases cleaned.len() - j,
{
    if j < 0 || j >= cleaned.len() {
        (j, acc)
    } else {
        let t = cleaned[j];
        if codes.contains(t) || shaped_at(shaped, j) {
            (j, acc)
        } else if !counts_as_mark(t) && skip + 1 > MAX_SKIPPED_WORDS {
            (j, acc)
        } else {
            gather_on(cleaned, shaped, codes, j + 1, next_skip(t, skip), acc.push(t))
        }
    }
}

/// Gathering over cleaned words never stops before where it started.
pub proof fn lemma_gather_on_end(
    cleaned: Seq<Seq<char>>,
    shaped: Seq<bool>,
    codes: Seq<Seq<char>>,
    j: int,
    skip: nat,
    acc: Seq<Seq<char>>,
)
    ensures
        gather_on(cleaned, shaped, codes, j, skip, acc).0 >= j,
        j <= cleaned.len() ==> gather_on(cleaned, shaped, codes, j, skip, acc).0 <= cleaned.len(),
    decreases cleaned.len() - j,
{
    if 0 <= j < cleaned.len() {
        let t = cleaned[j];
        if !(codes.contains(t) || shaped_at(shaped, j)) && !(!counts_as_mark(t) && skip + 1
            > MAX_SKIPPED_WORDS) {
            lemma_gather_on_end(cleaned, shaped, codes, j + 1, next_skip(t, skip), acc.push(t));
        }
    }
}

/// [`scan_hits`] over words already cleaned, with their code-shape flags.
pub open spec fn hits_on(cleaned: Seq<Seq<char>>, shaped: Seq<bool>, codes: Seq<Seq<char>>, i: int) -> Seq<
    (Seq<char>, Seq<Seq<char>>),
>
    decreases cleaned.len() - i,
{
    if i < 0 || i >= cleaned.len() {
        seq![]
    } else {
        let key = cleaned[i];
        if codes.contains(key) {
            let (end, toks) = gather_on(cleaned, shaped, codes, i + 1, 0, seq![]);
            proof {
                lemma_gather_on_end(cleaned, shaped, codes, i + 1, 0, seq![]);
            }
            seq![(key, toks)] + hits_on(cleaned, shaped, codes, end)
        } else {
            hits_on(cleaned, shaped, codes, i + 1)
        }
    }
}

/// The words of a text, cleaned.
pub open spec fn cleaned_words(words: Seq<Seq<char>>) -> Seq<Seq<char>> {
    words.map_values(|w: Seq<char>| clean_token(w))
}

/// Whether each cleaned word is shaped like a subject code.
pub open spec fn code_shapes(cleaned: Seq<Seq<char>>) -> Seq<bool> {
    cleaned.map_values(|t: Seq<char>| is_subject_code(t))
}

proof fn lemma_gather_agrees(
    words: Seq<Seq<char>>,
    codes: Seq<Seq<char>>,
    j: int,
    skip: nat,
    acc: Seq<Seq<char>>,
)
    ensures
        gather(words, codes, j, skip, acc) == gather_on(
            cleaned_words(words),
            code_shapes(cleaned_words(words)),
            codes,
            j,
            skip,
            acc,
        ),
    decreases words.len() - j,
{
    if 0 <= j < words.len() {
        let t = clean_token(words[j]);
        assert(cleaned_words(words)[j] == t);
        assert(code_shapes(cleaned_words(words))[j] == is_subject_code(t));
        lemma_gather_agrees(words, codes, j + 1, next_skip(t, skip), acc.push(t));
    }
}

/// Scanning words and scanning their cleaned forms with their code-shape flags
/// find the same codes.
pub proof fn lemma_hits_agree(words: Seq<Seq<char>>, codes: Seq<Seq<char>>, i: int)
    ensures
        scan_hits(words, codes, i) == hits_on(
            cleaned_words(words),
            code_shapes(cleaned_words(words)),
            codes,
            i,
        ),
    decreases words.len() - i,
{
    if 0 <= i < words.len() {
        lemma_scan_step(words, codes, i);
        let key = clean_token(words[i]);
        assert(cleaned_words(words)[i] == key);
        if codes.contains(key) {
            lemma_gather_agrees(words, codes, i + 1, 0, seq![]);
            lemma_gather_end(words, codes, i + 1, 0, seq![]);
            lemma_hits_agree(words, codes, gather(words, codes, i + 1, 0, seq![]).0);
        } else {
            lemma_hits_agree(words, codes, i + 1);
        }
    }
}

/// Finds the codes in a stream of cleaned words, each with the cleaned words
/// gathered after it, as [`hits_on`] says; `shaped` flags the words shaped like a
/// subject code.
pub fn find_hits(cleaned: &Vec<Vec<char>>, shaped: &Vec<bool>, codes: &CodeSet) -> (r: Vec<
    (Vec<char>, Vec<Vec<char>>),
>)
    ensures
        r.deep_view() == hits_on(cleaned.deep_view(), shaped@, codes@, 0),
{
    let ghost cs = cleaned.deep_view();
    let n = cleaned.len();
    let mut out: Vec<(Vec<char>, Vec<Vec<char>>)> = Vec::new();
    let mut i: usize = 0;
    assert(out.deep_view() + hits_on(cs, shaped@, codes@, 0) =~= hits_on(cs, shaped@, codes@, 0));
    while i < n
        invariant
            n == cleaned.len(),
            cs == cleaned.deep_view(),
            i <= n,
            hits_on(cs, shaped@, codes@, 0) == out.deep_view() + hits_on(cs, shaped@, codes@, i as int),
        decreases n - i,
    {
        assert(cs[i as int] =~= cleaned[i as int]@);
        let key = &cleaned[i];
        if codes.contains(key) {
            let mut j: usize = i + 1;
            let mut skip: usize = 0;
            let mut sub: Vec<Vec<char>> = Vec::new();
            assert(sub.deep_view() =~= Seq::<Seq<char>>::empty());
            while j < n
                invariant_except_break
                    gather_on(cs, shaped@, codes@, i + 1, 0, seq![]) == gather_on(
                        cs,
                        shaped@,
                        codes@,
                        j as int,
                        skip as nat,
                        sub.deep_view(),
                    ),
                invariant
                    n == cleaned.len(),
                    cs == cleaned.deep_view(),
                    i < j <= n,
                    skip <= MAX_SKIPPED_WORDS,
                ensures
                    gather_on(cs, shaped@, codes@, i + 1, 0, seq![]) == (j as int, sub.deep_view()),
                    i < j <= n,
                decreases n - j,
            {
                assert(cs[j as int] =~= cleaned[j as int]@);
                let t = &cleaned[j];
                let shape = j < shaped.len() && shaped[j];
                if codes.contains(t) || shape {
                    break;
                }
                let counts = is_all_digits(t) || is_absent_word(t);
                if !counts {
                    if skip + 1 > MAX_SKIPPED_WORDS {
                        break;
                    }
                    skip += 1;
                } else {
                    skip = 0;
                }
                let ghost before = sub.deep_view();
                let word = t.clone();
                assert(word.deep_view() =~= t@);
                sub.push(word);
                assert(sub.deep_view() =~= before.push(t@));
                j += 1;
            }
            let ghost before = out.deep_view();
            let code = key.clone();
            let ghost hit = (key@, sub.deep_view());
            assert(code.deep_view() =~= key@);
            out.push((code, sub));
            proof {
                assert(out.deep_view() =~= before.push(hit));
                assert(hits_on(cs, shaped@, codes@, i as int) =~= seq![hit] + hits_on(
                    cs,
                    shaped@,
                    codes@,
                    j as int,
                ));
                assert(hits_on(cs, shaped@, codes@, 0) =~= out.deep_view() + hits_on(
                    cs,
                    shaped@,
                    codes@,
                    j as int,
                ));
            }
            i = j;
        } else {
            proof {
                assert(hits_on(cs, shaped@, codes@, i as int) == hits_on(cs, shaped@, codes@, i + 1));
            }
            i += 1;
        }
    }
    assert(hits_on(cs, shaped@, codes@, n as int) =~= seq![]);
    assert(out.deep_view() + seq![] =~= out.deep_view());
    out
}

/// Scans `text` as one stream of words for the codes. Each word that is a code,
/// once cleaned, is followed by the cleaned words up to the next code-shaped word
/// (or a long run of other words), and the marks these give are recorded under
/// the code and logged; when they give none, the failure is logged. Scanning goes
/// on after the words gathered.
pub fn parse_text_lines(text: &str, codes: &CodeSet, record: &mut StudentRecord)
    requires
        old(record).wf(),
    ensures
        final(record).wf(),
        final(record)@ == text_scan(old(record)@, text@, codes@),
{
    let chars = chars_of(text);
    let words = split_chars(&chars, Separator::Whitespace);
    let ghost ws = words.deep_view();
    let mut cleaned: Vec<Vec<char>> = Vec::new();
    let mut shaped: Vec<bool> = Vec::new();
    let mut k: usize = 0;
    while k < words.len()
        invariant
            k <= words.len(),
            ws == words.deep_view(),
            cleaned.len() == k,
            shaped.len() == k,
            forall|m: int| 0 <= m < k ==> (#[trigger] cleaned@[m])@ == clean_token(ws[m]),
            forall|m: int| 0 <= m < k ==> (#[trigger] shaped@[m]) == is_subject_code(clean_token(ws[m])),
        decreases words.len() - k,
    {
        assert(ws[k as int] =~= words[k as int]@);
        let t = clean_chars(&words[k]);
        let t_str = string_of(&t);
        shaped.push(looks_like_subject_code(t_str.as_str()));
        cleaned.push(t);
        k += 1;
    }
    assert forall|m: int| 0 <= m < cleaned.len() implies #[trigger] cleaned.deep_view()[m]
        == cleaned_words(ws)[m] by {
        assert(cleaned.deep_view()[m] =~= cleaned@[m]@);
    }
    assert(cleaned.deep_view() =~= cleaned_words(ws));
    assert(shaped@ =~= code_shapes(cleaned_words(ws)));
    let hits = find_hits(&cleaned, &shaped, codes);
    proof {
        lemma_hits_agree(ws, codes@, 0);
    }
    let ghost hs = hits.deep_view();
    assert(hs == scan_hits(ws, codes@, 0));
    let ghost start = record@;
    let mut h: usize = 0;
    while h < hits.len()
        invariant
            h <= hits.len(),
            hs == hits.deep_view(),
            record.wf(),
            record@ == apply_hits(start, hs.take(h as int)),
        decreases hits.len() - h,
    {
        let code = string_of(&hits[h].0);
        let toks = &hits[h].1;
        let mut tokens: Vec<String> = Vec::new();
        let mut m: usize = 0;
        while m < toks.len()
            invariant
                m <= toks.len(),
                tokens.len() == m,
                forall|x: int| 0 <= x < m ==> (#[trigger] tokens@[x])@ == toks@[x]@,
            decreases toks.len() - m,
        {
            tokens.push(string_of(&toks[m]));
            m += 1;
        }
        let ghost hit = hs[h as int];
        assert(hit.0 =~= code@);
        assert(hit.1 == toks.deep_view());
        assert forall|x: int| 0 <= x < toks.len() implies #[trigger] toks.deep_view()[x]
            == toks@[x]@ by {
            assert(toks.deep_view()[x] =~= toks@[x]@);
        }
        assert(strings_view(tokens@) =~= hit.1);
        assert(tokens.deep_view() =~= hit.1);
        assert(hs.take(h + 1).drop_last() =~= hs.take(h as int));
        match extract_marks_from_tokens(tokens.as_slice()) {
            Some((ia, see)) => {
                record.set_marks(code.clone(), ia, see);
                record.log(LogEvent::TextScanMarks { code, internal: ia, external: see });
            },
            None => {
                record.log(LogEvent::TextScanFailed { code, tokens });
            },
        }
        h += 1;
    }
    assert(hs.take(hits.len() as int) =~= hs);
}

} // verus!
