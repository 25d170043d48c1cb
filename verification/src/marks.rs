//! Reading a subject's internal and external marks from the tokens that follow
//! its code.
use vstd::prelude::*;
use crate::text::{
    all_digits, chars_of, concat_all, decimal, digit_value, is_all_digits, parse_digits, parse_u32,
    strings_view, trim_by, trim_chars, upper, upper_chars, TrimClass,
};

verus! {

/// A token with the punctuation round it removed, in upper case.
pub open spec fn clean_token(t: Seq<char>) -> Seq<char> {
    upper(trim_by(t, TrimClass::Symbol))
}

/// The words that stand for an absent candidate.
pub open spec fn absent_word(t: Seq<char>) -> bool {
    ||| t == seq!['A', 'B']
    ||| t == seq!['A', 'B', 'S']
    ||| t == seq!['A', 'B', 'S', 'E', 'N', 'T']
}

/// The number a cleaned token contributes, if any. Tokens longer than three
/// characters (dates, years, and the word ABSENT itself) are noise; digit strings
/// count as themselves and AB or ABS count as zero.
pub open spec fn mark_token(clean: Seq<char>) -> Option<Seq<char>> {
    if clean.len() == 0 || clean.len() > 3 {
        None
    } else if all_digits(clean) {
        Some(clean)
    } else if absent_word(clean) {
        Some(seq!['0'])
    } else {
        None
    }
}

/// The numbers that the tokens contribute, in order.
pub open spec fn number_tokens(tokens: Seq<Seq<char>>) -> Seq<Seq<char>>
    decreases tokens.len(),
{
    if tokens.len() == 0 {
        seq![]
    } else {
        let rest = number_tokens(tokens.drop_last());
        match mark_token(clean_token(tokens.last())) {
            Some(d) => rest.push(d),
            None => rest,
        }
    }
}

/// Both values, when both are present.
pub open spec fn both(a: Option<u32>, b: Option<u32>) -> Option<(u32, u32)> {
    match (a, b) {
        (Some(x), Some(y)) => Some((x, y)),
        _ => None,
    }
}

/// The (internal, external) pair that a list of numbers gives.
///
/// Two numbers are internal and external marks. Of three, two single digits
/// followed by a longer number are an internal mark split across two cells
/// (`4 5 26` is 45 and 26); otherwise the third is the total. Of four or more,
/// the last is the total, the one before it the external mark, and all before
/// that are the pieces of the internal mark, written together.
pub open spec fn marks_from_numbers(nums: Seq<Seq<char>>) -> Option<(u32, u32)> {
    let n = nums.len();
    if n < 2 {
        None
    } else if n == 2 {
        both(parse_u32(nums[0]), parse_u32(nums[1]))
    } else if n == 3 {
        if nums[0].len() == 1 && nums[1].len() == 1 && nums[2].len() > 1 {
            both(parse_u32(nums[0] + nums[1]), parse_u32(nums[2]))
        } else {
            both(parse_u32(nums[0]), parse_u32(nums[1]))
        }
    } else {
        both(parse_u32(concat_all(nums.take(n - 2))), parse_u32(nums[n - 2]))
    }
}

/// The marks that a list of tokens gives.
pub open spec fn marks_of_tokens(tokens: Seq<Seq<char>>) -> Option<(u32, u32)> {
    marks_from_numbers(number_tokens(tokens))
}

/// Every number that tokens contribute is a digit string of one to three characters.
pub proof fn lemma_number_tokens_shape(tokens: Seq<Seq<char>>)
    ensures
        forall|i: int|
            0 <= i < number_tokens(tokens).len() ==> {
                &&& all_digits(#[trigger] number_tokens(tokens)[i])
                &&& 1 <= number_tokens(tokens)[i].len() <= 3
            },
    decreases tokens.len(),
{
    if tokens.len() > 0 {
        lemma_number_tokens_shape(tokens.drop_last());
        let rest = number_tokens(tokens.drop_last());
        let z = seq!['0'];
        assert(all_digits(z));
        match mark_token(clean_token(tokens.last())) {
            Some(d) => {
                assert(all_digits(d) && 1 <= d.len() <= 3);
                assert(number_tokens(tokens) == rest.push(d));
                assert forall|i: int| 0 <= i < rest.push(d).len() implies all_digits(
                    #[trigger] rest.push(d)[i],
                ) && 1 <= rest.push(d)[i].len() <= 3 by {
                    if i < rest.len() {
                        assert(rest.push(d)[i] == rest[i]);
                    }
                }
            },
            None => {},
        }
    }
}

/// Powers of ten.
pub open spec fn pow10(n: nat) -> nat
    decreases n,
{
    if n == 0 {
        1
    } else {
        10 * pow10((n - 1) as nat)
    }
}

proof fn lemma_decimal_below(s: Seq<char>)
    requires
        all_digits(s),
    ensures
        decimal(s) < pow10(s.len()),
    decreases s.len(),
{
    if s.len() > 0 {
        let t = s.drop_last();
        assert(all_digits(t));
        lemma_decimal_below(t);
        let c = s.last();
        assert('0' <= c <= '9');
        let d = digit_value(c);
        assert(d <= 9);
        let v = decimal(t);
        let p = pow10(t.len());
        assert(v * 10 + d < 10 * p) by (nonlinear_arith)
            requires
                v < p,
                d <= 9,
        ;
    }
}

pub proof fn lemma_small_fits(s: Seq<char>)
    requires
        all_digits(s),
        s.len() <= 3,
    ensures
        decimal(s) <= 999,
        s.len() > 0 ==> parse_u32(s) == Some(decimal(s) as u32),
{
    lemma_decimal_below(s);
    assert(pow10(0) == 1);
    assert(pow10(1) == 10);
    assert(pow10(2) == 100);
    assert(pow10(3) == 1000);
}

proof fn lemma_concat_digits(parts: Seq<Seq<char>>)
    requires
        forall|i: int| 0 <= i < parts.len() ==> all_digits(#[trigger] parts[i]),
    ensures
        all_digits(concat_all(parts)),
    decreases parts.len(),
{
    if parts.len() > 0 {
        lemma_concat_digits(parts.drop_last());
        let a = concat_all(parts.drop_last());
        let b = parts.last();
        assert forall|i: int| 0 <= i < (a + b).len() implies '0' <= #[trigger] (a + b)[i] <= '9' by {
            if i < a.len() {
                assert((a + b)[i] == a[i]);
            } else {
                assert((a + b)[i] == b[i - a.len()]);
            }
        }
    }
}

/// Tests for AB, ABS or ABSENT.
pub fn is_absent_word(t: &Vec<char>) -> (r: bool)
    ensures
        r == absent_word(t@),
{
    let n = t.len();
    if n == 2 {
        let r = t[0] == 'A' && t[1] == 'B';
        assert(r ==> t@ =~= seq!['A', 'B']);
        r
    } else if n == 3 {
        let r = t[0] == 'A' && t[1] == 'B' && t[2] == 'S';
        assert(r ==> t@ =~= seq!['A', 'B', 'S']);
        r
    } else if n == 6 {
        let r = t[0] == 'A' && t[1] == 'B' && t[2] == 'S' && t[3] == 'E' && t[4] == 'N' && t[5]
            == 'T';
        assert(r ==> t@ =~= seq!['A', 'B', 'S', 'E', 'N', 'T']);
        r
    } else {
        false
    }
}

/// A token without the punctuation round it, in upper case.
pub fn clean_chars(t: &Vec<char>) -> (r: Vec<char>)
    ensures
        r@ == clean_token(t@),
{
    let trimmed = trim_chars(t, TrimClass::Symbol);
    upper_chars(&trimmed)
}

/// The number a cleaned token contributes, if any.
pub fn mark_token_of(clean: &Vec<char>) -> (r: Option<Vec<char>>)
    ensures
        r.deep_view() == mark_token(clean@),
{
    if clean.len() == 0 || clean.len() > 3 {
        None
    } else if is_all_digits(clean) {
        let d = clean.clone();
        assert(d.deep_view() =~= clean@);
        Some(d)
    } else if is_absent_word(clean) {
        let z = vec!['0'];
        assert(z.deep_view() =~= seq!['0']);
        Some(z)
    } else {
        None
    }
}

/// The first `count` parts written one after another.
fn concat_first(parts: &Vec<Vec<char>>, count: usize) -> (r: Vec<char>)
    requires
        count <= parts.len(),
    ensures
        r@ == concat_all(parts.deep_view().take(count as int)),
{
    let mut r: Vec<char> = Vec::new();
    let mut i: usize = 0;
    while i < count
        invariant
            i <= count <= parts.len(),
            r@ == concat_all(parts.deep_view().take(i as int)),
        decreases count - i,
    {
        let ghost before = r@;
        let part = &parts[i];
        let mut k: usize = 0;
        while k < part.len()
            invariant
                k <= part.len(),
                r@ == before + part@.take(k as int),
            decreases part.len() - k,
        {
            r.push(part[k]);
            assert(part@.take(k + 1) =~= part@.take(k as int).push(part@[k as int]));
            k += 1;
        }
        assert(part@.take(part.len() as int) =~= part@);
        assert(parts.deep_view().take(i + 1).drop_last() =~= parts.deep_view().take(i as int));
        assert(parts.deep_view()[i as int] =~= part@);
        i += 1;
    }
    r
}

/// Reads the (internal, external) marks from the tokens that follow a subject code.
///
/// Each token loses the punctuation round it and is upper-cased; what is left
/// contributes a number as [`mark_token`] says, and the numbers give the marks
/// as [`marks_from_numbers`] says. `None` when fewer than two numbers are found,
/// or when a split internal mark does not fit in a `u32`.
pub fn extract_marks_from_tokens(tokens: &[String]) -> (r: Option<(u32, u32)>)
    ensures
        r == marks_of_tokens(strings_view(tokens@)),
{
    let ghost view = strings_view(tokens@);
    let mut nums: Vec<Vec<char>> = Vec::new();
    let mut i: usize = 0;
    while i < tokens.len()
        invariant
            i <= tokens.len(),
            view == strings_view(tokens@),
            nums.deep_view() == number_tokens(view.take(i as int)),
        decreases tokens.len() - i,
    {
        let t = chars_of(tokens[i].as_str());
        let clean = clean_chars(&t);
        assert(view.take(i + 1).drop_last() =~= view.take(i as int));
        assert(view.take(i + 1).last() == tokens@[i as int]@);
        let ghost before = nums.deep_view();
        match mark_token_of(&clean) {
            Some(d) => {
                nums.push(d);
                assert(nums.deep_view() =~= before.push(d.deep_view()));
            },
            None => {},
        }
        i += 1;
    }
    assert(view.take(tokens.len() as int) =~= view);
    proof {
        lemma_number_tokens_shape(view);
    }
    marks_from_number_tokens(&nums)
}

/// Reads the (internal, external) marks from the numbers found after a subject
/// code, each a digit string, as [`marks_from_numbers`] says. `None` when there
/// are fewer than two, or when a number read does not fit in a `u32`.
pub fn marks_from_number_tokens(nums: &Vec<Vec<char>>) -> (r: Option<(u32, u32)>)
    requires
        forall|i: int| 0 <= i < nums.len() ==> all_digits(#[trigger] nums.deep_view()[i]),
    ensures
        r == marks_from_numbers(nums.deep_view()),
{
    let ghost ns = nums.deep_view();
    let n = nums.len();
    if n < 2 {
        return None;
    }
    assert(ns[0] == nums[0]@ && ns[1] == nums[1]@);
    if n == 2 {
        let ia = parse_digits(&nums[0]);
        let see = parse_digits(&nums[1]);
        return match (ia, see) {
            (Some(a), Some(b)) => Some((a, b)),
            _ => None,
        };
    }
    if n == 3 {
        assert(ns[2] == nums[2]@);
        if nums[0].len() == 1 && nums[1].len() == 1 && nums[2].len() > 1 {
            let joined = concat_first(nums, 2);
            assert(ns.take(2).drop_last() =~= ns.take(1));
            assert(ns.take(1).drop_last() =~= ns.take(0));
            assert(concat_all(ns.take(0)) =~= seq![]);
            assert(ns.take(1).last() == ns[0]);
            assert(concat_all(ns.take(1)) =~= ns[0]);
            assert(ns.take(2).last() == ns[1]);
            assert(joined@ =~= ns[0] + ns[1]);
            proof {
                lemma_concat_digits(ns.take(2));
            }
            let ia = parse_digits(&joined);
            let see = parse_digits(&nums[2]);
            return match (ia, see) {
                (Some(a), Some(b)) => Some((a, b)),
                _ => None,
            };
        }
        let ia = parse_digits(&nums[0]);
        let see = parse_digits(&nums[1]);
        return match (ia, see) {
            (Some(a), Some(b)) => Some((a, b)),
            _ => None,
        };
    }
    let joined = concat_first(nums, n - 2);
    proof {
        lemma_concat_digits(ns.take(n - 2));
    }
    assert(ns[n - 2] == nums[n - 2]@);
    let ia = parse_digits(&joined);
    let see = parse_digits(&nums[n - 2]);
    match (ia, see) {
        (Some(a), Some(b)) => Some((a, b)),
        _ => None,
    }
}

} // verus!
