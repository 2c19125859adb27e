use vstd::prelude::*;
use crate::decimal::{parse_chars, parse_decimal, trim_chars, trimmed};
use crate::error::Error;
use crate::rational::{outcome, Rational};
use crate::stats::{
    all_wf, in_order, is_mode_set, is_ordered, lower_half, lower_quartile, mean, mean_of, median,
    median_of, mode, sort, sorted, upper_half, upper_quartile,
};
use crate::text::{chars_of, split_tokens, tokens};

verus! {

/// The fewest responses that can be graded.
pub const MIN_RESPONSES: usize = 20;

/// The number of points a grading awards at most.
pub const MAX_SCORE: u32 = 9;

/// Every token of `s` is a valid decimal literal.
pub open spec fn all_tokens_parse(s: Seq<char>) -> bool {
    forall|i: int| 0 <= i < tokens(s).len() ==> (#[trigger] parse_decimal(tokens(s)[i])) is Ok
}

/// `v` holds, in order, the values of the tokens of `s`.
pub open spec fn parsed_list(s: Seq<char>, v: Seq<Rational>) -> bool {
    &&& v.len() == tokens(s).len()
    &&& forall|i: int|
        0 <= i < v.len() ==> parse_decimal(#[trigger] tokens(s)[i]) == Ok::<Rational, Error>(v[i])
}

/// Parses a list of numbers separated by white space, commas or semicolons.
/// Any token that is not a number rejects the whole list.
pub fn parse_responses(text: &str) -> (r: Result<Vec<Rational>, Error>)
    ensures
        r is Ok <==> all_tokens_parse(text@),
        r matches Ok(v) ==> parsed_list(text@, v@) && all_wf(v@),
        r matches Err(e) ==> e == Error::InvalidResponses,
{
    let cs = chars_of(text);
    let toks = split_tokens(&cs);
    let mut out: Vec<Rational> = Vec::new();
    let mut i: usize = 0;
    while i < toks.len()
        invariant
            0 <= i <= toks@.len() == tokens(text@).len(),
            cs@ == text@,
            forall|k: int| 0 <= k < toks@.len() ==> #[trigger] toks@[k]@ == tokens(text@)[k],
            out@.len() == i,
            all_wf(out@),
            forall|k: int|
                0 <= k < i ==> parse_decimal(#[trigger] tokens(text@)[k]) == Ok::<
                    Rational,
                    Error,
                >(out@[k]),
        decreases toks@.len() - i,
    {
        assert(toks@[i as int]@ == tokens(text@)[i as int]);
        match parse_chars(&toks[i]) {
            Ok(z) => {
                out.push(z);
            },
            Err(_) => {
                return Err(Error::InvalidResponses);
            },
        }
        i = i + 1;
    }
    proof {
        assert forall|k: int| 0 <= k < tokens(text@).len() implies (#[trigger] parse_decimal(
            tokens(text@)[k],
        )) is Ok by {
            assert(parse_decimal(tokens(text@)[k]) == Ok::<Rational, Error>(out@[k]));
        }
    }
    Ok(out)
}

/// Parses the numbers of a mode answer, with the same rules as a response list.
pub fn parse_modes(text: &str) -> (r: Result<Vec<Rational>, Error>)
    ensures
        r is Ok <==> all_tokens_parse(text@),
        r matches Ok(v) ==> parsed_list(text@, v@) && all_wf(v@),
        r matches Err(e) ==> e == Error::InvalidResponses,
{
    parse_responses(text)
}

/// `text`, without surrounding white space, is a number equal to `x`.
pub open spec fn value_matches(text: Seq<char>, x: Rational) -> bool {
    parse_decimal(trimmed(text)) matches Ok(z) && z.eqv(x)
}

/// `text` lists exactly the values of `modes`, as a set.
pub open spec fn modes_match(text: Seq<char>, modes: Seq<Rational>) -> bool {
    all_tokens_parse(text) && exists|v: Seq<Rational>| parsed_list(text, v) && same_values(v, modes)
}

/// Whether `text`, without surrounding white space, is a number equal to `expected`.
pub fn check_value(text: &str, expected: &Rational) -> (r: bool)
    ensures
        r == value_matches(text@, *expected),
{
    let cs = chars_of(text);
    let t = trim_chars(&cs);
    match parse_chars(&t) {
        Ok(z) => z.equals(expected),
        Err(_) => false,
    }
}

/// Every element of `a` equals some element of `b` in value.
pub open spec fn covered_by(a: Seq<Rational>, b: Seq<Rational>) -> bool {
    forall|i: int| 0 <= i < a.len() ==> has_value(b, #[trigger] a[i])
}

/// Some element of `b` equals `x` in value.
pub open spec fn has_value(b: Seq<Rational>, x: Rational) -> bool {
    exists|k: int| 0 <= k < b.len() && x.eqv(#[trigger] b[k])
}

/// `a` and `b` hold the same values, as sets.
pub open spec fn same_values(a: Seq<Rational>, b: Seq<Rational>) -> bool {
    covered_by(a, b) && covered_by(b, a)
}

/// The index of an element of `b` equal to `x` in value, if there is one.
fn find_value(b: &[Rational], x: &Rational) -> (r: Option<usize>)
    ensures
        r matches Some(k) ==> k < b@.len() && x.eqv(b@[k as int]),
        r is None ==> forall|k: int| 0 <= k < b@.len() ==> !x.eqv(#[trigger] b@[k]),
{
    let mut k: usize = 0;
    while k < b.len()
        invariant
            0 <= k <= b@.len(),
            forall|j: int| 0 <= j < k ==> !x.eqv(#[trigger] b@[j]),
        decreases b@.len() - k,
    {
        if x.equals(&b[k]) {
            return Some(k);
        }
        k = k + 1;
    }
    None
}

fn covers(a: &[Rational], b: &[Rational]) -> (r: bool)
    ensures
        r == covered_by(a@, b@),
{
    let ghost mut wit: Seq<int> = Seq::empty();
    let mut i: usize = 0;
    while i < a.len()
        invariant
            0 <= i <= a@.len(),
            wit.len() == i,
            forall|j: int| 0 <= j < i ==> 0 <= #[trigger] wit[j] < b@.len() && a@[j].eqv(b@[wit[j]]),
        decreases a@.len() - i,
    {
        match find_value(b, &a[i]) {
            Some(k) => {
                proof {
                    wit = wit.push(k as int);
                }
            },
            None => {
                proof {
                    assert(!covered_by(a@, b@)) by {
                        let x = a@[i as int];
                        assert(forall|k: int| 0 <= k < b@.len() ==> !x.eqv(#[trigger] b@[k]));
                    }
                }
                return false;
            },
        }
        i = i + 1;
    }
    proof {
        assert forall|j: int| 0 <= j < a@.len() implies has_value(b@, #[trigger] a@[j]) by {
            assert(a@[j].eqv(b@[wit[j]]));
        }
    }
    true
}

/// Whether `text` lists exactly the values of `modes`, as a set: order and
/// repetitions do not matter.
pub fn check_modes(text: &str, modes: &[Rational]) -> (r: bool)
    ensures
        r == modes_match(text@, modes@),
{
    match parse_modes(text) {
        Ok(v) => {
            let ok = covers(v.as_slice(), modes) && covers(modes, v.as_slice());
            proof {
                if !ok {
                    assert forall|w: Seq<Rational>| parsed_list(text@, w) implies !same_values(w, modes@) by {
                        assert(w =~= v@) by {
                            assert forall|i: int| 0 <= i < w.len() implies w[i] == v@[i] by {
                                assert(parse_decimal(tokens(text@)[i]) == Ok::<Rational, Error>(w[i]));
                                assert(parse_decimal(tokens(text@)[i]) == Ok::<Rational, Error>(v@[i]));
                            }
                        }
                    }
                }
            }
            ok
        },
        Err(_) => false,
    }
}

/// The statistics of a response list, taken from its ascending copy.
pub struct Summary {
    pub sorted: Vec<Rational>,
    pub min: Rational,
    pub max: Rational,
    pub range: Rational,
    pub mean: Rational,
    pub q1: Rational,
    pub median: Rational,
    pub q3: Rational,
    pub modes: Vec<Rational>,
}

/// The checked difference `a - b`.
pub open spec fn diff(a: Rational, b: Rational) -> Result<Rational, Error> {
    outcome(a.num * b.den - b.num * a.den, a.den * b.den)
}

/// No statistic of the ascending list `t` overflows.
pub open spec fn stats_fit(t: Seq<Rational>) -> bool {
    &&& diff(t.last(), t[0]) is Ok
    &&& mean_of(t) is Ok
    &&& median_of(lower_half(t)) is Ok
    &&& median_of(t) is Ok
    &&& median_of(upper_half(t)) is Ok
}

/// `m` holds the statistics of the ascending list `t`.
pub open spec fn summary_of(t: Seq<Rational>, m: Summary) -> bool {
    &&& m.sorted@ == t
    &&& m.min == t[0]
    &&& m.max == t.last()
    &&& diff(t.last(), t[0]) == Ok::<Rational, Error>(m.range)
    &&& mean_of(t) == Ok::<Rational, Error>(m.mean)
    &&& median_of(lower_half(t)) == Ok::<Rational, Error>(m.q1)
    &&& median_of(t) == Ok::<Rational, Error>(m.median)
    &&& median_of(upper_half(t)) == Ok::<Rational, Error>(m.q3)
    &&& is_mode_set(t, m.modes@)
}

/// `t` is an ascending arrangement of the elements of `s`.
pub open spec fn sorted_copy(s: Seq<Rational>, t: Seq<Rational>) -> bool {
    sorted(t) && all_wf(t) && t.to_multiset() == s.to_multiset()
}

/// The statistics of a response list of at least `MIN_RESPONSES` numbers.
pub fn summarize(responses: &[Rational]) -> (r: Result<Summary, Error>)
    requires
        all_wf(responses@),
        responses@.len() <= i64::MAX,
    ensures
        responses@.len() < MIN_RESPONSES ==> r == Err::<Summary, Error>(Error::TooFewResponses),
        r matches Ok(m) ==> responses@.len() >= MIN_RESPONSES && sorted_copy(responses@, m.sorted@)
            && summary_of(m.sorted@, m),
        r matches Err(e) ==> responses@.len() < MIN_RESPONSES || (e == Error::Overflow
            && exists|t: Seq<Rational>| sorted_copy(responses@, t) && !stats_fit(t)),
{
    if responses.len() < MIN_RESPONSES {
        return Err(Error::TooFewResponses);
    }
    let t = sort(responses);
    let n = t.len();
    let min = t[0];
    let max = t[n - 1];
    let ts = t.as_slice();
    let range = max.sub(&min);
    let mean_v = mean(ts);
    let q1 = lower_quartile(ts);
    let q2 = median(ts);
    let q3 = upper_quartile(ts);
    proof {
        assert(sorted_copy(responses@, t@));
    }
    match (range, mean_v, q1, q2, q3) {
        (Ok(range), Ok(mean_v), Ok(q1), Ok(q2), Ok(q3)) => {
            let modes = mode(ts);
            Ok(Summary { sorted: t, min, max, range, mean: mean_v, q1, median: q2, q3, modes })
        },
        _ => {
            proof {
                assert(max == t@.last());
                assert(!stats_fit(t@));
            }
            Err(Error::Overflow)
        },
    }
}

/// The answers typed into each field of the form.
pub struct Answers {
    pub mean: String,
    pub range: String,
    pub min: String,
    pub q1: String,
    pub median: String,
    pub q3: String,
    pub max: String,
    pub modes: String,
}

/// The outcome of grading one submission.
pub struct GradeReport {
    /// The responses were typed in ascending order (informational only).
    pub ordered: bool,
    pub mean: bool,
    pub range: bool,
    pub min: bool,
    pub q1: bool,
    pub median: bool,
    pub q3: bool,
    pub max: bool,
    pub modes: bool,
    /// Points earned: one for a valid response list, one per correct field.
    pub correct: u32,
    /// `correct` out of `MAX_SCORE`, as a percentage rounded to the nearest integer.
    pub percent: u32,
    /// The statistics the answers were compared with.
    pub expected: Summary,
}

pub open spec fn b2n(b: bool) -> int {
    if b {
        1
    } else {
        0
    }
}

/// The points of a report: the valid list, then each field.
pub open spec fn points(g: GradeReport) -> int {
    1 + b2n(g.mean) + b2n(g.range) + b2n(g.min) + b2n(g.q1) + b2n(g.median) + b2n(g.q3) + b2n(
        g.max,
    ) + b2n(g.modes)
}

/// `p` is `100 * c / 9` rounded to the nearest integer.
pub open spec fn is_rounded_percent(c: int, p: int) -> bool {
    -4 <= 9 * p - 100 * c <= 4
}

/// `g` grades the answers `a` against the summary it holds.
pub open spec fn fields_graded(a: Answers, g: GradeReport) -> bool {
    let m = g.expected;
    &&& g.mean == value_matches(a.mean@, m.mean)
    &&& g.range == value_matches(a.range@, m.range)
    &&& g.min == value_matches(a.min@, m.min)
    &&& g.q1 == value_matches(a.q1@, m.q1)
    &&& g.median == value_matches(a.median@, m.median)
    &&& g.q3 == value_matches(a.q3@, m.q3)
    &&& g.max == value_matches(a.max@, m.max)
    &&& g.modes == modes_match(a.modes@, m.modes@)
}

fn point(b: bool) -> (r: u32)
    ensures
        r == b2n(b),
{
    if b {
        1
    } else {
        0
    }
}

/// The rounded percentage of `correct` out of `MAX_SCORE`.
pub fn score_percent(correct: u32) -> (p: u32)
    requires
        correct <= MAX_SCORE,
    ensures
        is_rounded_percent(correct as int, p as int),
{
    (correct * 100 + 4) / 9
}

/// The response list `s` parses, holds at least `MIN_RESPONSES` and at most
/// `i64::MAX` numbers, and no statistic of its ascending copy overflows.
pub open spec fn gradable(s: Seq<char>) -> bool {
    &&& all_tokens_parse(s)
    &&& MIN_RESPONSES <= tokens(s).len() <= i64::MAX
    &&& forall|v: Seq<Rational>, t: Seq<Rational>|
        #[trigger] parsed_list(s, v) && #[trigger] sorted_copy(v, t) ==> stats_fit(t)
}

/// Grades a submission: parses the response list, computes its statistics
/// and checks each answer against them.
pub fn grade(responses: &str, answers: &Answers) -> (r: Result<GradeReport, Error>)
    ensures
        !all_tokens_parse(responses@) ==> r == Err::<GradeReport, Error>(Error::InvalidResponses),
        all_tokens_parse(responses@) && tokens(responses@).len() < MIN_RESPONSES ==> r == Err::<
            GradeReport,
            Error,
        >(Error::TooFewResponses),
        r matches Ok(g) ==> exists|v: Seq<Rational>|
            {
                &&& parsed_list(responses@, v)
                &&& v.len() >= MIN_RESPONSES
                &&& sorted_copy(v, g.expected.sorted@)
                &&& summary_of(g.expected.sorted@, g.expected)
                &&& g.ordered == in_order(v)
            },
        r matches Ok(g) ==> fields_graded(*answers, g) && g.correct == points(g)
            && is_rounded_percent(g.correct as int, g.percent as int),
        gradable(responses@) ==> r is Ok,
        r matches Err(e) ==> {
            ||| e == Error::InvalidResponses && !all_tokens_parse(responses@)
            ||| e == Error::TooFewResponses && all_tokens_parse(responses@) && tokens(
                responses@,
            ).len() < MIN_RESPONSES
            ||| e == Error::Overflow && all_tokens_parse(responses@) && tokens(responses@).len()
                >= MIN_RESPONSES && !gradable(responses@)
        },
{
    let v = match parse_responses(responses) {
        Ok(v) => v,
        Err(e) => {
            return Err(e);
        },
    };
    if v.len() as u128 > i64::MAX as u128 {
        return Err(Error::Overflow);
    }
    let ordered = is_ordered(v.as_slice());
    let m = match summarize(v.as_slice()) {
        Ok(m) => m,
        Err(e) => {
            return Err(e);
        },
    };
    Ok(grade_against(answers, ordered, m))
}

/// Checks each answer against the statistics `m`.
pub fn grade_against(answers: &Answers, ordered: bool, m: Summary) -> (g: GradeReport)
    ensures
        g.expected == m,
        g.ordered == ordered,
        fields_graded(*answers, g),
        g.correct == points(g),
        is_rounded_percent(g.correct as int, g.percent as int),
{
    let mean_ok = check_value(answers.mean.as_str(), &m.mean);
    let range_ok = check_value(answers.range.as_str(), &m.range);
    let min_ok = check_value(answers.min.as_str(), &m.min);
    let q1_ok = check_value(answers.q1.as_str(), &m.q1);
    let median_ok = check_value(answers.median.as_str(), &m.median);
    let q3_ok = check_value(answers.q3.as_str(), &m.q3);
    let max_ok = check_value(answers.max.as_str(), &m.max);
    let modes_ok = check_modes(answers.modes.as_str(), m.modes.as_slice());
    let correct: u32 = 1 + point(mean_ok) + point(range_ok) + point(min_ok) + point(q1_ok) + point(
        median_ok,
    ) + point(q3_ok) + point(max_ok) + point(modes_ok);
    let percent = score_percent(correct);
    GradeReport {
        ordered,
        mean: mean_ok,
        range: range_ok,
        min: min_ok,
        q1: q1_ok,
        median: median_ok,
        q3: q3_ok,
        max: max_ok,
        modes: modes_ok,
        correct,
        percent,
        expected: m,
    }
}

} // verus!
