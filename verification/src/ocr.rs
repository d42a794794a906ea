//! The fusion of recogniser outputs: scoring a candidate against what a
//! region is expected to show, the hard constraints that make a candidate
//! eligible, the choice of a winner, and the two-tier reading of a region.
//!
//! Confidences are whole millionths (`CONFIDENCE_ONE` is certainty);
//! validation scores are whole hundred-thousandths (`SCORE_ONE` is "no
//! penalty"). A candidate's effective score is the product of the two.

pub mod clahe;
pub mod oar;
pub mod sauvola;
pub mod tesseract;

pub use crate::number::clean_number;

use crate::config::RegionExpectation;
use crate::number::{
    clean_number_spec, count_decimal_places, count_total_digits, decimal_places, parse_reading,
    reading_micros, total_digits,
};
use crate::raster::{build_crop, RgbImage};
use crate::text::{trim, trimmed};
use vstd::prelude::*;

verus! {

/// The confidence of a recogniser that is certain.
pub const CONFIDENCE_ONE: u32 = 1_000_000;

/// The validation score of a text that meets every expectation.
pub const SCORE_ONE: u32 = 100_000;

/// The validation score of a text that should be a number and is none.
pub const SCORE_NOT_A_NUMBER: u32 = 10_000;

/// Result produced by a single recogniser for one crop.
#[derive(Debug)]
pub struct OcrResult {
    pub text: String,
    /// In millionths: 0 to `CONFIDENCE_ONE`.
    pub confidence: u32,
    /// Base64 PNG of what the engine actually processed.
    pub preview_b64: String,
    /// For example "tesseract/binary" or "oar-ocr/rgb".
    pub engine_name: String,
}

impl Clone for OcrResult {
    fn clone(&self) -> (r: Self)
        ensures
            r == *self,
    {
        OcrResult {
            text: self.text.clone(),
            confidence: self.confidence,
            preview_b64: self.preview_b64.clone(),
            engine_name: self.engine_name.clone(),
        }
    }
}

impl Default for OcrResult {
    fn default() -> (r: Self)
        ensures
            r.text@ == Seq::<char>::empty(),
            r.confidence == 0,
            r.preview_b64@ == Seq::<char>::empty(),
            r.engine_name@ == Seq::<char>::empty(),
    {
        OcrResult {
            text: String::new(),
            confidence: 0,
            preview_b64: String::new(),
            engine_name: String::new(),
        }
    }
}

/// The value that `text` shows where a number is expected: that of its
/// clean number.
pub open spec fn value_of(text: Seq<char>) -> Option<int> {
    reading_micros(clean_number_spec(text))
}

/// `v` lies below the declared minimum.
pub open spec fn below_min(v: int, exp: &RegionExpectation) -> bool {
    exp.min matches Some(m) && v < m
}

/// `v` lies above the declared maximum.
pub open spec fn above_max(v: int, exp: &RegionExpectation) -> bool {
    exp.max matches Some(m) && v > m
}

/// `v` differs from the previous accepted value by more than the allowed
/// deviation. Never so where there is no previous value, or where no
/// deviation above zero is declared.
pub open spec fn deviates(v: int, exp: &RegionExpectation, prev: Option<i64>) -> bool {
    match (exp.max_deviation, prev) {
        (Some(md), Some(pv)) => md > 0 && (v - pv > md || pv - v > md),
        _ => false,
    }
}

/// The clean number of `text` has another number of decimal places than expected.
pub open spec fn wrong_decimal_places(text: Seq<char>, exp: &RegionExpectation) -> bool {
    exp.decimal_places matches Some(n) && decimal_places(clean_number_spec(text)) != n
}

/// The clean number of `text` has another number of digits than expected.
pub open spec fn wrong_total_digits(text: Seq<char>, exp: &RegionExpectation) -> bool {
    exp.total_digits matches Some(n) && total_digits(clean_number_spec(text)) != n
}

/// `score` after a penalty of `num / den`, if the penalty is due.
pub open spec fn penalized(score: int, due: bool, num: int, den: int) -> int {
    if due {
        score * num / den
    } else {
        score
    }
}

/// The validation score of `text` in hundred-thousandths: `SCORE_ONE`
/// where no number is expected, a tenth of it where a number is expected
/// and `text` shows none; else `SCORE_ONE` times 0.4 for each violated
/// bound, times 0.65 for a wrong number of decimal places, times 0.65 for a
/// wrong number of digits, times 0.5 for too large a deviation.
pub open spec fn validation_score_spec(
    text: Seq<char>,
    exp: &RegionExpectation,
    prev: Option<i64>,
) -> int {
    if !exp.numeric {
        SCORE_ONE as int
    } else {
        match value_of(text) {
            None => SCORE_NOT_A_NUMBER as int,
            Some(v) => {
                let s1 = penalized(SCORE_ONE as int, below_min(v, exp), 2, 5);
                let s2 = penalized(s1, above_max(v, exp), 2, 5);
                let s3 = penalized(s2, wrong_decimal_places(text, exp), 13, 20);
                let s4 = penalized(s3, wrong_total_digits(text, exp), 13, 20);
                penalized(s4, deviates(v, exp, prev), 1, 2)
            },
        }
    }
}

/// `text` satisfies the hard constraints of `exp`: where a number is
/// expected, `text` shows one, within the declared bounds and within the
/// allowed deviation from the previous value.
pub open spec fn passes_hard_constraints_spec(
    text: Seq<char>,
    exp: &RegionExpectation,
    prev: Option<i64>,
) -> bool {
    !exp.numeric || match value_of(text) {
        None => false,
        Some(v) => !below_min(v, exp) && !above_max(v, exp) && !deviates(v, exp, prev),
    }
}

/// Whether `v` deviates from the previous value by more than allowed.
fn deviation_exceeded(v: i64, exp: &RegionExpectation, prev_value: Option<i64>) -> (b: bool)
    ensures
        b == deviates(v as int, exp, prev_value),
{
    match (exp.max_deviation, prev_value) {
        (Some(md), Some(pv)) => {
            let d: i128 = v as i128 - pv as i128;
            let distance: i128 = if d < 0 {
                -d
            } else {
                d
            };
            md > 0 && distance > md as i128
        },
        _ => false,
    }
}

/// Returns `true` when `text` satisfies the hard constraints in `exp`
/// (the declared range, the allowed deviation from `prev_value`).
/// Where `exp.numeric` is set, text that shows no number always fails.
pub fn passes_hard_constraints(text: &str, exp: &RegionExpectation, prev_value: Option<i64>) -> (b:
    bool)
    ensures
        b == passes_hard_constraints_spec(text@, exp, prev_value),
{
    if !exp.numeric {
        return true;
    }
    let cleaned = clean_number(text);
    match parse_reading(cleaned.as_str()) {
        None => false,
        Some(v) => {
            let too_low = match exp.min {
                Some(m) => v < m,
                None => false,
            };
            let too_high = match exp.max {
                Some(m) => v > m,
                None => false,
            };
            !too_low && !too_high && !deviation_exceeded(v, exp, prev_value)
        },
    }
}

/// Returns the multiplier, in hundred-thousandths, that scales down a
/// confidence when the text violates the region's content expectations. All
/// penalties are multiplicative and stack. The result is never zero, so a
/// pool of bad candidates still has a best one, and never above `SCORE_ONE`.
pub fn validation_score(text: &str, exp: &RegionExpectation, prev_value: Option<i64>) -> (score:
    u32)
    ensures
        score == validation_score_spec(text@, exp, prev_value),
        0 < score <= SCORE_ONE,
{
    if !exp.numeric {
        return SCORE_ONE;
    }
    let cleaned = clean_number(text);
    let value = match parse_reading(cleaned.as_str()) {
        None => {
            return SCORE_NOT_A_NUMBER;
        },
        Some(v) => v,
    };
    let mut score: u32 = SCORE_ONE;
    if let Some(min) = exp.min {
        if value < min {
            score = score * 2 / 5;
        }
    }
    if let Some(max) = exp.max {
        if value > max {
            score = score * 2 / 5;
        }
    }
    if let Some(expected) = exp.decimal_places {
        if count_decimal_places(cleaned.as_str()) != expected as usize {
            score = score * 13 / 20;
        }
    }
    if let Some(expected) = exp.total_digits {
        if count_total_digits(cleaned.as_str()) != expected as usize {
            score = score * 13 / 20;
        }
    }
    if deviation_exceeded(value, exp, prev_value) {
        score = score / 2;
    }
    score
}

/// Every recognition backend implements this. `recognize` receives the
/// cropped region; a backend that reads nothing returns `None`.
pub trait Recognizer {
    fn name(&self) -> &str;

    fn recognize(&self, crop: &RgbImage) -> Option<OcrResult>
        requires
            crop.wf(),
    ;
}

/// What one reading of a region gives: the value, the confidence, the raw
/// text, the preview and the name of the winning engine.
pub type Reading = (String, u32, String, String, String);

/// The validation score of a candidate; `SCORE_ONE` where nothing is expected.
pub open spec fn score_of(r: OcrResult, exp: Option<&RegionExpectation>, prev: Option<i64>) -> int {
    match exp {
        Some(e) => validation_score_spec(r.text@, e, prev),
        None => SCORE_ONE as int,
    }
}

/// The ranking key of a candidate: its confidence times its validation score.
pub open spec fn effective_score(
    r: OcrResult,
    exp: Option<&RegionExpectation>,
    prev: Option<i64>,
) -> int {
    r.confidence * score_of(r, exp, prev)
}

/// A candidate may be selected at all: it satisfies the hard constraints.
/// Where nothing is expected, every candidate may.
pub open spec fn is_eligible(r: OcrResult, exp: Option<&RegionExpectation>, prev: Option<i64>) -> bool {
    match exp {
        Some(e) => passes_hard_constraints_spec(r.text@, e, prev),
        None => true,
    }
}

/// Candidate `i` is in the pool from which the winner is taken.
pub open spec fn in_pool(
    results: Seq<OcrResult>,
    exp: Option<&RegionExpectation>,
    prev: Option<i64>,
    constrained: bool,
    i: int,
) -> bool {
    0 <= i < results.len() && (constrained ==> is_eligible(results[i], exp, prev))
}

/// Candidate `i` wins: it is in the pool, no candidate of the pool has a
/// higher effective score, and every candidate of the pool before it has a
/// lower one.
pub open spec fn is_winner(
    results: Seq<OcrResult>,
    exp: Option<&RegionExpectation>,
    prev: Option<i64>,
    constrained: bool,
    i: int,
) -> bool {
    &&& in_pool(results, exp, prev, constrained, i)
    &&& forall|j: int| #[trigger]
        in_pool(results, exp, prev, constrained, j) ==> effective_score(results[j], exp, prev)
            <= effective_score(results[i], exp, prev)
    &&& forall|j: int|
        j < i && #[trigger] in_pool(results, exp, prev, constrained, j) ==> effective_score(
            results[j],
            exp,
            prev,
        ) < effective_score(results[i], exp, prev)
}

/// At most one candidate wins.
pub proof fn lemma_winner_unique(
    results: Seq<OcrResult>,
    exp: Option<&RegionExpectation>,
    prev: Option<i64>,
    constrained: bool,
    i: int,
    j: int,
)
    requires
        is_winner(results, exp, prev, constrained, i),
        is_winner(results, exp, prev, constrained, j),
    ensures
        i == j,
{
}

/// The effective score of a candidate.
pub fn effective(r: &OcrResult, expectation: Option<&RegionExpectation>, prev_value: Option<i64>) -> (s:
    u64)
    ensures
        s == effective_score(*r, expectation, prev_value),
{
    let v: u32 = match expectation {
        Some(e) => validation_score(r.text.as_str(), e, prev_value),
        None => SCORE_ONE,
    };
    assert(r.confidence * v <= 0xffff_ffff * 100_000) by (nonlinear_arith)
        requires
            0 <= r.confidence <= 0xffff_ffff,
            0 <= v <= 100_000,
    ;
    r.confidence as u64 * v as u64
}

/// The indices of the candidates that satisfy the hard constraints, in
/// ascending order. Every index is one of `results`, and no eligible
/// candidate is left out.
pub fn eligible_indices(
    results: &[OcrResult],
    expectation: Option<&RegionExpectation>,
    prev_value: Option<i64>,
) -> (valid: Vec<usize>)
    ensures
        forall|k: int|
            0 <= k < valid.len() ==> (#[trigger] valid@[k]) < results.len() && is_eligible(
                results@[valid@[k] as int],
                expectation,
                prev_value,
            ),
        forall|k: int, m: int| 0 <= k < m < valid.len() ==> valid@[k] < valid@[m],
        forall|i: int|
            0 <= i < results.len() && is_eligible(#[trigger] results@[i], expectation, prev_value)
                ==> valid@.contains(i as usize),
{
    let mut valid: Vec<usize> = Vec::new();
    let mut i: usize = 0;
    while i < results.len()
        invariant
            i <= results.len(),
            forall|k: int|
                0 <= k < valid.len() ==> (#[trigger] valid@[k]) < i && is_eligible(
                    results@[valid@[k] as int],
                    expectation,
                    prev_value,
                ),
            forall|k: int, m: int| 0 <= k < m < valid.len() ==> valid@[k] < valid@[m],
            forall|q: int|
                0 <= q < i && is_eligible(#[trigger] results@[q], expectation, prev_value)
                    ==> valid@.contains(q as usize),
        decreases results.len() - i,
    {
        let ok = match expectation {
            Some(e) => passes_hard_constraints(results[i].text.as_str(), e, prev_value),
            None => true,
        };
        if ok {
            let ghost before = valid@;
            valid.push(i);
            proof {
                assert(valid@[before.len() as int] == i);
                assert forall|q: int|
                    0 <= q < i + 1 && is_eligible(
                        #[trigger] results@[q],
                        expectation,
                        prev_value,
                    ) implies valid@.contains(q as usize) by {
                    if q < i {
                        let k = choose|k: int| 0 <= k < before.len() && before[k] == q as usize;
                        assert(valid@[k] == q as usize);
                    }
                }
            }
        }
        i += 1;
    }
    valid
}

/// The index of the winner among all candidates, or among the eligible
/// ones where `constrained` is set. `None` where the pool is empty.
pub fn winner_index(
    results: &[OcrResult],
    expectation: Option<&RegionExpectation>,
    prev_value: Option<i64>,
    constrained: bool,
) -> (best: Option<usize>)
    ensures
        match best {
            Some(i) => is_winner(results@, expectation, prev_value, constrained, i as int),
            None => forall|i: int| !in_pool(results@, expectation, prev_value, constrained, i),
        },
{
    let mut best: Option<usize> = None;
    let mut best_score: u64 = 0;
    let mut i: usize = 0;
    while i < results.len()
        invariant
            i <= results.len(),
            match best {
                Some(b) => {
                    &&& b < i
                    &&& in_pool(results@, expectation, prev_value, constrained, b as int)
                    &&& best_score == effective_score(results@[b as int], expectation, prev_value)
                    &&& forall|j: int|
                        j < i && #[trigger] in_pool(
                            results@,
                            expectation,
                            prev_value,
                            constrained,
                            j,
                        ) ==> effective_score(results@[j], expectation, prev_value) <= best_score
                    &&& forall|j: int|
                        j < b && #[trigger] in_pool(
                            results@,
                            expectation,
                            prev_value,
                            constrained,
                            j,
                        ) ==> effective_score(results@[j], expectation, prev_value) < best_score
                },
                None => forall|j: int|
                    j < i ==> !in_pool(results@, expectation, prev_value, constrained, j),
            },
        decreases results.len() - i,
    {
        let candidate = &results[i];
        let ok = !constrained || match expectation {
            Some(e) => passes_hard_constraints(candidate.text.as_str(), e, prev_value),
            None => true,
        };
        if ok {
            let s = effective(candidate, expectation, prev_value);
            let better = match best {
                Some(_) => s > best_score,
                None => true,
            };
            if better {
                best = Some(i);
                best_score = s;
            }
        }
        i += 1;
    }
    best
}

/// Selects the best candidate from a slice: the one with the highest
/// effective score, the earliest of them where several share it.
pub fn best_result<'a>(
    results: &'a [OcrResult],
    expectation: Option<&RegionExpectation>,
    prev_value: Option<i64>,
) -> (best: Option<&'a OcrResult>)
    ensures
        match best {
            Some(w) => exists|i: int|
                is_winner(results@, expectation, prev_value, false, i) && *w == results@[i],
            None => results@.len() == 0,
        },
{
    match winner_index(results, expectation, prev_value, false) {
        Some(i) => Some(&results[i]),
        None => {
            assert(results@.len() == 0) by {
                if results@.len() > 0 {
                    assert(in_pool(results@, expectation, prev_value, false, 0));
                }
            }
            None
        },
    }
}

/// Like `best_result`, but restricted to the candidates that pass the hard
/// constraints. Where no candidate passes them the result is `None`, so
/// that the caller reports no reading rather than a known-bad one.
pub fn best_result_constrained<'a>(
    results: &'a [OcrResult],
    expectation: Option<&RegionExpectation>,
    prev_value: Option<i64>,
) -> (best: Option<&'a OcrResult>)
    ensures
        match best {
            Some(w) => exists|i: int|
                is_winner(results@, expectation, prev_value, true, i) && *w == results@[i],
            None => forall|i: int|
                0 <= i < results@.len() ==> !is_eligible(
                    #[trigger] results@[i],
                    expectation,
                    prev_value,
                ),
        },
{
    match winner_index(results, expectation, prev_value, true) {
        Some(i) => Some(&results[i]),
        None => {
            assert forall|i: int| 0 <= i < results@.len() implies !is_eligible(
                #[trigger] results@[i],
                expectation,
                prev_value,
            ) by {
                assert(!in_pool(results@, expectation, prev_value, true, i));
            }
            None
        },
    }
}

/// The reading that stands for "nothing read": every text empty, the
/// confidence zero.
pub open spec fn is_empty_reading(out: Reading) -> bool {
    &&& out.0@.len() == 0
    &&& out.1 == 0
    &&& out.2@.len() == 0
    &&& out.3@.len() == 0
    &&& out.4@.len() == 0
}

/// `out` is the reading that the candidate `r` gives: its clean number where
/// a number is asked for, else its trimmed text; its confidence, its trimmed
/// text, its preview and the name of its engine.
pub open spec fn is_reading_of(out: Reading, r: OcrResult, numeric: bool) -> bool {
    &&& out.0@ == if numeric {
        clean_number_spec(r.text@)
    } else {
        trimmed(r.text@)
    }
    &&& out.1 == r.confidence
    &&& out.2@ == trimmed(r.text@)
    &&& out.3@ == r.preview_b64@
    &&& out.4@ == r.engine_name@
}

/// The reading for "nothing read".
pub fn empty_reading() -> (out: Reading)
    ensures
        is_empty_reading(out),
{
    (String::new(), 0, String::new(), String::new(), String::new())
}

/// Turns the winning candidate into a reading.
pub fn make_result(r: OcrResult, filter_numeric: bool) -> (out: Reading)
    ensures
        is_reading_of(out, r, filter_numeric),
{
    let value = if filter_numeric {
        clean_number(r.text.as_str())
    } else {
        trim(r.text.as_str())
    };
    let raw = trim(r.text.as_str());
    (value, r.confidence, raw, r.preview_b64, r.engine_name)
}

/// Whether the region is expected to show a number.
pub open spec fn wants_number(exp: Option<&RegionExpectation>) -> bool {
    exp matches Some(e) && e.numeric
}

/// Candidate `i` lets the priority tier answer alone: it is eligible and
/// its effective score reaches the threshold.
pub open spec fn reaches_threshold(
    results: Seq<OcrResult>,
    fast_threshold: u32,
    exp: Option<&RegionExpectation>,
    prev: Option<i64>,
    i: int,
) -> bool {
    &&& in_pool(results, exp, prev, true, i)
    &&& effective_score(results[i], exp, prev) >= fast_threshold * SCORE_ONE
}

/// Decides whether the priority tier answers alone. It does exactly when
/// some eligible priority candidate has an effective score of at least
/// `fast_threshold`; the answer is then the winner among the eligible
/// priority candidates, and the fallback tier is not asked.
pub fn fast_path<'a>(
    priority_results: &'a [OcrResult],
    fast_threshold: u32,
    expectation: Option<&RegionExpectation>,
    prev_value: Option<i64>,
) -> (hit: Option<&'a OcrResult>)
    ensures
        hit is Some <==> exists|i: int|
            reaches_threshold(priority_results@, fast_threshold, expectation, prev_value, i),
        hit matches Some(w) ==> exists|i: int|
            is_winner(priority_results@, expectation, prev_value, true, i) && *w
                == priority_results@[i],
{
    let limit: u64 = fast_threshold as u64 * SCORE_ONE as u64;
    match winner_index(priority_results, expectation, prev_value, true) {
        Some(i) => {
            let best = &priority_results[i];
            if effective(best, expectation, prev_value) >= limit {
                assert(reaches_threshold(
                    priority_results@,
                    fast_threshold,
                    expectation,
                    prev_value,
                    i as int,
                ));
                Some(best)
            } else {
                assert forall|j: int|
                    !reaches_threshold(
                        priority_results@,
                        fast_threshold,
                        expectation,
                        prev_value,
                        j,
                    ) by {
                    if in_pool(priority_results@, expectation, prev_value, true, j) {
                    }
                }
                None
            }
        },
        None => None,
    }
}

/// Picks the reading from the full pool of candidates: that of the winner
/// among the eligible ones, or the empty reading where none is eligible,
/// however confident the others are.
pub fn pick_reading(
    results: &[OcrResult],
    expectation: Option<&RegionExpectation>,
    prev_value: Option<i64>,
) -> (out: Reading)
    ensures
        (exists|i: int| in_pool(results@, expectation, prev_value, true, i)) ==> exists|i: int|
            is_winner(results@, expectation, prev_value, true, i) && is_reading_of(
                out,
                results@[i],
                wants_number(expectation),
            ),
        (forall|i: int| !in_pool(results@, expectation, prev_value, true, i)) ==> is_empty_reading(
            out,
        ),
{
    let filter_numeric = match expectation {
        Some(e) => e.numeric,
        None => false,
    };
    match winner_index(results, expectation, prev_value, true) {
        Some(i) => make_result(results[i].clone(), filter_numeric),
        None => empty_reading(),
    }
}

/// `out` is what the candidates of the two tiers give in all. Where a
/// priority candidate lets the priority tier answer alone, `out` is the
/// reading of the winner among the eligible priority candidates, whatever
/// the fallback tier holds. Else `out` is the reading of the winner among
/// the eligible candidates of both tiers, priority first, or the empty
/// reading where no candidate is eligible.
pub open spec fn is_fused(
    out: Reading,
    priority: Seq<OcrResult>,
    fallback: Seq<OcrResult>,
    fast_threshold: u32,
    exp: Option<&RegionExpectation>,
    prev: Option<i64>,
) -> bool {
    if exists|i: int| reaches_threshold(priority, fast_threshold, exp, prev, i) {
        exists|i: int|
            is_winner(priority, exp, prev, true, i) && is_reading_of(
                out,
                priority[i],
                wants_number(exp),
            )
    } else if exists|i: int| in_pool(priority + fallback, exp, prev, true, i) {
        exists|i: int|
            is_winner(priority + fallback, exp, prev, true, i) && is_reading_of(
                out,
                (priority + fallback)[i],
                wants_number(exp),
            )
    } else {
        is_empty_reading(out)
    }
}

/// Fuses the candidates of the two tiers into one reading.
pub fn fuse(
    priority_results: &[OcrResult],
    fallback_results: &[OcrResult],
    fast_threshold: u32,
    expectation: Option<&RegionExpectation>,
    prev_value: Option<i64>,
) -> (out: Reading)
    ensures
        is_fused(
            out,
            priority_results@,
            fallback_results@,
            fast_threshold,
            expectation,
            prev_value,
        ),
{
    let filter_numeric = match expectation {
        Some(e) => e.numeric,
        None => false,
    };
    match fast_path(priority_results, fast_threshold, expectation, prev_value) {
        Some(best) => {
            return make_result(best.clone(), filter_numeric);
        },
        None => {},
    }
    let mut all: Vec<OcrResult> = Vec::new();
    let mut i: usize = 0;
    while i < priority_results.len()
        invariant
            i <= priority_results.len(),
            all@ == priority_results@.take(i as int),
        decreases priority_results.len() - i,
    {
        all.push(priority_results[i].clone());
        assert(priority_results@.take(i as int).push(priority_results@[i as int])
            == priority_results@.take(i + 1));
        i += 1;
    }
    assert(priority_results@.take(i as int) == priority_results@);
    let mut j: usize = 0;
    while j < fallback_results.len()
        invariant
            j <= fallback_results.len(),
            all@ == priority_results@ + fallback_results@.take(j as int),
        decreases fallback_results.len() - j,
    {
        all.push(fallback_results[j].clone());
        assert((priority_results@ + fallback_results@.take(j as int)).push(
            fallback_results@[j as int],
        ) == priority_results@ + fallback_results@.take(j + 1));
        j += 1;
    }
    assert(fallback_results@.take(j as int) == fallback_results@);
    pick_reading(all.as_slice(), expectation, prev_value)
}

/// The results among `answers`, in order: what is left when the answers
/// that hold nothing are dropped.
pub open spec fn present(answers: Seq<Option<OcrResult>>) -> Seq<OcrResult>
    decreases answers.len(),
{
    if answers.len() == 0 {
        Seq::empty()
    } else {
        match answers.last() {
            Some(r) => present(answers.drop_last()).push(r),
            None => present(answers.drop_last()),
        }
    }
}

/// `answers` holds one answer for each engine, in the order of the
/// engines, and each is an answer that the engine can give for `crop`.
pub open spec fn are_answers_of<R: Recognizer>(
    answers: Seq<Option<OcrResult>>,
    engines: Seq<R>,
    crop: &RgbImage,
) -> bool {
    &&& answers.len() == engines.len()
    &&& forall|k: int|
        0 <= k < engines.len() ==> call_ensures(
            R::recognize,
            (&engines[k], crop),
            #[trigger] answers[k],
        )
}

/// No more results are present than there are answers.
pub proof fn lemma_present_len(answers: Seq<Option<OcrResult>>)
    ensures
        present(answers).len() <= answers.len(),
    decreases answers.len(),
{
    if answers.len() > 0 {
        lemma_present_len(answers.drop_last());
    }
}

/// Asks every engine of a tier in turn and collects what they read, in the
/// order of the engines: every engine is asked once for the crop, and the
/// answers that hold a result are returned in the order in which they came.
pub fn run_tier<R: Recognizer>(engines: &[R], crop: &RgbImage) -> (found: Vec<OcrResult>)
    requires
        crop.wf(),
    ensures
        found.len() <= engines.len(),
        exists|answers: Seq<Option<OcrResult>>|
            #[trigger] are_answers_of(answers, engines@, crop) && found@ == present(answers),
{
    let mut found: Vec<OcrResult> = Vec::new();
    let ghost mut answers: Seq<Option<OcrResult>> = Seq::empty();
    let mut i: usize = 0;
    while i < engines.len()
        invariant
            i <= engines.len(),
            crop.wf(),
            answers.len() == i,
            forall|k: int|
                0 <= k < i ==> call_ensures(
                    R::recognize,
                    (&engines@[k], crop),
                    #[trigger] answers[k],
                ),
            found@ == present(answers),
        decreases engines.len() - i,
    {
        let answer = engines[i].recognize(crop);
        proof {
            let before = answers;
            answers = answers.push(answer);
            assert(answers.drop_last() == before);
        }
        match answer {
            Some(r) => {
                found.push(r);
            },
            None => {},
        }
        i += 1;
    }
    proof {
        lemma_present_len(answers);
        assert(are_answers_of(answers, engines@, crop));
    }
    found
}

/// The right and lower edge of a rectangle held within the frame.
pub open spec fn clamped_end(start: u32, extent: u32, limit: u32) -> int {
    if start + extent <= limit {
        start + extent
    } else {
        limit as int
    }
}

/// The part of the rectangle that lies within the frame holds no pixel.
pub open spec fn clamps_to_nothing(
    frame_width: u32,
    frame_height: u32,
    x: u32,
    y: u32,
    w: u32,
    h: u32,
) -> bool {
    clamped_end(x, w, frame_width) <= x || clamped_end(y, h, frame_height) <= y
}

/// Reads one region of a frame.
///
/// The rectangle is clamped to the frame; where nothing of it is left the
/// result is the empty reading and no engine is asked. Else the region is
/// cropped once and the `priority` engines read it. If `fast_path` accepts
/// one of their candidates, that is the result and the `fallback` engines
/// are not asked. Otherwise the `fallback` engines read the crop too, and
/// `pick_reading` chooses among all candidates, priority first.
///
/// Whatever the engines read, the result is what `is_fused` says of the
/// candidates that they returned: the empty reading or the reading of an
/// eligible candidate.
pub fn read_region<P: Recognizer, F: Recognizer>(
    frame_bytes: &[u8],
    frame_width: u32,
    frame_height: u32,
    x: u32,
    y: u32,
    w: u32,
    h: u32,
    priority: &[P],
    fallback: &[F],
    fast_threshold: u32,
    expectation: Option<&RegionExpectation>,
    prev_value: Option<i64>,
) -> (out: Reading)
    requires
        frame_bytes@.len() >= 3 * (frame_width as int) * (frame_height as int),
    ensures
        clamps_to_nothing(frame_width, frame_height, x, y, w, h) ==> is_empty_reading(out),
        !clamps_to_nothing(frame_width, frame_height, x, y, w, h) ==> exists|
            found: Seq<OcrResult>,
            more: Seq<OcrResult>,
        |
            {
                &&& #[trigger] is_fused(out, found, more, fast_threshold, expectation, prev_value)
                &&& found.len() <= priority@.len()
                &&& more.len() <= fallback@.len()
            },
        is_empty_reading(out) || exists|c: OcrResult|
            is_eligible(c, expectation, prev_value) && is_reading_of(
                out,
                c,
                wants_number(expectation),
            ),
{
    let filter_numeric = match expectation {
        Some(e) => e.numeric,
        None => false,
    };
    let x2: u32 = if x as u64 + w as u64 <= frame_width as u64 {
        x + w
    } else {
        frame_width
    };
    let y2: u32 = if y as u64 + h as u64 <= frame_height as u64 {
        y + h
    } else {
        frame_height
    };
    if x2 <= x || y2 <= y {
        return empty_reading();
    }
    let crop = build_crop(frame_bytes, frame_width, frame_height, x, y, x2 - x, y2 - y);

    let mut results = run_tier(priority, &crop);
    let ghost found = results@;
    match fast_path(results.as_slice(), fast_threshold, expectation, prev_value) {
        Some(best) => {
            let out = make_result(best.clone(), filter_numeric);
            assert(is_fused(
                out,
                found,
                Seq::<OcrResult>::empty(),
                fast_threshold,
                expectation,
                prev_value,
            ));
            return out;
        },
        None => {},
    }
    let mut fallback_results = run_tier(fallback, &crop);
    let ghost more = fallback_results@;
    results.append(&mut fallback_results);
    let out = pick_reading(results.as_slice(), expectation, prev_value);
    proof {
        assert(results@ == found + more);
        assert(is_fused(out, found, more, fast_threshold, expectation, prev_value));
        if exists|i: int| in_pool(results@, expectation, prev_value, true, i) {
        } else {
            assert(is_empty_reading(out));
        }
    }
    out
}

} // verus!
