use ocr_fusion::config::RegionExpectation;
use ocr_fusion::ocr::{
    best_result, best_result_constrained, effective, eligible_indices, empty_reading, fast_path,
    fuse, make_result, passes_hard_constraints, pick_reading, read_region, run_tier, validation_score,
    winner_index, OcrResult, Recognizer, CONFIDENCE_ONE, SCORE_NOT_A_NUMBER, SCORE_ONE,
};
use ocr_fusion::raster::RgbImage;
use std::cell::Cell;

fn candidate(text: &str, confidence: u32, engine: &str) -> OcrResult {
    OcrResult {
        text: text.to_string(),
        confidence,
        preview_b64: format!("preview-of-{engine}"),
        engine_name: engine.to_string(),
    }
}

fn numeric() -> RegionExpectation {
    let mut e = RegionExpectation::default();
    e.numeric = true;
    e
}

fn units(v: i64) -> i64 {
    v * 1_000_000
}

struct Stub {
    label: String,
    answer: Option<OcrResult>,
    calls: Cell<usize>,
    seen: Cell<(u32, u32, usize)>,
}

impl Stub {
    fn new(label: &str, answer: Option<OcrResult>) -> Stub {
        Stub { label: label.to_string(), answer, calls: Cell::new(0), seen: Cell::new((0, 0, 0)) }
    }
}

impl Recognizer for Stub {
    fn name(&self) -> &str {
        &self.label
    }

    fn recognize(&self, crop: &RgbImage) -> Option<OcrResult> {
        self.calls.set(self.calls.get() + 1);
        self.seen.set((crop.width, crop.height, crop.data.len()));
        self.answer.clone()
    }
}

fn frame(width: u32, height: u32) -> Vec<u8> {
    (0..(3 * width * height)).map(|i| (i % 251) as u8).collect()
}

#[test]
fn score_is_one_without_numeric_expectation() {
    let e = RegionExpectation::default();
    assert_eq!(validation_score("garbage", &e, None), SCORE_ONE);
    assert_eq!(validation_score("", &e, Some(5)), SCORE_ONE);
}

#[test]
fn score_of_text_that_is_no_number() {
    assert_eq!(validation_score("abc", &numeric(), None), SCORE_NOT_A_NUMBER);
    assert_eq!(validation_score("", &numeric(), None), 10_000);
    assert_eq!(validation_score("-", &numeric(), None), 10_000);
}

#[test]
fn score_penalties_stack() {
    let mut e = numeric();
    assert_eq!(validation_score("50", &e, None), 100_000);
    e.min = Some(units(0));
    e.max = Some(units(100));
    assert_eq!(validation_score("50", &e, None), 100_000);
    assert_eq!(validation_score("0", &e, None), 100_000);
    assert_eq!(validation_score("100", &e, None), 100_000);
    assert_eq!(validation_score("150", &e, None), 40_000);
    assert_eq!(validation_score("-1", &e, None), 40_000);
    e.decimal_places = Some(1);
    assert_eq!(validation_score("50.5", &e, None), 100_000);
    assert_eq!(validation_score("50", &e, None), 65_000);
    assert_eq!(validation_score("150", &e, None), 26_000);
    e.total_digits = Some(3);
    assert_eq!(validation_score("50.5", &e, None), 100_000);
    assert_eq!(validation_score("50.55", &e, None), 42_250);
    assert_eq!(validation_score("150", &e, None), 26_000);
    assert_eq!(validation_score("1500", &e, None), 16_900);
    e.max_deviation = Some(units(5));
    assert_eq!(validation_score("50.5", &e, None), 100_000);
    assert_eq!(validation_score("50.5", &e, Some(units(45) + 500_000)), 100_000);
    assert_eq!(validation_score("50.5", &e, Some(units(45))), 50_000);
    assert_eq!(validation_score("50.55", &e, Some(units(45))), 21_125);
    assert_eq!(validation_score("1500", &e, Some(units(45))), 8_450);
}

#[test]
fn score_with_every_penalty_is_still_above_zero() {
    let mut e = numeric();
    e.min = Some(units(100));
    e.max = Some(units(0));
    e.decimal_places = Some(3);
    e.total_digits = Some(9);
    e.max_deviation = Some(1);
    assert_eq!(validation_score("50", &e, Some(units(-50))), 3_380);
}

#[test]
fn score_stays_within_bounds_on_many_inputs() {
    let texts = ["", "abc", "12", "-3.5", "1'000,5", "O.S", "99999999999999999999", "-", "5."];
    let mut es = vec![RegionExpectation::default(), numeric()];
    let mut e = numeric();
    e.min = Some(units(10));
    e.max = Some(units(5));
    e.decimal_places = Some(2);
    e.total_digits = Some(1);
    e.max_deviation = Some(units(1));
    es.push(e);
    for e in &es {
        for t in texts {
            for prev in [None, Some(0), Some(i64::MAX), Some(i64::MIN)] {
                let s = validation_score(t, e, prev);
                assert!(s > 0 && s <= SCORE_ONE);
            }
        }
    }
}

#[test]
fn deviation_of_zero_or_below_is_no_constraint() {
    let mut e = numeric();
    e.max_deviation = Some(0);
    assert_eq!(validation_score("50", &e, Some(units(1))), 100_000);
    assert!(passes_hard_constraints("50", &e, Some(units(1))));
    e.max_deviation = Some(-5);
    assert_eq!(validation_score("50", &e, Some(units(1))), 100_000);
    assert!(passes_hard_constraints("50", &e, Some(units(1))));
}

#[test]
fn out_of_range_candidate_is_not_eligible() {
    let mut e = numeric();
    e.min = Some(units(0));
    e.max = Some(units(100));
    assert!(!passes_hard_constraints("150", &e, None));
    assert!(passes_hard_constraints("100", &e, None));
    assert!(passes_hard_constraints("0", &e, None));
    assert!(!passes_hard_constraints("-0.000001", &e, None));
    assert!(!passes_hard_constraints("no number", &e, None));
    let only = vec![candidate("150", CONFIDENCE_ONE, "x")];
    assert!(best_result_constrained(&only, Some(&e), None).is_none());
    assert_eq!(pick_reading(&only, Some(&e), None), empty_reading());
    assert_eq!(
        empty_reading(),
        (String::new(), 0, String::new(), String::new(), String::new())
    );
}

#[test]
fn deviation_from_previous_value_decides_eligibility() {
    let mut e = numeric();
    e.max_deviation = Some(units(5));
    let prev = Some(units(20));
    assert!(passes_hard_constraints("21.0", &e, prev));
    assert_eq!(validation_score("21.0", &e, prev), SCORE_ONE);
    assert!(!passes_hard_constraints("40.0", &e, prev));
    assert!(passes_hard_constraints("25.0", &e, prev));
    assert!(passes_hard_constraints("15", &e, prev));
    assert!(!passes_hard_constraints("25.000001", &e, prev));
    assert!(passes_hard_constraints("40.0", &e, None));
}

#[test]
fn hard_constraints_without_numeric_expectation_pass_anything() {
    let mut e = RegionExpectation::default();
    e.min = Some(units(0));
    e.max = Some(units(1));
    assert!(passes_hard_constraints("whatever", &e, None));
    assert!(passes_hard_constraints("500", &e, None));
}

#[test]
fn effective_score_is_confidence_times_validation() {
    let mut e = numeric();
    e.max = Some(units(100));
    let c = candidate("150", 800_000, "x");
    assert_eq!(effective(&c, Some(&e), None), 800_000u64 * 40_000);
    assert_eq!(effective(&c, None, None), 800_000u64 * 100_000);
    let big = candidate("1", u32::MAX, "x");
    assert_eq!(effective(&big, None, None), u32::MAX as u64 * 100_000);
}

#[test]
fn eligible_indices_are_a_subset_in_order() {
    let mut e = numeric();
    e.max = Some(units(100));
    let pool = vec![
        candidate("150", 999_999, "a"),
        candidate("50", 100_000, "b"),
        candidate("??", 900_000, "c"),
        candidate("7", 1, "d"),
    ];
    assert_eq!(eligible_indices(&pool, Some(&e), None), vec![1, 3]);
    assert_eq!(eligible_indices(&pool, None, None), vec![0, 1, 2, 3]);
    assert!(eligible_indices(&[], Some(&e), None).is_empty());
}

#[test]
fn winner_has_highest_effective_score_among_eligible() {
    let mut e = numeric();
    e.max = Some(units(100));
    e.decimal_places = Some(1);
    let pool = vec![
        candidate("150", 999_999, "a"),
        candidate("50", 900_000, "b"),
        candidate("50.5", 700_000, "c"),
        candidate("7.0", 100_000, "d"),
    ];
    assert_eq!(winner_index(&pool, Some(&e), None, true), Some(2));
    assert_eq!(best_result_constrained(&pool, Some(&e), None).unwrap().engine_name, "c");
    assert_eq!(winner_index(&pool, Some(&e), None, false), Some(2));
    assert_eq!(winner_index(&pool, None, None, true), Some(0));
    assert_eq!(best_result(&pool, None, None).unwrap().engine_name, "a");
    assert!(best_result(&[], None, None).is_none());
    assert!(best_result_constrained(&[], None, None).is_none());
}

#[test]
fn unconstrained_winner_may_be_ineligible() {
    let mut e = numeric();
    e.max = Some(units(100));
    let pool = vec![candidate("150", 1_000_000, "far"), candidate("50", 300_000, "near")];
    assert_eq!(best_result(&pool, Some(&e), None).unwrap().engine_name, "far");
    assert_eq!(best_result_constrained(&pool, Some(&e), None).unwrap().engine_name, "near");
}

#[test]
fn ties_go_to_the_earliest_candidate() {
    let pool = vec![
        candidate("1", 500_000, "first"),
        candidate("2", 700_000, "second"),
        candidate("3", 700_000, "third"),
        candidate("4", 700_000, "fourth"),
    ];
    assert_eq!(winner_index(&pool, None, None, true), Some(1));
    assert_eq!(best_result(&pool, None, None).unwrap().engine_name, "second");
    let e = numeric();
    assert_eq!(best_result_constrained(&pool, Some(&e), None).unwrap().engine_name, "second");
}

#[test]
fn make_result_cleans_numbers_and_trims_text() {
    let r = candidate("  1'234,5 bar \n", 750_000, "engine");
    assert_eq!(
        make_result(r.clone(), true),
        (
            "1234.5".to_string(),
            750_000,
            "1'234,5 bar".to_string(),
            "preview-of-engine".to_string(),
            "engine".to_string()
        )
    );
    assert_eq!(
        make_result(r, false),
        (
            "1'234,5 bar".to_string(),
            750_000,
            "1'234,5 bar".to_string(),
            "preview-of-engine".to_string(),
            "engine".to_string()
        )
    );
}

#[test]
fn fast_path_needs_an_eligible_candidate_at_the_threshold() {
    let mut e = numeric();
    e.max = Some(units(100));
    let pool = vec![candidate("150", 990_000, "wrong"), candidate("50", 920_000, "right")];
    assert_eq!(fast_path(&pool, 900_000, Some(&e), None).unwrap().engine_name, "right");
    assert_eq!(fast_path(&pool, 920_000, Some(&e), None).unwrap().engine_name, "right");
    assert!(fast_path(&pool, 920_001, Some(&e), None).is_none());
    assert_eq!(fast_path(&pool, 950_000, None, None).unwrap().engine_name, "wrong");
    assert!(fast_path(&[], 0, None, None).is_none());
    let penalised = vec![candidate("50", 990_000, "p")];
    e.decimal_places = Some(2);
    assert!(fast_path(&penalised, 900_000, Some(&e), None).is_none());
    assert_eq!(fast_path(&penalised, 643_500, Some(&e), None).unwrap().engine_name, "p");
    assert!(fast_path(&penalised, 643_501, Some(&e), None).is_none());
}

#[test]
fn priority_answer_at_threshold_skips_fallback() {
    let priority = vec![
        Stub::new("p1", Some(candidate("41", 500_000, "p1"))),
        Stub::new("p2", Some(candidate("42", 950_000, "p2"))),
    ];
    let fallback = vec![Stub::new("f1", Some(candidate("43", 1_000_000, "f1")))];
    let bytes = frame(8, 4);
    let e = numeric();
    let out = read_region(
        &bytes,
        8,
        4,
        1,
        1,
        3,
        2,
        &priority,
        &fallback,
        900_000,
        Some(&e),
        None,
    );
    assert_eq!(
        out,
        (
            "42".to_string(),
            950_000,
            "42".to_string(),
            "preview-of-p2".to_string(),
            "p2".to_string()
        )
    );
    assert_eq!(priority[0].calls.get(), 1);
    assert_eq!(priority[1].calls.get(), 1);
    assert_eq!(fallback[0].calls.get(), 0);
    assert_eq!(priority[0].seen.get(), (3, 2, 18));
}

#[test]
fn fallback_runs_when_priority_is_not_trustworthy() {
    let priority = vec![Stub::new("p1", Some(candidate("41", 899_999, "p1")))];
    let fallback = vec![
        Stub::new("f1", None),
        Stub::new("f2", Some(candidate("43 V", 950_000, "f2"))),
    ];
    let bytes = frame(8, 4);
    let out =
        read_region(&bytes, 8, 4, 0, 0, 8, 4, &priority, &fallback, 900_000, None, None);
    assert_eq!(out.0, "43 V");
    assert_eq!(out.4, "f2");
    assert_eq!(fallback[0].calls.get(), 1);
    assert_eq!(fallback[1].calls.get(), 1);
    assert_eq!(priority[0].calls.get(), 1);
}

#[test]
fn confident_priority_answer_out_of_range_does_not_skip_fallback() {
    let mut e = numeric();
    e.max = Some(units(100));
    let priority = vec![Stub::new("p1", Some(candidate("150", 1_000_000, "p1")))];
    let fallback = vec![Stub::new("f1", Some(candidate("15.0", 300_000, "f1")))];
    let bytes = frame(4, 4);
    let out =
        read_region(&bytes, 4, 4, 0, 0, 4, 4, &priority, &fallback, 900_000, Some(&e), None);
    assert_eq!(out.0, "15.0");
    assert_eq!(out.1, 300_000);
    assert_eq!(out.4, "f1");
    assert_eq!(fallback[0].calls.get(), 1);
}

#[test]
fn no_eligible_candidate_gives_the_empty_reading() {
    let mut e = numeric();
    e.max = Some(units(100));
    let priority = vec![Stub::new("p1", Some(candidate("150", 1_000_000, "p1")))];
    let fallback = vec![Stub::new("f1", Some(candidate("abc", 1_000_000, "f1")))];
    let bytes = frame(4, 4);
    let out =
        read_region(&bytes, 4, 4, 0, 0, 4, 4, &priority, &fallback, 900_000, Some(&e), None);
    assert_eq!(out, empty_reading());
    assert_eq!(fallback[0].calls.get(), 1);
}

#[test]
fn no_engines_give_the_empty_reading() {
    let none: Vec<Stub> = Vec::new();
    let bytes = frame(4, 4);
    let out = read_region(&bytes, 4, 4, 0, 0, 4, 4, &none, &none, 900_000, None, None);
    assert_eq!(out, empty_reading());
}

#[test]
fn rectangle_outside_the_frame_asks_no_engine() {
    let priority = vec![Stub::new("p1", Some(candidate("1", 1_000_000, "p1")))];
    let fallback = vec![Stub::new("f1", Some(candidate("2", 1_000_000, "f1")))];
    let bytes = frame(4, 4);
    for (x, y, w, h) in [(4, 0, 2, 2), (0, 4, 2, 2), (0, 0, 0, 2), (1, 1, 2, 0), (9, 9, 1, 1)] {
        let out =
            read_region(&bytes, 4, 4, x, y, w, h, &priority, &fallback, 0, None, None);
        assert_eq!(out, empty_reading());
    }
    assert_eq!(priority[0].calls.get(), 0);
    assert_eq!(fallback[0].calls.get(), 0);
}

#[test]
fn rectangle_is_clamped_to_the_frame() {
    let priority = vec![Stub::new("p1", Some(candidate("1", 1_000_000, "p1")))];
    let fallback: Vec<Stub> = Vec::new();
    let bytes = frame(5, 4);
    read_region(&bytes, 5, 4, 3, 1, 100, u32::MAX, &priority, &fallback, 0, None, None);
    assert_eq!(priority[0].seen.get(), (2, 3, 18));
}

#[test]
fn run_tier_keeps_answers_in_engine_order() {
    let engines = vec![
        Stub::new("a", Some(candidate("1", 1, "a"))),
        Stub::new("b", None),
        Stub::new("c", Some(candidate("3", 3, "c"))),
    ];
    let crop = RgbImage { width: 1, height: 1, data: vec![1, 2, 3] };
    let found = run_tier(&engines, &crop);
    assert_eq!(
        found.iter().map(|r| r.engine_name.clone()).collect::<Vec<_>>(),
        vec!["a".to_string(), "c".to_string()]
    );
}

#[test]
fn default_result_is_empty() {
    let r = OcrResult::default();
    assert_eq!(r.text, "");
    assert_eq!(r.confidence, 0);
    assert_eq!(r.preview_b64, "");
    assert_eq!(r.engine_name, "");
}

#[test]
fn fusion_of_two_tiers() {
    let mut e = numeric();
    e.max = Some(units(100));
    let priority = vec![candidate("150", 990_000, "p-far"), candidate("50", 910_000, "p-near")];
    let fallback = vec![candidate("51", 1_000_000, "f-best"), candidate("x", 1_000_000, "f-bad")];
    assert_eq!(fuse(&priority, &fallback, 900_000, Some(&e), None).4, "p-near");
    assert_eq!(fuse(&priority, &fallback, 910_001, Some(&e), None).4, "f-best");
    assert_eq!(fuse(&priority, &[], 910_001, Some(&e), None).4, "p-near");
    assert_eq!(fuse(&priority[..1], &fallback[1..], 0, Some(&e), None), empty_reading());
    assert_eq!(fuse(&[], &[], 0, None, None), empty_reading());
    assert_eq!(
        fuse(&[], &fallback, 0, None, None),
        (
            "51".to_string(),
            1_000_000,
            "51".to_string(),
            "preview-of-f-best".to_string(),
            "f-best".to_string()
        )
    );
    let tie_p = vec![candidate("1", 500_000, "p")];
    let tie_f = vec![candidate("2", 500_000, "f")];
    assert_eq!(fuse(&tie_p, &tie_f, 900_000, None, None).4, "p");
}
