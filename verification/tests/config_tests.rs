use ocr_fusion::config::{
    interpolate_keyframes, lerp_i32, lerp_region, Keyframe, NamedExpectation, Region,
    RegionConfig, RegionExpectation,
};

fn region(name: &str, x: i32, y: i32, width: i32, height: i32) -> Region {
    Region { name: name.to_string(), x, y, width, height }
}

fn rect(r: &Region) -> (String, i32, i32, i32, i32) {
    (r.name.clone(), r.x, r.y, r.width, r.height)
}

fn rects(rs: &[Region]) -> Vec<(String, i32, i32, i32, i32)> {
    rs.iter().map(rect).collect()
}

fn config(keyframes: Vec<Keyframe>) -> RegionConfig {
    RegionConfig { video_path: "clip.mp4".to_string(), keyframes, expectations: Vec::new() }
}

const SECOND: i64 = 1_000_000;

#[test]
fn gauge_halfway_between_two_keyframes() {
    let cfg = config(vec![
        Keyframe { timestamp: 0, regions: vec![region("gauge", 0, 0, 100, 50)] },
        Keyframe { timestamp: 10 * SECOND, regions: vec![region("gauge", 0, 0, 200, 100)] },
    ]);
    let at = cfg.get_regions_at(5 * SECOND);
    assert_eq!(rects(&at), vec![("gauge".to_string(), 0, 0, 150, 75)]);
}

#[test]
fn regions_at_keyframe_times_are_those_of_the_keyframe() {
    let cfg = config(vec![
        Keyframe { timestamp: 0, regions: vec![region("a", 1, 2, 3, 4)] },
        Keyframe {
            timestamp: 3 * SECOND,
            regions: vec![region("a", 11, 13, 17, 19), region("b", 5, 5, 5, 5)],
        },
        Keyframe {
            timestamp: 7 * SECOND,
            regions: vec![region("a", -7, 0, 1000, 3), region("b", 6, 6, 6, 6)],
        },
    ]);
    for kf in &cfg.keyframes {
        assert_eq!(rects(&cfg.get_regions_at(kf.timestamp)), rects(&kf.regions));
    }
}

#[test]
fn clamps_before_first_and_after_last_keyframe() {
    let cfg = config(vec![
        Keyframe { timestamp: 2 * SECOND, regions: vec![region("a", 1, 2, 3, 4)] },
        Keyframe { timestamp: 4 * SECOND, regions: vec![region("a", 9, 9, 9, 9)] },
    ]);
    assert_eq!(rects(&cfg.get_regions_at(-5)), vec![("a".to_string(), 1, 2, 3, 4)]);
    assert_eq!(rects(&cfg.get_regions_at(0)), vec![("a".to_string(), 1, 2, 3, 4)]);
    assert_eq!(rects(&cfg.get_regions_at(100 * SECOND)), vec![("a".to_string(), 9, 9, 9, 9)]);
    assert_eq!(rects(&cfg.get_regions_at(i64::MAX)), vec![("a".to_string(), 9, 9, 9, 9)]);
    assert_eq!(rects(&cfg.get_regions_at(i64::MIN)), vec![("a".to_string(), 1, 2, 3, 4)]);
}

#[test]
fn no_keyframes_give_no_regions() {
    let cfg = config(Vec::new());
    assert!(cfg.get_regions_at(0).is_empty());
}

#[test]
fn single_keyframe_is_valid_everywhere() {
    let cfg = config(vec![Keyframe { timestamp: SECOND, regions: vec![region("a", 1, 2, 3, 4)] }]);
    for ts in [0, SECOND, 2 * SECOND] {
        assert_eq!(rects(&cfg.get_regions_at(ts)), vec![("a".to_string(), 1, 2, 3, 4)]);
    }
}

#[test]
fn region_only_in_later_keyframe_appears_unmodified_between() {
    let cfg = config(vec![
        Keyframe { timestamp: 0, regions: vec![region("a", 0, 0, 10, 10)] },
        Keyframe {
            timestamp: 10 * SECOND,
            regions: vec![region("late", 7, 8, 9, 10), region("a", 10, 20, 30, 40)],
        },
    ]);
    let at = cfg.get_regions_at(SECOND);
    assert_eq!(
        rects(&at),
        vec![("a".to_string(), 1, 2, 12, 13), ("late".to_string(), 7, 8, 9, 10)]
    );
    let before = cfg.get_regions_at(0);
    assert_eq!(rects(&before), vec![("a".to_string(), 0, 0, 10, 10)]);
}

#[test]
fn region_only_in_earlier_keyframe_keeps_its_rectangle() {
    let cfg = config(vec![
        Keyframe {
            timestamp: 0,
            regions: vec![region("gone", 3, 4, 5, 6), region("a", 0, 0, 0, 0)],
        },
        Keyframe { timestamp: 4 * SECOND, regions: vec![region("a", 8, 8, 8, 8)] },
    ]);
    let at = cfg.get_regions_at(3 * SECOND);
    assert_eq!(rects(&at), vec![("gone".to_string(), 3, 4, 5, 6), ("a".to_string(), 6, 6, 6, 6)]);
}

#[test]
fn interpolation_picks_the_pair_around_the_timestamp() {
    let cfg = config(vec![
        Keyframe { timestamp: 0, regions: vec![region("a", 0, 0, 0, 0)] },
        Keyframe { timestamp: 10 * SECOND, regions: vec![region("a", 100, 0, 0, 0)] },
        Keyframe { timestamp: 20 * SECOND, regions: vec![region("a", 0, 1000, 0, 0)] },
    ]);
    assert_eq!(rects(&cfg.get_regions_at(2 * SECOND)), vec![("a".to_string(), 20, 0, 0, 0)]);
    assert_eq!(rects(&cfg.get_regions_at(15 * SECOND)), vec![("a".to_string(), 50, 500, 0, 0)]);
}

#[test]
fn lerp_rounds_to_nearest_with_ties_away_from_zero() {
    assert_eq!(lerp_i32(0, 1, 1, 2), 1);
    assert_eq!(lerp_i32(0, -1, 1, 2), -1);
    assert_eq!(lerp_i32(0, 3, 1, 2), 2);
    assert_eq!(lerp_i32(-3, 0, 1, 2), -2);
    assert_eq!(lerp_i32(0, 10, 1, 3), 3);
    assert_eq!(lerp_i32(0, 10, 2, 3), 7);
    assert_eq!(lerp_i32(10, 0, 1, 3), 7);
    assert_eq!(lerp_i32(5, 5, 1, 3), 5);
    assert_eq!(lerp_i32(-1, 0, 1, 2), -1);
}

#[test]
fn lerp_reaches_both_ends_exactly() {
    for (a, b) in [(0, 0), (i32::MIN, i32::MAX), (i32::MAX, i32::MIN), (-17, 4), (123456, 7)] {
        for den in [1u64, 3, 1_000_000, u64::MAX] {
            assert_eq!(lerp_i32(a, b, 0, den), a);
            assert_eq!(lerp_i32(a, b, den, den), b);
        }
    }
}

#[test]
fn lerp_stays_between_its_ends() {
    let den = 997u64;
    for (a, b) in [(i32::MIN, i32::MAX), (i32::MAX, i32::MIN), (-50, 70), (70, -50), (3, 4)] {
        let mut last = a;
        for num in 0..=den {
            let v = lerp_i32(a, b, num, den);
            assert!(v >= a.min(b) && v <= a.max(b));
            if a <= b {
                assert!(v >= last);
            } else {
                assert!(v <= last);
            }
            last = v;
        }
    }
}

#[test]
fn lerp_matches_floating_point_interpolation() {
    for (a, b) in [(0, 100), (100, 0), (-40, 37), (1920, 13)] {
        for num in 0..=64u64 {
            let t = num as f64 / 64.0;
            let expected = (a as f64 + (b as f64 - a as f64) * t).round() as i32;
            assert_eq!(lerp_i32(a, b, num, 64), expected);
        }
    }
}

#[test]
fn lerp_region_keeps_the_name_of_the_first() {
    let r = lerp_region(&region("first", 0, 10, 20, 30), &region("second", 10, 0, 40, 10), 1, 4);
    assert_eq!(rect(&r), ("first".to_string(), 3, 8, 25, 25));
}

#[test]
fn interpolate_keyframes_uses_last_region_of_a_name() {
    let a = Keyframe { timestamp: 0, regions: vec![region("a", 0, 0, 0, 0)] };
    let b = Keyframe {
        timestamp: 1,
        regions: vec![region("a", 10, 10, 10, 10), region("a", 20, 20, 20, 20)],
    };
    let out = interpolate_keyframes(&a, &b, 1, 2);
    assert_eq!(rects(&out), vec![("a".to_string(), 10, 10, 10, 10)]);
}

#[test]
fn sort_keyframes_orders_by_time_and_keeps_equal_times_in_order() {
    let mut cfg = config(vec![
        Keyframe { timestamp: 5, regions: vec![region("five-a", 0, 0, 0, 0)] },
        Keyframe { timestamp: 1, regions: vec![region("one", 0, 0, 0, 0)] },
        Keyframe { timestamp: 5, regions: vec![region("five-b", 0, 0, 0, 0)] },
        Keyframe { timestamp: -3, regions: vec![region("minus", 0, 0, 0, 0)] },
        Keyframe { timestamp: 5, regions: vec![region("five-c", 0, 0, 0, 0)] },
        Keyframe { timestamp: 2, regions: vec![] },
    ]);
    cfg.expectations.push(NamedExpectation {
        name: "one".to_string(),
        expectation: RegionExpectation::default(),
    });
    cfg.sort_keyframes();
    let order: Vec<(i64, String)> = cfg
        .keyframes
        .iter()
        .map(|k| (k.timestamp, k.regions.first().map(|r| r.name.clone()).unwrap_or_default()))
        .collect();
    assert_eq!(
        order,
        vec![
            (-3, "minus".to_string()),
            (1, "one".to_string()),
            (2, String::new()),
            (5, "five-a".to_string()),
            (5, "five-b".to_string()),
            (5, "five-c".to_string()),
        ]
    );
    assert_eq!(cfg.video_path, "clip.mp4");
    assert_eq!(cfg.expectations.len(), 1);
}

#[test]
fn sort_keyframes_on_empty_and_sorted_lists() {
    let mut cfg = config(Vec::new());
    cfg.sort_keyframes();
    assert!(cfg.keyframes.is_empty());
    let mut cfg = config(vec![
        Keyframe { timestamp: 1, regions: vec![] },
        Keyframe { timestamp: 2, regions: vec![] },
    ]);
    cfg.sort_keyframes();
    assert_eq!(cfg.keyframes.iter().map(|k| k.timestamp).collect::<Vec<_>>(), vec![1, 2]);
}

#[test]
fn expectation_for_finds_the_first_entry_of_a_name() {
    let mut cfg = config(Vec::new());
    let mut first = RegionExpectation::default();
    first.numeric = true;
    first.min = Some(5);
    let mut second = RegionExpectation::default();
    second.max = Some(9);
    cfg.expectations.push(NamedExpectation { name: "a".to_string(), expectation: first });
    cfg.expectations.push(NamedExpectation { name: "a".to_string(), expectation: second });
    let found = cfg.expectation_for(&"a".to_string()).unwrap();
    assert!(found.numeric);
    assert_eq!(found.min, Some(5));
    assert!(cfg.expectation_for(&"b".to_string()).is_none());
}

#[test]
fn default_expectation_asks_for_nothing() {
    let e = RegionExpectation::default();
    assert!(!e.numeric);
    assert_eq!(e.min, None);
    assert_eq!(e.max, None);
    assert_eq!(e.decimal_places, None);
    assert_eq!(e.total_digits, None);
    assert_eq!(e.max_deviation, None);
}

#[test]
fn keyframes_of_one_time_divide_by_no_zero() {
    let cfg = config(vec![
        Keyframe { timestamp: 0, regions: vec![region("a", 0, 0, 0, 0)] },
        Keyframe { timestamp: 5 * SECOND, regions: vec![region("a", 10, 10, 10, 10)] },
        Keyframe { timestamp: 5 * SECOND, regions: vec![region("a", 20, 20, 20, 20)] },
        Keyframe { timestamp: 10 * SECOND, regions: vec![region("a", 30, 30, 30, 30)] },
    ]);
    assert_eq!(rects(&cfg.get_regions_at(5 * SECOND)), vec![("a".to_string(), 10, 10, 10, 10)]);
    assert_eq!(rects(&cfg.get_regions_at(5 * SECOND + 1)), vec![("a".to_string(), 20, 20, 20, 20)]);
    assert_eq!(rects(&cfg.get_regions_at(6 * SECOND)), vec![("a".to_string(), 22, 22, 22, 22)]);
    let same = config(vec![
        Keyframe { timestamp: SECOND, regions: vec![region("a", 1, 1, 1, 1)] },
        Keyframe { timestamp: SECOND, regions: vec![region("a", 2, 2, 2, 2)] },
    ]);
    assert_eq!(rects(&same.get_regions_at(SECOND)), vec![("a".to_string(), 1, 1, 1, 1)]);
    assert_eq!(rects(&same.get_regions_at(SECOND + 1)), vec![("a".to_string(), 2, 2, 2, 2)]);
}

#[test]
fn a_keyframe_that_drops_a_region_does_not_give_its_own_regions_back() {
    let cfg = config(vec![
        Keyframe { timestamp: 0, regions: vec![region("a", 0, 0, 4, 4)] },
        Keyframe { timestamp: 5 * SECOND, regions: vec![region("b", 1, 1, 1, 1)] },
        Keyframe { timestamp: 10 * SECOND, regions: vec![region("b", 2, 2, 2, 2)] },
    ]);
    assert_eq!(
        rects(&cfg.get_regions_at(5 * SECOND)),
        vec![("a".to_string(), 0, 0, 4, 4), ("b".to_string(), 1, 1, 1, 1)]
    );
}
