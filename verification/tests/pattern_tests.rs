use range_engine::lookup::{in_merged_ranges, is_fresh};
use range_engine::merge::merge_ranges;
use range_engine::patterns::{is_exact_double, is_invalid_part2};
use range_engine::ranges::Range;

fn r(start: u64, end: u64) -> Range {
    Range { start, end }
}

#[test]
fn exact_double_examples() {
    assert!(is_exact_double(11));
    assert!(is_exact_double(6464));
    assert!(is_exact_double(123123));
    assert!(!is_exact_double(123));
    assert!(!is_exact_double(0));
    assert!(!is_exact_double(10));
    assert!(!is_exact_double(1234));
    assert!(is_exact_double(1010));
}

#[test]
fn multi_repeat_examples() {
    assert!(is_invalid_part2(111));
    assert!(is_invalid_part2(1212121212));
    assert!(is_invalid_part2(12341234));
    assert!(!is_invalid_part2(1234));
    assert!(is_invalid_part2(11));
    assert!(!is_invalid_part2(7));
    assert!(!is_invalid_part2(0));
    assert!(is_invalid_part2(999999));
}

#[test]
fn patterns_at_the_top_of_the_range() {
    // 18446744073709551615 has twenty digits but unequal halves and no
    // shorter period.
    assert!(!is_exact_double(u64::MAX));
    assert!(!is_invalid_part2(u64::MAX));
    // The largest doubled value below 2^64.
    assert!(is_exact_double(18446744071844674407));
    assert!(is_invalid_part2(18446744071844674407));
}

#[test]
fn every_exact_double_is_a_multi_repeat() {
    for x in 0u64..100000 {
        if is_exact_double(x) {
            assert!(is_invalid_part2(x), "{x} is doubled but not repeated");
        }
    }
}

#[test]
fn membership_agrees_with_linear_scan() {
    let raw = vec![r(3, 5), r(10, 14), r(16, 20), r(12, 18)];
    let merged = merge_ranges(&raw);
    for x in 0u64..40 {
        assert_eq!(in_merged_ranges(x, &merged), is_fresh(x, &raw), "at {x}");
    }
}

#[test]
fn membership_scenario() {
    let raw = vec![r(3, 5), r(10, 14), r(16, 20), r(12, 18)];
    let merged = merge_ranges(&raw);
    let fresh: Vec<u64> = [1, 5, 8, 11, 17, 32]
        .into_iter()
        .filter(|&x| in_merged_ranges(x, &merged))
        .collect();
    assert_eq!(fresh, vec![5, 11, 17]);
}

#[test]
fn membership_on_empty_set() {
    let merged = merge_ranges(&Vec::new());
    assert!(!in_merged_ranges(0, &merged));
    assert!(!in_merged_ranges(u64::MAX, &merged));
}

#[test]
fn membership_at_range_edges() {
    let raw = vec![r(10, 14), r(16, 20)];
    let merged = merge_ranges(&raw);
    assert!(in_merged_ranges(10, &merged));
    assert!(in_merged_ranges(14, &merged));
    assert!(!in_merged_ranges(15, &merged));
    assert!(in_merged_ranges(16, &merged));
    assert!(in_merged_ranges(20, &merged));
    assert!(!in_merged_ranges(21, &merged));
    assert!(!in_merged_ranges(9, &merged));
}

#[test]
fn membership_at_the_top_of_the_range() {
    let raw = vec![r(u64::MAX - 2, u64::MAX)];
    let merged = merge_ranges(&raw);
    assert!(in_merged_ranges(u64::MAX, &merged));
    assert!(!in_merged_ranges(u64::MAX - 3, &merged));
}
