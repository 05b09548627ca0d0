use range_engine::merge::merge_ranges;
use range_engine::parse::parse_ranges;
use range_engine::ranges::Range;

fn r(start: u64, end: u64) -> Range {
    Range { start, end }
}

#[test]
fn merge_scenario_overlapping_and_adjacent() {
    let raw = vec![r(3, 5), r(10, 14), r(16, 20), r(12, 18)];
    let merged = merge_ranges(&raw);
    assert_eq!(merged, vec![r(3, 5), r(10, 20)]);
}

#[test]
fn merge_is_idempotent() {
    let raw = vec![r(11, 22), r(20, 30), r(95, 115), r(2, 2)];
    let once = merge_ranges(&raw);
    let twice = merge_ranges(&once);
    assert_eq!(once, twice);
}

#[test]
fn merge_empty_input_gives_empty_output() {
    let raw: Vec<Range> = Vec::new();
    assert!(merge_ranges(&raw).is_empty());
}

#[test]
fn merge_keeps_disjoint_ranges_apart() {
    let raw = vec![r(10, 14), r(16, 18)];
    let merged = merge_ranges(&raw);
    assert_eq!(merged, vec![r(10, 14), r(16, 18)]);
}

#[test]
fn merge_fuses_adjacent_ranges() {
    let raw = vec![r(10, 14), r(15, 18)];
    let merged = merge_ranges(&raw);
    assert_eq!(merged, vec![r(10, 18)]);
}

#[test]
fn merge_handles_duplicates_and_order() {
    let raw = vec![r(5, 9), r(1, 3), r(5, 9), r(2, 4)];
    let merged = merge_ranges(&raw);
    assert_eq!(merged, vec![r(1, 9)]);
}

#[test]
fn merge_at_the_top_of_the_range() {
    let raw = vec![r(u64::MAX - 1, u64::MAX), r(u64::MAX - 5, u64::MAX - 2)];
    let merged = merge_ranges(&raw);
    assert_eq!(merged, vec![r(u64::MAX - 5, u64::MAX)]);
}

#[test]
fn parse_then_merge_matches_direct_merge() {
    let parsed = parse_ranges("11-22,20-30,95-115");
    assert_eq!(parsed, vec![r(11, 22), r(20, 30), r(95, 115)]);
    let merged = merge_ranges(&parsed);
    assert_eq!(merged, vec![r(11, 30), r(95, 115)]);
}

#[test]
fn parse_skips_malformed_tokens() {
    let parsed = parse_ranges("abc,,5,7-9,3-,-4,1-2-3");
    assert_eq!(parsed, vec![r(7, 9)]);
}

#[test]
fn parse_strips_whitespace_everywhere() {
    let parsed = parse_ranges("  1 1-2 2 ,\n95-1\t15\r\n");
    assert_eq!(parsed, vec![r(11, 22), r(95, 115)]);
}

#[test]
fn parse_skips_backwards_and_oversized_tokens() {
    let parsed = parse_ranges("9-5,18446744073709551616-18446744073709551617,4-4");
    assert_eq!(parsed, vec![r(4, 4)]);
}

#[test]
fn parse_accepts_leading_zeros_and_max() {
    let parsed = parse_ranges("007-010,18446744073709551615-18446744073709551615");
    assert_eq!(parsed, vec![r(7, 10), r(u64::MAX, u64::MAX)]);
}
