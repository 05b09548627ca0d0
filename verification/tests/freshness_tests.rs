use range_engine::freshness::{parse_range, solve, try_solve};
use range_engine::ranges::Range;

const INVENTORY: &str = "3-5\n10-14\n16-20\n12-18\n\n1\n5\n8\n11\n17\n32\n";

#[test]
fn fresh_identifier_count() {
    // 5, 11 and 17 are fresh; 1, 8 and 32 are not.
    assert_eq!(solve(INVENTORY, false), 3);
}

#[test]
fn total_covered_count() {
    // Merged ranges are 3-5 and 10-20: 3 + 11 identifiers.
    assert_eq!(solve(INVENTORY, true), 14);
}

#[test]
fn try_solve_matches_solve() {
    assert_eq!(try_solve(INVENTORY, false), Some(3));
    assert_eq!(try_solve(INVENTORY, true), Some(14));
}

#[test]
fn try_solve_without_blank_line() {
    assert_eq!(try_solve("3-5\n10-14\n", false), None);
    assert_eq!(try_solve("", true), None);
}

#[test]
fn try_solve_covered_count_overflow() {
    // The single range covers every 64-bit identifier: the count itself no
    // longer fits in 64 bits.
    assert_eq!(try_solve("0-18446744073709551615\n\n", true), None);
    assert_eq!(try_solve("1-18446744073709551615\n\n", true), Some(u64::MAX));
}

#[test]
fn ids_with_surrounding_whitespace_still_count() {
    let input = "3-5\n\n 4 \n\t5\nnope\n";
    assert_eq!(solve(input, false), 2);
}

#[test]
fn crlf_input_is_accepted() {
    let input = "3-5\r\n10-14\r\n\r\n11\r\n2\r\n";
    assert_eq!(solve(input, false), 1);
    assert_eq!(solve(input, true), 8);
}

#[test]
fn parse_range_reads_one_line() {
    assert_eq!(parse_range("3-5"), Some(Range { start: 3, end: 5 }));
    assert_eq!(parse_range("10-10"), Some(Range { start: 10, end: 10 }));
    assert_eq!(parse_range("1-2-3"), None);
    assert_eq!(parse_range("5"), None);
    assert_eq!(parse_range("a-5"), None);
    assert_eq!(parse_range("9-5"), None);
    assert_eq!(parse_range(""), None);
}
