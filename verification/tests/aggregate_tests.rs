use range_engine::patterns::{is_exact_double, is_invalid_part2};
use range_engine::aggregate::{
    sum_invalid_ids, sum_invalid_ids_part2, try_sum_invalid_ids, try_sum_invalid_ids_part2,
};

#[test]
fn doubled_sum_scenario() {
    // Candidates of length two are 11, 22, ..., 99; of length four 1010,
    // 1111, ...; only 11, 22, 99 and 1010 fall in the ranges.
    assert_eq!(sum_invalid_ids("11-22,95-115,998-1012"), 11 + 22 + 99 + 1010);
}

#[test]
fn doubled_sum_empty_input() {
    assert_eq!(sum_invalid_ids(""), 0);
    assert_eq!(sum_invalid_ids("nonsense"), 0);
}

#[test]
fn doubled_sum_agrees_with_brute_force() {
    let bound = 10000u64;
    let expected: u64 = (1..=bound).filter(|&x| is_exact_double(x)).sum();
    assert_eq!(sum_invalid_ids("1-10000"), expected);
}

#[test]
fn doubled_sum_single_values() {
    assert_eq!(sum_invalid_ids("11-11"), 11);
    assert_eq!(sum_invalid_ids("12-12"), 0);
    assert_eq!(sum_invalid_ids("0-10"), 0);
}

#[test]
fn doubled_sum_try_variant_matches() {
    assert_eq!(try_sum_invalid_ids("11-22,95-115,998-1012"), Some(1142));
}

#[test]
fn repeated_sum_agrees_with_brute_force() {
    let bound = 10000u64;
    let expected: u64 = (1..=bound).filter(|&x| is_invalid_part2(x)).sum();
    assert_eq!(sum_invalid_ids_part2("1-10000"), expected);
}

#[test]
fn repeated_sum_scenario() {
    // 11, 22, 99, 111, 999, 1010, 1111 are repeats inside these ranges.
    assert_eq!(
        sum_invalid_ids_part2("11-22,95-115,998-1012"),
        11 + 22 + 99 + 111 + 999 + 1010
    );
}

#[test]
fn repeated_sum_counts_overlap_once() {
    // Overlapping ranges still count each identifier a single time.
    assert_eq!(sum_invalid_ids_part2("11-13,11-13,10-14"), 11);
    assert_eq!(try_sum_invalid_ids_part2("11-13,11-13,10-14"), Some(11));
}

#[test]
fn repeated_sum_empty_input() {
    assert_eq!(sum_invalid_ids_part2(""), 0);
}

#[test]
fn repeated_sum_overflow_is_reported() {
    // Nine point ranges, each holding one nineteen-digit repeated digit;
    // their sum exceeds 64 bits.
    let mut text = String::new();
    for d in 1..=9u64 {
        let v = d * 1111111111111111111u64;
        if !text.is_empty() {
            text.push(',');
        }
        text.push_str(&format!("{v}-{v}"));
    }
    assert_eq!(try_sum_invalid_ids_part2(&text), None);
}
