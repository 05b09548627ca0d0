//! The two aggregators: summing covered identifiers whose decimal form is a
//! doubled pattern (by candidate generation, never scanning the ranges), and
//! summing covered identifiers whose decimal form is any repeated pattern
//! (by bounded scanning).

use vstd::prelude::*;

use crate::digits::{
    digits_of, digits_val, lemma_digits_injective, lemma_digits_len, lemma_digits_valid,
    lemma_len_from_bounds, lemma_pow10_add, lemma_pow10_mono, lemma_pow10_positive,
    lemma_val_of_valid_digits, pow10, pow10_u64, u64_to_digits, valid_digits,
};
use crate::lookup::in_merged_ranges;
use crate::merge::merge_ranges;
use crate::parse::{parse_ranges, ranges_of_text};
use crate::patterns::{exact_double, is_invalid_part2, multi_repeat};
use crate::ranges::{covers, lemma_merged_ordered, merged_wf, range_wf, seq_covers, Range};

verus! {

/// The contribution of the identifier `x` to the doubled-pattern sum: `x`
/// itself when `x` is covered and its decimal form is a doubled pattern,
/// zero otherwise.
pub open spec fn double_at(rs: Seq<Range>, x: int) -> int {
    if 0 <= x <= u64::MAX && seq_covers(rs, x as u64) && exact_double(digits_of(x as nat)) {
        x
    } else {
        0
    }
}

/// The doubled-pattern sum over all identifiers below `b`.
pub open spec fn double_sum_to(rs: Seq<Range>, b: int) -> int
    decreases b,
{
    if b <= 0 {
        0
    } else {
        double_sum_to(rs, b - 1) + double_at(rs, b - 1)
    }
}

/// The sum of every covered identifier whose decimal form is a doubled
/// pattern.
pub open spec fn exact_double_sum(rs: Seq<Range>) -> int {
    double_sum_to(rs, u64::MAX as int + 1)
}

/// The contribution of `x` to the repeated-pattern sum.
pub open spec fn repeat_at(rs: Seq<Range>, x: int) -> int {
    if 0 <= x <= u64::MAX && seq_covers(rs, x as u64) && multi_repeat(digits_of(x as nat)) {
        x
    } else {
        0
    }
}

/// The repeated-pattern sum over all identifiers below `b`.
pub open spec fn repeat_sum_to(rs: Seq<Range>, b: int) -> int
    decreases b,
{
    if b <= 0 {
        0
    } else {
        repeat_sum_to(rs, b - 1) + repeat_at(rs, b - 1)
    }
}

/// The sum of every covered identifier whose decimal form is a repeated
/// pattern.
pub open spec fn multi_repeat_sum(rs: Seq<Range>) -> int {
    repeat_sum_to(rs, u64::MAX as int + 1)
}

/// A `half`-digit number written twice in a row.
pub open spec fn doubled(h: nat, half: nat) -> int {
    (h * pow10(half) + h) as int
}

// ---------------------------------------------------------------------------
// Facts about the partial sums.
// ---------------------------------------------------------------------------

proof fn lemma_double_sum_mono(rs: Seq<Range>, a: int, b: int)
    requires
        a <= b,
    ensures
        double_sum_to(rs, a) <= double_sum_to(rs, b),
    decreases b - a,
{
    if a < b {
        lemma_double_sum_mono(rs, a, b - 1);
    }
}

proof fn lemma_double_sum_gap(rs: Seq<Range>, a: int, b: int)
    requires
        a <= b,
        forall|x: int| a <= x < b ==> double_at(rs, x) == 0,
    ensures
        double_sum_to(rs, b) == double_sum_to(rs, a),
    decreases b - a,
{
    if a < b {
        lemma_double_sum_gap(rs, a, b - 1);
        assert(double_at(rs, b - 1) == 0);
    }
}

/// The doubled-pattern sum depends only on which identifiers are covered.
proof fn lemma_double_sum_coverage(rs1: Seq<Range>, rs2: Seq<Range>, b: int)
    requires
        forall|x: u64| seq_covers(rs1, x) <==> seq_covers(rs2, x),
    ensures
        double_sum_to(rs1, b) == double_sum_to(rs2, b),
    decreases b,
{
    if b > 0 {
        lemma_double_sum_coverage(rs1, rs2, b - 1);
    }
}

proof fn lemma_repeat_sum_mono(rs: Seq<Range>, a: int, b: int)
    requires
        a <= b,
    ensures
        repeat_sum_to(rs, a) <= repeat_sum_to(rs, b),
    decreases b - a,
{
    if a < b {
        lemma_repeat_sum_mono(rs, a, b - 1);
    }
}

proof fn lemma_repeat_sum_gap(rs: Seq<Range>, a: int, b: int)
    requires
        a <= b,
        forall|x: int| a <= x < b ==> repeat_at(rs, x) == 0,
    ensures
        repeat_sum_to(rs, b) == repeat_sum_to(rs, a),
    decreases b - a,
{
    if a < b {
        lemma_repeat_sum_gap(rs, a, b - 1);
        assert(repeat_at(rs, b - 1) == 0);
    }
}

/// The repeated-pattern sum depends only on which identifiers are covered.
proof fn lemma_repeat_sum_coverage(rs1: Seq<Range>, rs2: Seq<Range>, b: int)
    requires
        forall|x: u64| seq_covers(rs1, x) <==> seq_covers(rs2, x),
    ensures
        repeat_sum_to(rs1, b) == repeat_sum_to(rs2, b),
    decreases b,
{
    if b > 0 {
        lemma_repeat_sum_coverage(rs1, rs2, b - 1);
    }
}

// ---------------------------------------------------------------------------
// Facts about doubled candidates.
// ---------------------------------------------------------------------------

/// A `half`-digit number doubled really has the doubled-pattern decimal
/// form, and sits among the `2 * half`-digit numbers.
proof fn lemma_doubled_is_double(h: nat, half: nat)
    requires
        half >= 1,
        pow10((half - 1) as nat) <= h < pow10(half),
    ensures
        exact_double(digits_of(doubled(h, half) as nat)),
        pow10((2 * half - 1) as nat) <= doubled(h, half) < pow10(2 * half),
{
    let v = doubled(h, half) as nat;
    crate::digits::lemma_digits_append(h, h, half);
    assert(digits_of(v) == digits_of(h) + digits_of(h));
    lemma_len_from_bounds(h, half);
    let d = digits_of(h);
    assert(d.len() == half);
    let s = digits_of(v);
    assert(s.len() == 2 * half);
    assert(s.subrange(0, half as int) =~= d);
    assert(s.subrange(half as int, (2 * half) as int) =~= d);
    assert(exact_double(s));
    // value bracket
    lemma_pow10_add((half - 1) as nat, half);
    lemma_pow10_add(half, half);
    lemma_pow10_positive((half - 1) as nat);
    assert(pow10((2 * half - 1) as nat) == pow10((half - 1) as nat) * pow10(half));
    assert(h * pow10(half) >= pow10((half - 1) as nat) * pow10(half)) by (nonlinear_arith)
        requires
            h >= pow10((half - 1) as nat),
            pow10(half) >= 0,
    ;
    assert(h * pow10(half) + h < pow10(half) * pow10(half)) by (nonlinear_arith)
        requires
            h < pow10(half),
            pow10(half) >= 1,
    ;
    assert(pow10(2 * half) == pow10(half) * pow10(half));
}

/// Doubling is strictly monotone in the half.
proof fn lemma_doubled_mono(h1: nat, h2: nat, half: nat)
    requires
        h1 <= h2,
    ensures
        doubled(h1, half) <= doubled(h2, half),
        h1 < h2 ==> doubled(h1, half) < doubled(h2, half),
{
    lemma_pow10_positive(half);
    assert(h1 * pow10(half) <= h2 * pow10(half)) by (nonlinear_arith)
        requires
            h1 <= h2,
            pow10(half) >= 0,
    ;
}

/// Every number with a doubled decimal form is some `half`-digit number
/// doubled.
proof fn lemma_double_form(x: nat)
    requires
        exact_double(digits_of(x)),
    ensures
        ({
            let s = digits_of(x);
            let k = (s.len() / 2) as nat;
            let h = digits_val(s.subrange(0, k as int));
            &&& k >= 1
            &&& pow10((k - 1) as nat) <= h < pow10(k)
            &&& x == doubled(h, k)
        }),
{
    let s = digits_of(x);
    lemma_digits_valid(x);
    lemma_digits_len(x);
    assert(s.len() >= 1);
    assert(s.len() % 2 == 0);
    assert(s.len() >= 2);
    let k = (s.len() / 2) as nat;
    assert(x >= 10) by {
        if x < 10 {
            assert(s.len() == 1);
        }
    }
    let hs = s.subrange(0, k as int);
    assert(valid_digits(hs)) by {
        assert(forall|i: int| 0 <= i < hs.len() ==> hs[i] == #[trigger] s[i]);
        assert(s[0] != 0);
    }
    let h = digits_val(hs);
    lemma_val_of_valid_digits(hs);
    assert(digits_of(h) == hs);
    assert(digits_of(h).len() == k);
    lemma_digits_len(h);
    assert(h >= 1) by {
        if h == 0 {
            assert(digits_of(0) =~= seq![0u8]);
            assert(hs[0] == 0);
            assert(s[0] == 0);
        }
    }
    assert(pow10((k - 1) as nat) <= h < pow10(k));
    crate::digits::lemma_digits_append(h, h, k);
    assert(digits_of((h * pow10(k) + h) as nat) == digits_of(h) + digits_of(h));
    assert(s.subrange(k as int, s.len() as int) == hs);
    assert(s =~= hs + hs);
    lemma_digits_injective((h * pow10(k) + h) as nat, x);
}

/// The smallest doubled number is 11.
proof fn lemma_smallest_double(x: nat)
    requires
        exact_double(digits_of(x)),
    ensures
        x >= 11,
{
    lemma_double_form(x);
    let s = digits_of(x);
    let k = (s.len() / 2) as nat;
    let h = digits_val(s.subrange(0, k as int));
    lemma_pow10_positive((k - 1) as nat);
    lemma_pow10_mono(1, k);
    assert(h >= 1);
    assert(x == h * pow10(k) + h);
    assert(h * pow10(k) >= 1 * 10) by (nonlinear_arith)
        requires
            h >= 1,
            pow10(k) >= 10,
    ;
}

/// Beyond one doubled candidate, the next doubled number is at least the
/// next candidate: the successor half at the same width, or the first half
/// of the next width once the halves are exhausted.
proof fn lemma_next_candidate(x: nat, h: nat, half: nat)
    requires
        half >= 1,
        pow10((half - 1) as nat) <= h < pow10(half),
        exact_double(digits_of(x)),
        x > doubled(h, half),
    ensures
        h + 1 < pow10(half) ==> x >= doubled(h + 1, half),
        h + 1 == pow10(half) ==> x >= doubled(pow10(half), half + 1),
{
    lemma_double_form(x);
    let s = digits_of(x);
    let k = (s.len() / 2) as nat;
    let h2 = digits_val(s.subrange(0, k as int));
    assert(x == doubled(h2, k));
    lemma_doubled_is_double(h, half);
    lemma_doubled_is_double(h2, k);
    if k < half {
        // x would be too short to exceed doubled(h, half)
        lemma_pow10_mono(2 * k, (2 * half - 1) as nat);
        assert(x < pow10(2 * k));
        assert(false);
    } else if k == half {
        assert(h2 > h) by {
            if h2 <= h {
                lemma_doubled_mono(h2, h, half);
            }
        }
        if h + 1 < pow10(half) {
            lemma_doubled_mono((h + 1) as nat, h2, half);
        } else {
            assert(false);
        }
    } else {
        // k >= half + 1: x is at least the smallest candidate of width k.
        lemma_pow10_mono(half, (k - 1) as nat);
        lemma_doubled_mono(pow10((k - 1) as nat), h2, k);
        assert(x >= doubled(pow10((k - 1) as nat), k));
        if k == half + 1 {
            assert(x >= doubled(pow10(half), half + 1));
        } else {
            // even wider: compare through the value brackets
            lemma_pow10_mono((2 * (half + 1) - 1) as nat, (2 * k - 1) as nat);
            assert(x >= pow10((2 * k - 1) as nat));
            assert(doubled(pow10(half), half + 1) < pow10(2 * (half + 1))) by {
                lemma_pow10_positive(half);
                lemma_pow10_mono(half, (half + 1) as nat);
                lemma_doubled_is_double(pow10(half), (half + 1) as nat);
            }
            lemma_pow10_mono(2 * (half + 1), (2 * k - 1) as nat);
        }
        if h + 1 < pow10(half) {
            assert(doubled((h + 1) as nat, half) < pow10(2 * half)) by {
                lemma_doubled_is_double((h + 1) as nat, half);
            }
            lemma_pow10_mono(2 * half, (2 * (half + 1) - 1) as nat);
            assert(x >= pow10((2 * k - 1) as nat));
            lemma_pow10_mono((2 * (half + 1) - 1) as nat, (2 * k - 1) as nat);
            assert(doubled(pow10(half), half + 1) >= pow10((2 * (half + 1) - 1) as nat)) by {
                lemma_doubled_is_double(pow10(half), (half + 1) as nat);
            }
        }
    }
}

// ---------------------------------------------------------------------------
// The aggregator over doubled patterns.
// ---------------------------------------------------------------------------

/// A partial-sum bound, capped at the end of the 64-bit range.
spec fn cap64(v: int) -> int {
    if v > u64::MAX as int + 1 {
        u64::MAX as int + 1
    } else {
        v
    }
}

/// In a non-empty canonical list, the last range ends highest.
proof fn lemma_covered_below_last(rs: Seq<Range>)
    requires
        merged_wf(rs),
        rs.len() > 0,
    ensures
        forall|x: u64| seq_covers(rs, x) ==> x <= rs.last().end,
{
    lemma_merged_ordered(rs);
    assert forall|x: u64| seq_covers(rs, x) implies x <= rs.last().end by {
        let i = choose|i: int| 0 <= i < rs.len() && covers(rs[i], x);
        if i < rs.len() - 1 {
            assert(rs[i].end + 1 < rs[rs.len() - 1].start);
            assert(range_wf(rs.last()));
        }
    }
}

/// Sums every covered identifier whose decimal form is a doubled pattern,
/// by enumerating the doubled candidates width by width instead of scanning
/// the ranges.  Returns `None` exactly when the true sum exceeds 64 bits.
#[verifier::rlimit(60)]
fn sum_doubles_merged(merged: &Vec<Range>) -> (r: Option<u64>)
    requires
        merged_wf(merged@),
    ensures
        match r {
            Some(v) => v as int == exact_double_sum(merged@),
            None => exact_double_sum(merged@) > u64::MAX,
        },
{
    proof {
        crate::digits::lemma_pow10_values();
    }
    let ghost rs = merged@;
    let n = merged.len();
    if n == 0 {
        proof {
            assert(forall|x: int| 0 <= x < u64::MAX as int + 1 ==> double_at(rs, x) == 0);
            lemma_double_sum_gap(rs, 0, u64::MAX as int + 1);
        }
        return Some(0);
    }
    let max_upper = merged[n - 1].end;
    proof {
        lemma_covered_below_last(rs);
    }
    let digs = u64_to_digits(max_upper);
    let max_digits = digs.len();
    proof {
        lemma_digits_len(max_upper as nat);
        if max_digits > 20 {
            assert(max_upper >= 1) by {
                if max_upper == 0 {
                    assert(digits_of(0) =~= seq![0u8]);
                }
            }
            lemma_pow10_mono(20, (max_digits - 1) as nat);
            assert(false);
        }
    }
    let max_half = max_digits / 2;
    let mut sum: u64 = 0;
    let mut half: usize = 1;
    proof {
        assert(pow10(0) == 1 && pow10(1) == 10);
        assert(doubled(1, 1) == 11);
        assert forall|x: int| 0 <= x < 11 implies double_at(rs, x) == 0 by {
            if 0 <= x <= u64::MAX && seq_covers(rs, x as u64) && exact_double(
                digits_of(x as nat),
            ) {
                lemma_smallest_double(x as nat);
            }
        }
        lemma_double_sum_gap(rs, 0, 11);
        assert(cap64(doubled(pow10(0), 1)) == 11);
    }
    while half <= max_half
        invariant
            1 <= half <= max_half + 1,
            max_half == max_digits / 2,
            rs == merged@,
            merged_wf(rs),
            n == rs.len(),
            n > 0,
            max_upper == rs.last().end,
            forall|x: u64| seq_covers(rs, x) ==> x <= max_upper,
            max_digits == digits_of(max_upper as nat).len(),
            1 <= max_digits <= 20,
            (max_upper as nat) < pow10(max_digits as nat),
            pow10(10) == 10000000000,
            sum as int == double_sum_to(rs, cap64(doubled(pow10((half - 1) as nat), half as nat))),
        decreases max_half + 1 - half,
    {
        proof {
            lemma_pow10_mono((half - 1) as nat, 10);
            lemma_pow10_mono(half as nat, 10);
        }
        let lo = pow10_u64(half - 1);
        let p = pow10_u64(half);
        let p1 = p + 1;
        let mut h = lo;
        proof {
            lemma_pow10_mono((half - 1) as nat, half as nat);
            lemma_pow10_positive((half - 1) as nat);
            assert(pow10(half as nat) == 10 * pow10((half - 1) as nat));
        }
        while h < p
            invariant
                1 <= half <= max_half,
                max_half == max_digits / 2,
                rs == merged@,
                merged_wf(rs),
                n == rs.len(),
                n > 0,
                max_upper == rs.last().end,
                forall|x: u64| seq_covers(rs, x) ==> x <= max_upper,
                max_digits == digits_of(max_upper as nat).len(),
                1 <= max_digits <= 20,
                (max_upper as nat) < pow10(max_digits as nat),
                pow10(10) == 10000000000,
                lo == pow10((half - 1) as nat),
                p == pow10(half as nat),
                p1 == p + 1,
                lo <= h <= p,
                sum as int == double_sum_to(rs, cap64(doubled(h as nat, half as nat))),
            decreases p - h,
        {
            let q = max_upper / p1;
            if h > q {
                // The candidate already exceeds every covered identifier;
                // all later candidates are larger still.
                proof {
                    lemma_fundamental_div_mod_u64(max_upper, p1);
                    assert(doubled(h as nat, half as nat) == h * p1) by (nonlinear_arith)
                        requires
                            p1 == pow10(half as nat) + 1,
                            doubled(h as nat, half as nat) == h * pow10(half as nat) + h,
                    ;
                    assert(h * p1 > max_upper) by (nonlinear_arith)
                        requires
                            h >= q + 1,
                            p1 >= 1,
                            max_upper < (q + 1) * p1,
                    ;
                    let f = cap64(doubled(h as nat, half as nat));
                    assert forall|x: int| f <= x < u64::MAX as int + 1 implies double_at(
                        rs,
                        x,
                    ) == 0 by {
                        if 0 <= x <= u64::MAX && seq_covers(rs, x as u64) {
                            assert(x as u64 <= max_upper);
                            assert(x < doubled(h as nat, half as nat));
                            assert(x < f);
                        }
                    }
                    lemma_double_sum_gap(rs, f, u64::MAX as int + 1);
                }
                return Some(sum);
            }
            proof {
                lemma_fundamental_div_mod_u64(max_upper, p1);
                assert(h * p1 <= max_upper) by (nonlinear_arith)
                    requires
                        h <= q,
                        p1 >= 1,
                        q * p1 <= max_upper,
                ;
            }
            let c = h * p1;
            proof {
                assert(c == doubled(h as nat, half as nat)) by (nonlinear_arith)
                    requires
                        p1 == pow10(half as nat) + 1,
                        c == h * p1,
                        doubled(h as nat, half as nat) == h * pow10(half as nat) + h,
                ;
                lemma_doubled_is_double(h as nat, half as nat);
            }
            let hit = in_merged_ranges(c, merged);
            proof {
                assert(double_at(rs, c as int) == if hit {
                    c as int
                } else {
                    0
                });
                assert(double_sum_to(rs, c as int + 1) == double_sum_to(rs, c as int)
                    + double_at(rs, c as int));
            }
            if hit {
                if sum > u64::MAX - c {
                    proof {
                        lemma_double_sum_mono(rs, c as int + 1, u64::MAX as int + 1);
                    }
                    return None;
                }
                sum = sum + c;
            }
            proof {
                // No doubled number sits strictly between this candidate and
                // the next one.
                let nxt = if h + 1 < p {
                    doubled((h + 1) as nat, half as nat)
                } else {
                    doubled(p as nat, half as nat)
                };
                assert(c < nxt) by {
                    lemma_doubled_mono(h as nat, (h + 1) as nat, half as nat);
                    if h + 1 == p {
                    }
                };
                assert forall|x: int| c as int + 1 <= x < cap64(nxt) implies double_at(
                    rs,
                    x,
                ) == 0 by {
                    if 0 <= x <= u64::MAX && exact_double(digits_of(x as nat)) {
                        lemma_next_candidate(x as nat, h as nat, half as nat);
                        if h + 1 < p {
                            assert(x >= doubled((h + 1) as nat, half as nat));
                        } else {
                            assert(x >= doubled(p as nat, (half + 1) as nat));
                            assert(doubled(p as nat, (half + 1) as nat) > doubled(
                                p as nat,
                                half as nat,
                            )) by {
                                lemma_pow10_mono(half as nat, (half + 1) as nat);
                                assert(p * pow10((half + 1) as nat) >= p * pow10(
                                    half as nat,
                                )) by (nonlinear_arith)
                                    requires
                                        pow10((half + 1) as nat) >= pow10(half as nat),
                                        p >= 0,
                                ;
                            }
                        }
                    }
                }
                lemma_double_sum_gap(rs, c as int + 1, cap64(nxt));
            }
            h = h + 1;
        }
        proof {
            // Bridge from the exhausted width to the first candidate of the
            // next width: nothing doubled lies in between.
            let f1 = cap64(doubled(p as nat, half as nat));
            let f2 = cap64(doubled(pow10(half as nat), (half + 1) as nat));
            assert(doubled(p as nat, half as nat) <= doubled(p as nat, (half + 1) as nat)) by {
                lemma_pow10_mono(half as nat, (half + 1) as nat);
                assert(p * pow10((half + 1) as nat) >= p * pow10(half as nat)) by (nonlinear_arith)
                    requires
                        pow10((half + 1) as nat) >= pow10(half as nat),
                        p >= 0,
                ;
            }
            assert forall|x: int| f1 <= x < f2 implies double_at(rs, x) == 0 by {
                if 0 <= x <= u64::MAX && exact_double(digits_of(x as nat)) {
                    assert((p - 1) as nat >= pow10((half - 1) as nat));
                    lemma_doubled_mono((p - 1) as nat, p as nat, half as nat);
                    assert(x as int > doubled((p - 1) as nat, half as nat));
                    lemma_next_candidate(x as nat, (p - 1) as nat, half as nat);
                    assert(x >= doubled(p as nat, (half + 1) as nat));
                }
            }
            lemma_double_sum_gap(rs, f1, f2);
        }
        half = half + 1;
    }
    proof {
        // All candidates wide enough to remain exceed every covered
        // identifier.
        let mh = max_half as nat;
        let f = cap64(doubled(pow10(mh), (mh + 1) as nat));
        assert(doubled(pow10(mh), mh + 1) >= pow10(2 * mh + 1)) by {
            lemma_pow10_add(mh, mh + 1);
            lemma_pow10_positive(mh);
            assert(pow10(mh) * pow10(mh + 1) == pow10(2 * mh + 1));
        }
        assert(max_digits as nat <= 2 * mh + 1);
        lemma_pow10_mono(max_digits as nat, 2 * mh + 1);
        assert forall|x: int| f <= x < u64::MAX as int + 1 implies double_at(rs, x) == 0 by {
            if 0 <= x <= u64::MAX && seq_covers(rs, x as u64) {
                assert(x as u64 <= max_upper);
                assert((max_upper as nat) < pow10(2 * mh + 1));
                assert(x < f);
            }
        }
        lemma_double_sum_gap(rs, f, u64::MAX as int + 1);
    }
    Some(sum)
}

// ---------------------------------------------------------------------------
// The aggregator over repeated patterns.
// ---------------------------------------------------------------------------

/// The lower end of the identifiers still to scan once the first `i` ranges
/// are done.
spec fn scan_frontier(rs: Seq<Range>, i: int) -> int {
    if i == 0 {
        0
    } else {
        rs[i - 1].end + 1
    }
}

/// Nothing between two consecutive ranges of a canonical list is covered.
proof fn lemma_gap_uncovered(rs: Seq<Range>, i: int, x: u64)
    requires
        merged_wf(rs),
        0 <= i <= rs.len(),
        i > 0 ==> x > rs[i - 1].end,
        i < rs.len() ==> x < rs[i].start,
    ensures
        !seq_covers(rs, x),
{
    lemma_merged_ordered(rs);
    if seq_covers(rs, x) {
        let j = choose|j: int| 0 <= j < rs.len() && covers(rs[j], x);
        if j < i {
            if j < i - 1 {
                assert(rs[j].end + 1 < rs[i - 1].start);
                assert(range_wf(rs[i - 1]));
            }
            assert(x <= rs[i - 1].end);
        } else {
            if j > i {
                assert(rs[i].end + 1 < rs[j].start);
                assert(range_wf(rs[i]));
            }
            assert(x >= rs[i].start);
        }
        assert(false);
    }
}

/// Folds one identifier into the running repeated-pattern sum, watching for
/// 64-bit overflow.
fn add_if_repeat(sum: u64, num: u64, merged: &Vec<Range>) -> (r: Option<u64>)
    requires
        merged_wf(merged@),
        seq_covers(merged@, num),
        sum as int == repeat_sum_to(merged@, num as int),
    ensures
        match r {
            Some(v) => v as int == repeat_sum_to(merged@, num as int + 1),
            None => multi_repeat_sum(merged@) > u64::MAX,
        },
{
    let hit = is_invalid_part2(num);
    proof {
        assert(repeat_at(merged@, num as int) == if hit {
            num as int
        } else {
            0
        });
        assert(repeat_sum_to(merged@, num as int + 1) == repeat_sum_to(merged@, num as int)
            + repeat_at(merged@, num as int));
    }
    if hit {
        if sum > u64::MAX - num {
            proof {
                lemma_repeat_sum_mono(merged@, num as int + 1, u64::MAX as int + 1);
            }
            return None;
        }
        Some(sum + num)
    } else {
        Some(sum)
    }
}

/// Sums every covered identifier whose decimal form is a repeated pattern,
/// scanning each merged range identifier by identifier.  Returns `None`
/// exactly when the true sum exceeds 64 bits.
#[verifier::rlimit(60)]
fn sum_repeats_merged(merged: &Vec<Range>) -> (r: Option<u64>)
    requires
        merged_wf(merged@),
    ensures
        match r {
            Some(v) => v as int == multi_repeat_sum(merged@),
            None => multi_repeat_sum(merged@) > u64::MAX,
        },
{
    let ghost rs = merged@;
    let mut sum: u64 = 0;
    let mut i: usize = 0;
    while i < merged.len()
        invariant
            0 <= i <= rs.len(),
            rs == merged@,
            merged_wf(rs),
            sum as int == repeat_sum_to(rs, scan_frontier(rs, i as int)),
        decreases rs.len() - i,
    {
        let r = merged[i];
        proof {
            assert(range_wf(rs[i as int]));
            assert forall|x: int|
                scan_frontier(rs, i as int) <= x < r.start as int implies repeat_at(rs, x)
                == 0 by {
                if 0 <= x <= u64::MAX {
                    lemma_gap_uncovered(rs, i as int, x as u64);
                }
            }
            lemma_repeat_sum_gap(rs, scan_frontier(rs, i as int), r.start as int);
        }
        let mut num = r.start;
        while num < r.end
            invariant
                rs == merged@,
                merged_wf(rs),
                0 <= i < rs.len(),
                r == rs[i as int],
                r.start <= num <= r.end,
                sum as int == repeat_sum_to(rs, num as int),
            decreases r.end - num,
        {
            proof {
                assert(covers(rs[i as int], num));
            }
            match add_if_repeat(sum, num, merged) {
                Some(v) => {
                    sum = v;
                },
                None => {
                    return None;
                },
            }
            num = num + 1;
        }
        proof {
            assert(covers(rs[i as int], num));
        }
        match add_if_repeat(sum, num, merged) {
            Some(v) => {
                sum = v;
            },
            None => {
                return None;
            },
        }
        proof {
            assert(scan_frontier(rs, i + 1) == r.end + 1);
        }
        i = i + 1;
    }
    proof {
        assert forall|x: int|
            scan_frontier(rs, rs.len() as int) <= x < u64::MAX as int + 1 implies repeat_at(
            rs,
            x,
        ) == 0 by {
            if 0 <= x <= u64::MAX {
                lemma_gap_uncovered(rs, rs.len() as int, x as u64);
            }
        }
        lemma_repeat_sum_gap(rs, scan_frontier(rs, rs.len() as int), u64::MAX as int + 1);
    }
    Some(sum)
}

// ---------------------------------------------------------------------------
// The public aggregators over raw text.
// ---------------------------------------------------------------------------

/// Sum of the covered identifiers whose decimal form is a doubled pattern,
/// over the ranges the text denotes.  `None` exactly when the sum does not
/// fit in 64 bits.
pub fn try_sum_invalid_ids(ranges_str: &str) -> (r: Option<u64>)
    ensures
        match r {
            Some(v) => v as int == exact_double_sum(ranges_of_text(ranges_str@)),
            None => exact_double_sum(ranges_of_text(ranges_str@)) > u64::MAX,
        },
{
    let ranges = parse_ranges(ranges_str);
    let merged = merge_ranges(&ranges);
    proof {
        lemma_double_sum_coverage(merged@, ranges@, u64::MAX as int + 1);
    }
    sum_doubles_merged(&merged)
}

/// As [`try_sum_invalid_ids`], for callers who know the sum fits.
pub fn sum_invalid_ids(ranges_str: &str) -> (r: u64)
    requires
        exact_double_sum(ranges_of_text(ranges_str@)) <= u64::MAX,
    ensures
        r as int == exact_double_sum(ranges_of_text(ranges_str@)),
{
    match try_sum_invalid_ids(ranges_str) {
        Some(v) => v,
        None => {
            proof {
                assert(false);
            }
            0
        },
    }
}

/// Sum of the covered identifiers whose decimal form is any repeated
/// pattern, over the ranges the text denotes.  `None` exactly when the sum
/// does not fit in 64 bits.
pub fn try_sum_invalid_ids_part2(ranges_str: &str) -> (r: Option<u64>)
    ensures
        match r {
            Some(v) => v as int == multi_repeat_sum(ranges_of_text(ranges_str@)),
            None => multi_repeat_sum(ranges_of_text(ranges_str@)) > u64::MAX,
        },
{
    let ranges = parse_ranges(ranges_str);
    let merged = merge_ranges(&ranges);
    proof {
        lemma_repeat_sum_coverage(merged@, ranges@, u64::MAX as int + 1);
    }
    sum_repeats_merged(&merged)
}

/// As [`try_sum_invalid_ids_part2`], for callers who know the sum fits.
pub fn sum_invalid_ids_part2(ranges_str: &str) -> (r: u64)
    requires
        multi_repeat_sum(ranges_of_text(ranges_str@)) <= u64::MAX,
    ensures
        r as int == multi_repeat_sum(ranges_of_text(ranges_str@)),
{
    match try_sum_invalid_ids_part2(ranges_str) {
        Some(v) => v,
        None => {
            proof {
                assert(false);
            }
            0
        },
    }
}

/// Division and remainder over 64-bit values, as the candidate bound check
/// needs them.
proof fn lemma_fundamental_div_mod_u64(x: u64, d: u64)
    requires
        d > 0,
    ensures
        x == d * (x / d) + x % d,
        0 <= x % d < d,
        (x / d) * d <= x < (x / d + 1) * d,
{
    vstd::arithmetic::div_mod::lemma_fundamental_div_mod(x as int, d as int);
    vstd::arithmetic::div_mod::lemma_mod_bound(x as int, d as int);
    assert((x / d) * d == d * (x / d)) by (nonlinear_arith);
    assert((x / d + 1) * d == d * (x / d) + d) by (nonlinear_arith);
}

} // verus!
