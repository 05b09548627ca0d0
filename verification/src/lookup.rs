//! Membership queries: a logarithmic-time oracle over a canonical merged
//! list, and a linear scan over a raw list.

use vstd::prelude::*;

use crate::ranges::{covers, merged_wf, seq_covers, Range};
use crate::ranges::lemma_merged_ordered;

verus! {

/// Binary search over a canonical merged list: does some range cover `x`?
pub fn in_merged_ranges(x: u64, merged_ranges: &Vec<Range>) -> (b: bool)
    requires
        merged_wf(merged_ranges@),
    ensures
        b == seq_covers(merged_ranges@, x),
{
    proof {
        lemma_merged_ordered(merged_ranges@);
    }
    let mut lo: usize = 0;
    let mut hi: usize = merged_ranges.len();
    while lo < hi
        invariant
            0 <= lo <= hi <= merged_ranges@.len(),
            merged_wf(merged_ranges@),
            forall|i: int, j: int|
                0 <= i < j < merged_ranges@.len() ==> (#[trigger] merged_ranges@[i]).end + 1 < (
                #[trigger] merged_ranges@[j]).start,
            seq_covers(merged_ranges@, x) ==> exists|i: int|
                lo <= i < hi && covers(#[trigger] merged_ranges@[i], x),
        decreases hi - lo,
    {
        let mid = lo + (hi - lo) / 2;
        let r = merged_ranges[mid];
        if x < r.start {
            hi = mid;
        } else if x > r.end {
            lo = mid + 1;
        } else {
            assert(covers(merged_ranges@[mid as int], x));
            return true;
        }
    }
    proof {
        if seq_covers(merged_ranges@, x) {
            let i = choose|i: int| lo <= i < hi && covers(merged_ranges@[i], x);
            assert(false);
        }
    }
    false
}

/// Linear scan over a raw (unsorted, possibly overlapping) list: is the
/// identifier inside any of the ranges?
pub fn is_fresh(id: u64, ranges: &Vec<Range>) -> (b: bool)
    ensures
        b == seq_covers(ranges@, id),
{
    let mut i: usize = 0;
    while i < ranges.len()
        invariant
            0 <= i <= ranges@.len(),
            forall|j: int| 0 <= j < i ==> !covers(#[trigger] ranges@[j], id),
        decreases ranges@.len() - i,
    {
        let r = ranges[i];
        if r.start <= id && id <= r.end {
            assert(covers(ranges@[i as int], id));
            return true;
        }
        i = i + 1;
    }
    proof {
        if seq_covers(ranges@, id) {
            let j = choose|j: int| 0 <= j < ranges@.len() && covers(ranges@[j], id);
            assert(false);
        }
    }
    false
}

/// Membership through the oracle agrees with direct membership in the raw
/// list: if a canonical list covers the same identifiers as a raw list --
/// which [`crate::merge::merge_ranges`] guarantees of its result -- then the
/// oracle's verdict over the canonical list is exactly "some raw range
/// contains `x`".
pub proof fn lemma_membership_via_merge(raw: Seq<Range>, merged: Seq<Range>, x: u64)
    requires
        forall|y: u64| seq_covers(merged, y) <==> seq_covers(raw, y),
    ensures
        seq_covers(merged, x) <==> exists|i: int|
            0 <= i < raw.len() && (#[trigger] raw[i]).start <= x <= raw[i].end,
{
    assert(seq_covers(raw, x) <==> exists|i: int|
        0 <= i < raw.len() && (#[trigger] raw[i]).start <= x <= raw[i].end);
}

} // verus!
