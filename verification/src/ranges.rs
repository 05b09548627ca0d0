//! The `Range` value type and the specification vocabulary shared by the
//! whole crate: which identifiers a range (or a list of ranges) covers, what
//! it means for a list to be in canonical merged form, and how many
//! identifiers a merged list covers.

use vstd::prelude::*;

verus! {

/// An inclusive range of 64-bit identifiers.  A well-formed range satisfies
/// `start <= end` (see [`range_wf`]); every range produced by this crate's
/// parser is well-formed.
#[derive(Clone, Copy, Debug, PartialEq, Eq, Structural)]
pub struct Range {
    pub start: u64,
    pub end: u64,
}

/// A range is well-formed when it is non-empty as an interval.
pub open spec fn range_wf(r: Range) -> bool {
    r.start <= r.end
}

/// Every range of the list is well-formed.
pub open spec fn all_wf(rs: Seq<Range>) -> bool {
    forall|i: int| 0 <= i < rs.len() ==> range_wf(#[trigger] rs[i])
}

/// The single range `r` covers the identifier `x`.
pub open spec fn covers(r: Range, x: u64) -> bool {
    r.start <= x <= r.end
}

/// Some range of the list covers the identifier `x`.
pub open spec fn seq_covers(rs: Seq<Range>, x: u64) -> bool {
    exists|i: int| 0 <= i < rs.len() && covers(#[trigger] rs[i], x)
}

/// Canonical merged form: well-formed ranges, ascending, with a gap of at
/// least one identifier between consecutive ranges (no overlap and no
/// adjacency).
pub open spec fn merged_wf(rs: Seq<Range>) -> bool {
    &&& all_wf(rs)
    &&& forall|i: int| 0 <= i < rs.len() - 1 ==> (#[trigger] rs[i]).end + 1 < rs[i + 1].start
}

/// The number of identifiers covered by a list of ranges, counted range by
/// range.  This equals the size of the covered set only when the ranges are
/// pairwise disjoint, as they are in canonical merged form.
pub open spec fn coverage_count(rs: Seq<Range>) -> int
    decreases rs.len(),
{
    if rs.len() == 0 {
        0
    } else {
        coverage_count(rs.drop_last()) + (rs.last().end - rs.last().start + 1)
    }
}

/// Appending a range to a list extends its coverage by exactly that range.
pub proof fn lemma_covers_push(rs: Seq<Range>, r: Range, x: u64)
    ensures
        seq_covers(rs.push(r), x) <==> (seq_covers(rs, x) || covers(r, x)),
{
    if seq_covers(rs, x) {
        let i = choose|i: int| 0 <= i < rs.len() && covers(rs[i], x);
        assert(rs.push(r)[i] == rs[i]);
    }
    if covers(r, x) {
        assert(covers(rs.push(r)[rs.len() as int], x));
    }
    if seq_covers(rs.push(r), x) {
        let i = choose|i: int| 0 <= i < rs.push(r).len() && covers(rs.push(r)[i], x);
        if i < rs.len() {
            assert(covers(rs[i], x));
        }
    }
}

/// In canonical merged form the ranges appear in strictly ascending order:
/// any earlier range ends strictly below where any later range starts.
pub proof fn lemma_merged_ordered(rs: Seq<Range>)
    requires
        merged_wf(rs),
    ensures
        forall|i: int, j: int|
            0 <= i < j < rs.len() ==> (#[trigger] rs[i]).end + 1 < (#[trigger] rs[j]).start,
    decreases rs.len(),
{
    if rs.len() > 1 {
        lemma_merged_ordered(rs.drop_last());
        assert forall|i: int, j: int| 0 <= i < j < rs.len() implies (#[trigger] rs[i]).end + 1
            < (#[trigger] rs[j]).start by {
            if j < rs.len() - 1 {
                assert(rs.drop_last()[i] == rs[i]);
                assert(rs.drop_last()[j] == rs[j]);
            } else {
                if i < j - 1 {
                    assert(rs.drop_last()[i] == rs[i]);
                    assert(rs.drop_last()[j - 1] == rs[j - 1]);
                    assert(rs[j - 1].end + 1 < rs[j].start);
                    assert(range_wf(rs[j - 1]));
                }
            }
        }
    }
}

} // verus!
