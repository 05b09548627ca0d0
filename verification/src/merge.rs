//! Coalescing a raw, possibly overlapping list of ranges into canonical
//! merged form: sorted ascending, with overlapping and adjacent ranges
//! fused.  The canonical form covering a given set of identifiers is unique,
//! which makes merging idempotent.

use vstd::multiset::Multiset;
use vstd::prelude::*;

use crate::ranges::{
    Range, all_wf, covers, lemma_covers_push, lemma_merged_ordered, merged_wf, range_wf,
    seq_covers,
};

verus! {

/// The ranges of the list appear in ascending order of their `start` field.
pub open spec fn sorted_by_start(rs: Seq<Range>) -> bool {
    forall|i: int, j: int| 0 <= i <= j < rs.len() ==> (#[trigger] rs[i]).start <= (#[trigger] rs[j]).start
}

/// Two lists made of the same ranges (as a multiset) cover the same
/// identifiers.
proof fn lemma_coverage_from_multiset(a: Seq<Range>, b: Seq<Range>)
    requires
        a.to_multiset() == b.to_multiset(),
    ensures
        forall|x: u64| seq_covers(a, x) ==> seq_covers(b, x),
{
    broadcast use vstd::seq_lib::group_to_multiset_ensures;

    assert forall|x: u64| seq_covers(a, x) implies seq_covers(b, x) by {
        let i = choose|i: int| 0 <= i < a.len() && covers(a[i], x);
        assert(a.contains(a[i]));
        assert(a.to_multiset().count(a[i]) > 0);
        assert(b.to_multiset().count(a[i]) > 0);
        assert(b.contains(a[i]));
        let j = choose|j: int| 0 <= j < b.len() && b[j] == a[i];
        assert(covers(b[j], x));
    }
}

/// As above, well-formedness of every range carries over.
proof fn lemma_all_wf_from_multiset(a: Seq<Range>, b: Seq<Range>)
    requires
        a.to_multiset() == b.to_multiset(),
        all_wf(a),
    ensures
        all_wf(b),
{
    broadcast use vstd::seq_lib::group_to_multiset_ensures;

    assert forall|i: int| 0 <= i < b.len() implies range_wf(#[trigger] b[i]) by {
        assert(b.contains(b[i]));
        assert(b.to_multiset().count(b[i]) > 0);
        assert(a.to_multiset().count(b[i]) > 0);
        assert(a.contains(b[i]));
        let j = choose|j: int| 0 <= j < a.len() && a[j] == b[i];
        assert(range_wf(a[j]));
    }
}

/// Selection sort on the `start` fields.  The result is a permutation of the
/// input, so it covers the same identifiers.
fn sort_by_start_fn(rs: &Vec<Range>) -> (s: Vec<Range>)
    ensures
        s@.to_multiset() == rs@.to_multiset(),
        s@.len() == rs@.len(),
        sorted_by_start(s@),
        forall|x: u64| seq_covers(s@, x) <==> seq_covers(rs@, x),
        all_wf(rs@) ==> all_wf(s@),
{
    broadcast use vstd::seq_lib::group_to_multiset_ensures;
    broadcast use vstd::multiset::group_multiset_axioms;

    let mut src: Vec<Range> = Vec::new();
    let mut i: usize = 0;
    while i < rs.len()
        invariant
            0 <= i <= rs@.len(),
            src@ =~= rs@.take(i as int),
        decreases rs@.len() - i,
    {
        src.push(rs[i]);
        assert(rs@.take(i + 1) =~= rs@.take(i as int).push(rs@[i as int]));
        i = i + 1;
    }
    assert(src@ =~= rs@);

    let mut out: Vec<Range> = Vec::new();
    while src.len() > 0
        invariant
            out@.to_multiset().add(src@.to_multiset()) == rs@.to_multiset(),
            out@.len() + src@.len() == rs@.len(),
            sorted_by_start(out@),
            forall|i: int, j: int|
                0 <= i < out@.len() && 0 <= j < src@.len() ==> (#[trigger] out@[i]).start
                    <= (#[trigger] src@[j]).start,
        decreases src@.len(),
    {
        let mut m: usize = 0;
        let mut k: usize = 1;
        while k < src.len()
            invariant
                0 <= m < src@.len(),
                m < k <= src@.len(),
                forall|j: int| 0 <= j < k ==> src@[m as int].start <= (#[trigger] src@[j]).start,
            decreases src@.len() - k,
        {
            if src[k].start < src[m].start {
                m = k;
            }
            k = k + 1;
        }
        let ghost old_out = out@;
        let ghost old_src = src@;
        let r = src.remove(m);
        out.push(r);
        proof {
            assert(out@ == old_out.push(r));
            assert(src@ == old_src.remove(m as int));
            vstd::seq_lib::to_multiset_build(old_out, r);
            vstd::seq_lib::to_multiset_remove(old_src, m as int);
            vstd::seq_lib::to_multiset_contains(old_src, r);
            assert(old_src.contains(r));
            assert(old_src.to_multiset().count(r) > 0);
            assert(out@.to_multiset().add(src@.to_multiset()) =~= old_out.to_multiset().add(
                old_src.to_multiset(),
            ));
            assert forall|i: int, j: int|
                0 <= i < out@.len() && 0 <= j < src@.len() implies (#[trigger] out@[i]).start
                <= (#[trigger] src@[j]).start by {
                if j < m {
                    assert(src@[j] == old_src[j]);
                } else {
                    assert(src@[j] == old_src[j + 1]);
                }
            }
        }
    }
    proof {
        assert(src@.to_multiset() =~= Multiset::<Range>::empty());
        assert(out@.to_multiset() =~= rs@.to_multiset());
        lemma_coverage_from_multiset(out@, rs@);
        lemma_coverage_from_multiset(rs@, out@);
        if all_wf(rs@) {
            lemma_all_wf_from_multiset(rs@, out@);
        }
    }
    out
}

/// A canonical list stays canonical when a range starting beyond its last
/// covered identifier (with a gap) is appended.
proof fn lemma_merged_push(s: Seq<Range>, r: Range)
    requires
        merged_wf(s),
        range_wf(r),
        s.len() > 0 ==> s.last().end + 1 < r.start,
    ensures
        merged_wf(s.push(r)),
{
    let t = s.push(r);
    assert forall|i: int| 0 <= i < t.len() - 1 implies (#[trigger] t[i]).end + 1 < t[i + 1].start by {
        if i < s.len() - 1 {
            assert(t[i] == s[i]);
            assert(t[i + 1] == s[i + 1]);
        } else {
            assert(t[i] == s.last());
            assert(t[i + 1] == r);
        }
    }
}

/// Removing the last range of a canonical list leaves a canonical list with
/// a gap before the removed range.
proof fn lemma_merged_drop(s: Seq<Range>, r: Range)
    requires
        merged_wf(s.push(r)),
    ensures
        merged_wf(s),
        range_wf(r),
        s.len() > 0 ==> s.last().end + 1 < r.start,
{
    let t = s.push(r);
    assert(forall|i: int| 0 <= i < s.len() ==> #[trigger] s[i] == t[i]);
    assert(range_wf(t[s.len() as int]));
    assert forall|i: int| 0 <= i < s.len() - 1 implies (#[trigger] s[i]).end + 1 < s[i + 1].start by {
        assert(t[i].end + 1 < t[i + 1].start);
    }
    if s.len() > 0 {
        assert(t[s.len() - 1].end + 1 < t[s.len() as int].start);
    }
}

/// Canonical merged form is unique: two canonical lists covering exactly the
/// same identifiers are equal.  In particular, merging is idempotent.
#[verifier::rlimit(60)]
pub proof fn lemma_merged_unique(a: Seq<Range>, b: Seq<Range>)
    requires
        merged_wf(a),
        merged_wf(b),
        forall|x: u64| seq_covers(a, x) <==> seq_covers(b, x),
    ensures
        a == b,
    decreases a.len(),
{
    lemma_merged_ordered(a);
    lemma_merged_ordered(b);
    if a.len() == 0 {
        if b.len() > 0 {
            assert(covers(b[0], b[0].start));
            assert(seq_covers(b, b[0].start));
            assert(false);
        }
        assert(a =~= b);
    } else if b.len() == 0 {
        assert(covers(a[0], a[0].start));
        assert(seq_covers(a, a[0].start));
        assert(false);
    } else {
        // The first ranges start together: each start is covered, and in a
        // canonical list nothing before the first start is covered.
        assert(a[0].start == b[0].start) by {
            assert(covers(a[0], a[0].start));
            assert(seq_covers(a, a[0].start));
            let j = choose|j: int| 0 <= j < b.len() && covers(b[j], a[0].start);
            assert(b[0].start <= a[0].start);
            assert(covers(b[0], b[0].start));
            assert(seq_covers(b, b[0].start));
            let i = choose|i: int| 0 <= i < a.len() && covers(a[i], b[0].start);
            assert(a[0].start <= b[0].start);
        }
        // And they end together: otherwise the identifier just past the
        // shorter end is covered on one side only.
        assert(a[0].end == b[0].end) by {
            if a[0].end < b[0].end {
                let x = (a[0].end + 1) as u64;
                assert(covers(b[0], x));
                assert(seq_covers(b, x));
                let i = choose|i: int| 0 <= i < a.len() && covers(a[i], x);
                assert(false);
            }
            if b[0].end < a[0].end {
                let x = (b[0].end + 1) as u64;
                assert(covers(a[0], x));
                assert(seq_covers(a, x));
                let j = choose|j: int| 0 <= j < b.len() && covers(b[j], x);
                assert(false);
            }
        }
        let ta = a.drop_first();
        let tb = b.drop_first();
        assert(merged_wf(ta)) by {
            assert forall|i: int| 0 <= i < ta.len() - 1 implies (#[trigger] ta[i]).end + 1 < ta[i
                + 1].start by {
                assert(ta[i] == a[i + 1]);
                assert(ta[i + 1] == a[i + 2]);
            }
            assert(forall|i: int| 0 <= i < ta.len() ==> #[trigger] ta[i] == a[i + 1]);
        }
        assert(merged_wf(tb)) by {
            assert forall|i: int| 0 <= i < tb.len() - 1 implies (#[trigger] tb[i]).end + 1 < tb[i
                + 1].start by {
                assert(tb[i] == b[i + 1]);
                assert(tb[i + 1] == b[i + 2]);
            }
            assert(forall|i: int| 0 <= i < tb.len() ==> #[trigger] tb[i] == b[i + 1]);
        }
        assert forall|x: u64| seq_covers(ta, x) <==> seq_covers(tb, x) by {
            lemma_tail_coverage(a, x);
            lemma_tail_coverage(b, x);
        }
        lemma_merged_unique(ta, tb);
        assert(a =~= b) by {
            assert(forall|i: int| 1 <= i < a.len() ==> a[i] == ta[i - 1] && b[i] == tb[i - 1]);
        }
    }
}

/// In a canonical list the tail covers exactly the covered identifiers that
/// lie beyond the first range.
proof fn lemma_tail_coverage(a: Seq<Range>, x: u64)
    requires
        merged_wf(a),
        a.len() > 0,
    ensures
        seq_covers(a.drop_first(), x) <==> (seq_covers(a, x) && x > a[0].end),
{
    lemma_merged_ordered(a);
    let t = a.drop_first();
    assert(forall|i: int| 0 <= i < t.len() ==> #[trigger] t[i] == a[i + 1]);
    if seq_covers(t, x) {
        let i = choose|i: int| 0 <= i < t.len() && covers(t[i], x);
        assert(covers(a[i + 1], x));
        assert(a[0].end + 1 < a[i + 1].start);
    }
    if seq_covers(a, x) && x > a[0].end {
        let i = choose|i: int| 0 <= i < a.len() && covers(a[i], x);
        assert(i != 0);
        assert(covers(t[i - 1], x));
    }
}

/// Sorts and coalesces a raw range list into canonical merged form.
///
/// The result is canonical ([`merged_wf`]), covers exactly the identifiers
/// the input covers, is empty only for an empty input, and equals the input
/// whenever the input is already canonical -- merging is idempotent.
pub fn merge_ranges(ranges: &Vec<Range>) -> (m: Vec<Range>)
    requires
        all_wf(ranges@),
    ensures
        merged_wf(m@),
        forall|x: u64| seq_covers(m@, x) <==> seq_covers(ranges@, x),
        m@.len() == 0 <==> ranges@.len() == 0,
        merged_wf(ranges@) ==> m@ == ranges@,
{
    if ranges.len() == 0 {
        let m: Vec<Range> = Vec::new();
        proof {
            if merged_wf(ranges@) {
                lemma_merged_unique(m@, ranges@);
            }
        }
        return m;
    }
    let sorted = sort_by_start_fn(ranges);
    let mut merged: Vec<Range> = Vec::new();
    let mut cur: Range = sorted[0];
    let mut i: usize = 1;
    proof {
        assert(sorted@.take(1) =~= Seq::<Range>::empty().push(sorted@[0]));
        assert forall|x: u64| seq_covers(merged@.push(cur), x) <==> seq_covers(
            sorted@.take(1),
            x,
        ) by {
            lemma_covers_push(merged@, cur, x);
            lemma_covers_push(Seq::<Range>::empty(), sorted@[0], x);
        }
    }
    while i < sorted.len()
        invariant
            1 <= i <= sorted@.len(),
            sorted_by_start(sorted@),
            all_wf(sorted@),
            range_wf(cur),
            merged_wf(merged@.push(cur)),
            forall|x: u64| seq_covers(merged@.push(cur), x) <==> seq_covers(
                sorted@.take(i as int),
                x,
            ),
            forall|j: int| i <= j < sorted@.len() ==> cur.start <= (#[trigger] sorted@[j]).start,
        decreases sorted@.len() - i,
    {
        let ghost prev = merged@.push(cur);
        let nxt = sorted[i];
        assert(range_wf(nxt));
        assert(cur.start <= nxt.start);
        if nxt.start <= cur.end || nxt.start - 1 == cur.end {
            let new_end = if nxt.end > cur.end {
                nxt.end
            } else {
                cur.end
            };
            let ghost old_cur = cur;
            cur = Range { start: cur.start, end: new_end };
            proof {
                assert(forall|x: u64|
                    covers(cur, x) <==> (covers(old_cur, x) || covers(nxt, x)));
                lemma_merged_drop(merged@, old_cur);
                lemma_merged_push(merged@, cur);
                assert forall|x: u64| seq_covers(merged@.push(cur), x) <==> seq_covers(
                    sorted@.take(i + 1),
                    x,
                ) by {
                    lemma_covers_push(merged@, cur, x);
                    lemma_covers_push(merged@, old_cur, x);
                    lemma_covers_push(sorted@.take(i as int), sorted@[i as int], x);
                    assert(sorted@.take(i + 1) =~= sorted@.take(i as int).push(
                        sorted@[i as int],
                    ));
                }
            }
        } else {
            assert(cur.end + 1 < nxt.start);
            proof {
                lemma_merged_push(merged@.push(cur), nxt);
            }
            merged.push(cur);
            let ghost old_cur = cur;
            cur = nxt;
            proof {
                assert(merged@.push(cur) =~= prev.push(nxt));
                assert forall|x: u64| seq_covers(merged@.push(cur), x) <==> seq_covers(
                    sorted@.take(i + 1),
                    x,
                ) by {
                    lemma_covers_push(prev, nxt, x);
                    lemma_covers_push(sorted@.take(i as int), sorted@[i as int], x);
                    assert(sorted@.take(i + 1) =~= sorted@.take(i as int).push(
                        sorted@[i as int],
                    ));
                }
            }
        }
        i = i + 1;
    }
    merged.push(cur);
    proof {
        assert(sorted@.take(sorted@.len() as int) =~= sorted@);
        if merged_wf(ranges@) {
            lemma_merged_unique(merged@, ranges@);
        }
    }
    merged
}

} // verus!
