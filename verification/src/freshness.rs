//! The freshness queries over an inventory text: a list of inclusive ranges,
//! a blank line, then a list of individual identifiers.  One query counts
//! how many of the listed identifiers are fresh (covered by some range); the
//! other counts how many identifiers the ranges themselves cover once
//! overlaps are merged away.

use vstd::prelude::*;

use crate::lookup::is_fresh;
use crate::merge::merge_ranges;
use crate::parse::{
    all_digits, chars_val, first_at, is_space, opt_seq, parse_number, str_to_char_vec,
};
use crate::ranges::{all_wf, covers, lemma_merged_ordered, merged_wf, range_wf, seq_covers, Range};

verus! {

/// One trailing carriage return is not part of a line.
pub open spec fn strip_cr(l: Seq<char>) -> Seq<char> {
    if l.len() > 0 && l.last() == '\r' {
        l.drop_last()
    } else {
        l
    }
}

/// The lines of a text: split on newlines, carriage returns stripped, with
/// no final empty line when the text ends in a newline.
pub open spec fn lines_rec(s: Seq<char>, cur: Seq<char>) -> Seq<Seq<char>>
    decreases s.len(),
{
    if s.len() == 0 {
        if cur.len() == 0 {
            Seq::empty()
        } else {
            seq![strip_cr(cur)]
        }
    } else if s[0] == '\n' {
        seq![strip_cr(cur)] + lines_rec(s.drop_first(), Seq::empty())
    } else {
        lines_rec(s.drop_first(), cur.push(s[0]))
    }
}

pub open spec fn lines_of(s: Seq<char>) -> Seq<Seq<char>> {
    lines_rec(s, Seq::empty())
}

/// A line of nothing but whitespace.
pub open spec fn is_blank(l: Seq<char>) -> bool {
    forall|i: int| 0 <= i < l.len() ==> is_space(#[trigger] l[i])
}

/// The index of the first blank line, or the number of lines if none is
/// blank.
pub open spec fn first_blank(ls: Seq<Seq<char>>) -> int
    decreases ls.len(),
{
    if ls.len() == 0 {
        0
    } else if is_blank(ls[0]) {
        0
    } else {
        1 + first_blank(ls.drop_first())
    }
}

/// The text has a blank separator line.
pub open spec fn has_blank_line(s: Seq<char>) -> bool {
    first_blank(lines_of(s)) < lines_of(s).len()
}

/// The range denoted by one line, if any: exactly one `-`, two digit halves
/// that fit in 64 bits, not running backwards.
pub open spec fn line_range(l: Seq<char>) -> Option<Range> {
    let i = first_at(l, '-');
    if i == l.len() {
        None
    } else {
        let a = l.subrange(0, i);
        let b = l.subrange(i + 1, l.len() as int);
        if first_at(b, '-') == b.len() && all_digits(a) && all_digits(b) && chars_val(a)
            <= u64::MAX && chars_val(b) <= u64::MAX && chars_val(a) <= chars_val(b) {
            Some(Range { start: chars_val(a) as u64, end: chars_val(b) as u64 })
        } else {
            None
        }
    }
}

/// The ranges denoted by the first `n` lines.
pub open spec fn ranges_of_lines(ls: Seq<Seq<char>>, n: int) -> Seq<Range>
    decreases n,
{
    if n <= 0 {
        Seq::empty()
    } else {
        ranges_of_lines(ls, n - 1) + opt_seq(line_range(ls[n - 1]))
    }
}

/// The range section of the text: every line before the first blank one.
pub open spec fn text_ranges(s: Seq<char>) -> Seq<Range> {
    ranges_of_lines(lines_of(s), first_blank(lines_of(s)))
}

/// Leading whitespace removed.
pub open spec fn trim_start(l: Seq<char>) -> Seq<char>
    decreases l.len(),
{
    if l.len() > 0 && is_space(l[0]) {
        trim_start(l.drop_first())
    } else {
        l
    }
}

/// Trailing whitespace removed.
pub open spec fn trim_end(l: Seq<char>) -> Seq<char>
    decreases l.len(),
{
    if l.len() > 0 && is_space(l.last()) {
        trim_end(l.drop_last())
    } else {
        l
    }
}

/// Whitespace removed at both ends.
pub open spec fn trim(l: Seq<char>) -> Seq<char> {
    trim_start(trim_end(l))
}

/// The identifier denoted by one line, if any: after trimming, a non-empty
/// run of digits that fits in 64 bits.
pub open spec fn line_id(l: Seq<char>) -> Option<u64> {
    let t = trim(l);
    if all_digits(t) && chars_val(t) <= u64::MAX {
        Some(chars_val(t) as u64)
    } else {
        None
    }
}

/// How many of the identifiers on the lines from `from` onward are covered
/// by some range of `rs`.
pub open spec fn fresh_count(rs: Seq<Range>, ls: Seq<Seq<char>>, from: int) -> int
    decreases ls.len() - from,
{
    if from < 0 || from >= ls.len() {
        0
    } else {
        (match line_id(ls[from]) {
            Some(v) => if seq_covers(rs, v) {
                1int
            } else {
                0int
            },
            None => 0int,
        }) + fresh_count(rs, ls, from + 1)
    }
}

/// The fresh-identifier count of the whole text: identifiers after the
/// first blank line, tested against the ranges before it.
pub open spec fn text_fresh_count(s: Seq<char>) -> int {
    fresh_count(text_ranges(s), lines_of(s), first_blank(lines_of(s)) + 1)
}

/// One where `x` is covered, zero where it is not.
pub open spec fn count_at(rs: Seq<Range>, x: int) -> int {
    if 0 <= x <= u64::MAX && seq_covers(rs, x as u64) {
        1
    } else {
        0
    }
}

/// How many identifiers below `b` are covered.
pub open spec fn covered_count_to(rs: Seq<Range>, b: int) -> int
    decreases b,
{
    if b <= 0 {
        0
    } else {
        covered_count_to(rs, b - 1) + count_at(rs, b - 1)
    }
}

/// How many identifiers the ranges cover in all, each counted once however
/// many ranges contain it.
pub open spec fn covered_count(rs: Seq<Range>) -> int {
    covered_count_to(rs, u64::MAX as int + 1)
}

proof fn lemma_count_mono(rs: Seq<Range>, a: int, b: int)
    requires
        a <= b,
    ensures
        covered_count_to(rs, a) <= covered_count_to(rs, b),
    decreases b - a,
{
    if a < b {
        lemma_count_mono(rs, a, b - 1);
    }
}

proof fn lemma_count_gap(rs: Seq<Range>, a: int, b: int)
    requires
        a <= b,
        forall|x: int| a <= x < b ==> count_at(rs, x) == 0,
    ensures
        covered_count_to(rs, b) == covered_count_to(rs, a),
    decreases b - a,
{
    if a < b {
        lemma_count_gap(rs, a, b - 1);
        assert(count_at(rs, b - 1) == 0);
    }
}

proof fn lemma_count_run(rs: Seq<Range>, a: int, b: int)
    requires
        0 <= a <= b <= u64::MAX as int + 1,
        forall|x: int| a <= x < b ==> count_at(rs, x) == 1,
    ensures
        covered_count_to(rs, b) == covered_count_to(rs, a) + (b - a),
    decreases b - a,
{
    if a < b {
        lemma_count_run(rs, a, b - 1);
        assert(count_at(rs, b - 1) == 1);
    }
}

/// The covered count depends only on which identifiers are covered.
proof fn lemma_count_coverage(rs1: Seq<Range>, rs2: Seq<Range>, b: int)
    requires
        forall|x: u64| seq_covers(rs1, x) <==> seq_covers(rs2, x),
    ensures
        covered_count_to(rs1, b) == covered_count_to(rs2, b),
    decreases b,
{
    if b > 0 {
        lemma_count_coverage(rs1, rs2, b - 1);
    }
}

proof fn lemma_count_eq_on(rs1: Seq<Range>, rs2: Seq<Range>, a: int, b: int)
    requires
        a <= b,
        forall|x: int| a <= x < b ==> count_at(rs1, x) == count_at(rs2, x),
    ensures
        covered_count_to(rs1, b) - covered_count_to(rs1, a) == covered_count_to(rs2, b)
            - covered_count_to(rs2, a),
    decreases b - a,
{
    if a < b {
        lemma_count_eq_on(rs1, rs2, a, b - 1);
        assert(count_at(rs1, b - 1) == count_at(rs2, b - 1));
    }
}

/// For a canonical merged list, adding up the sizes of the ranges counts
/// exactly the covered identifiers: the per-range formula `end - start + 1`
/// never counts an identifier twice once the list is merged.
pub proof fn lemma_coverage_count_is_covered_count(rs: Seq<Range>)
    requires
        merged_wf(rs),
    ensures
        crate::ranges::coverage_count(rs) == covered_count(rs),
    decreases rs.len(),
{
    let m = u64::MAX as int + 1;
    if rs.len() == 0 {
        assert(forall|x: int| 0 <= x < m ==> count_at(rs, x) == 0);
        lemma_count_gap(rs, 0, m);
    } else {
        let s2 = rs.drop_last();
        let r = rs.last();
        assert(rs =~= s2.push(r));
        assert(merged_wf(s2)) by {
            assert(forall|i: int| 0 <= i < s2.len() ==> #[trigger] s2[i] == rs[i]);
        }
        lemma_coverage_count_is_covered_count(s2);
        lemma_merged_ordered(rs);
        assert(range_wf(rs[rs.len() - 1]));
        let a = r.start as int;
        let b = r.end as int + 1;
        // Below the last range and above it, dropping that range changes
        // nothing about coverage.
        assert forall|x: int| 0 <= x < a implies count_at(rs, x) == count_at(s2, x) by {
            crate::ranges::lemma_covers_push(s2, r, x as u64);
        }
        assert forall|x: int| b <= x < m implies count_at(rs, x) == count_at(s2, x) by {
            crate::ranges::lemma_covers_push(s2, r, x as u64);
        }
        // Inside it, the whole interval is covered by the full list and
        // untouched by the earlier ranges.
        assert forall|x: int| a <= x < b implies count_at(rs, x) == 1 by {
            assert(covers(rs[rs.len() - 1], x as u64));
        }
        assert forall|x: int| a <= x < b implies count_at(s2, x) == 0 by {
            if seq_covers(s2, x as u64) {
                let j = choose|j: int| 0 <= j < s2.len() && covers(s2[j], x as u64);
                assert(s2[j] == rs[j]);
                assert(rs[j].end + 1 < rs[rs.len() - 1].start);
                assert(false);
            }
        }
        lemma_count_eq_on(rs, s2, 0, a);
        lemma_count_run(rs, a, b);
        lemma_count_gap(s2, a, b);
        lemma_count_eq_on(rs, s2, b, m);
        assert(crate::ranges::coverage_count(rs) == crate::ranges::coverage_count(s2) + (r.end
            - r.start + 1));
    }
}

/// `first_blank` really is the first blank line.
proof fn lemma_first_blank(ls: Seq<Seq<char>>)
    ensures
        0 <= first_blank(ls) <= ls.len(),
        first_blank(ls) < ls.len() ==> is_blank(ls[first_blank(ls)]),
        forall|j: int| 0 <= j < first_blank(ls) ==> !is_blank(ls[j]),
    decreases ls.len(),
{
    if ls.len() > 0 && !is_blank(ls[0]) {
        lemma_first_blank(ls.drop_first());
        assert(forall|j: int|
            0 <= j < ls.drop_first().len() ==> #[trigger] ls.drop_first()[j] == ls[j + 1]);
        assert forall|j: int| 0 <= j < first_blank(ls) implies !is_blank(ls[j]) by {
            if j > 0 {
                assert(ls.drop_first()[j - 1] == ls[j]);
            }
        }
    }
}

/// Trimming the end removes exactly the trailing whitespace run.
proof fn lemma_trim_end(s: Seq<char>, e: int)
    requires
        0 <= e <= s.len(),
        forall|j: int| e <= j < s.len() ==> is_space(#[trigger] s[j]),
        e > 0 ==> !is_space(s[e - 1]),
    ensures
        trim_end(s) == s.take(e),
    decreases s.len(),
{
    if e == s.len() {
        assert(s.take(e) =~= s);
    } else {
        assert(is_space(s.last()));
        lemma_trim_end(s.drop_last(), e);
        assert(s.drop_last().take(e) =~= s.take(e));
    }
}

/// Trimming the start removes exactly the leading whitespace run.
proof fn lemma_trim_start(s: Seq<char>, b: int)
    requires
        0 <= b <= s.len(),
        forall|j: int| 0 <= j < b ==> is_space(#[trigger] s[j]),
        b < s.len() ==> !is_space(s[b]),
    ensures
        trim_start(s) == s.skip(b),
    decreases s.len(),
{
    if b == 0 {
        assert(s.skip(0) =~= s);
        if s.len() > 0 {
        }
    } else {
        assert(is_space(s[0]));
        let d = s.drop_first();
        assert(forall|j: int| 0 <= j < d.len() ==> #[trigger] d[j] == s[j + 1]);
        lemma_trim_start(d, b - 1);
        assert(d.skip(b - 1) =~= s.skip(b));
    }
}

/// A line never denotes a backwards range.
proof fn lemma_line_range_wf(l: Seq<char>)
    ensures
        match line_range(l) {
            Some(r) => range_wf(r),
            None => true,
        },
{
    let i = first_at(l, '-');
    if i != l.len() {
        let a = l.subrange(0, i);
        let b = l.subrange(i + 1, l.len() as int);
        if first_at(b, '-') == b.len() && all_digits(a) && all_digits(b) && chars_val(a)
            <= u64::MAX && chars_val(b) <= u64::MAX && chars_val(a) <= chars_val(b) {
            crate::parse::lemma_chars_val_bounds(a);
            crate::parse::lemma_chars_val_bounds(b);
        }
    }
}

/// Is every character of the line whitespace?
fn is_blank_vec(l: &Vec<char>) -> (b: bool)
    ensures
        b == is_blank(l@),
{
    let mut i: usize = 0;
    while i < l.len()
        invariant
            0 <= i <= l@.len(),
            forall|j: int| 0 <= j < i ==> is_space(#[trigger] l@[j]),
        decreases l@.len() - i,
    {
        let c = l[i];
        if !(c == ' ' || c == '\n' || c == '\t' || c == '\r') {
            assert(!is_space(l@[i as int]));
            return false;
        }
        i = i + 1;
    }
    true
}

/// Reads one line as a range, exactly as [`line_range`] describes it.
fn parse_line_range(l: &Vec<char>) -> (r: Option<Range>)
    ensures
        r == line_range(l@),
        r is Some ==> range_wf(r->0),
{
    proof {
        crate::parse::lemma_first_at_facts(l@, '-');
        lemma_line_range_wf(l@);
    }
    let n = l.len();
    let mut sep: usize = n;
    let mut i: usize = 0;
    while i < n
        invariant
            0 <= i <= n,
            n == l@.len(),
            sep == n || (sep < i && l@[sep as int] == '-'),
            sep == n ==> forall|j: int| 0 <= j < i ==> l@[j] != '-',
            sep < n ==> forall|j: int| 0 <= j < sep ==> l@[j] != '-',
        decreases n - i,
    {
        if sep == n && l[i] == '-' {
            sep = i;
        }
        i = i + 1;
    }
    proof {
        let fa = first_at(l@, '-');
        if sep == n {
            if fa < n {
                assert(l@[fa] == '-');
                assert(false);
            }
        } else {
            if fa < sep {
                assert(l@[fa] == '-');
                assert(false);
            }
            if fa > sep {
                assert(l@[sep as int] != '-');
                assert(false);
            }
        }
        assert(sep == first_at(l@, '-'));
    }
    if sep == n {
        return None;
    }
    let ghost bs = l@.subrange(sep + 1, n as int);
    proof {
        crate::parse::lemma_first_at_facts(bs, '-');
    }
    // the rest of the line must hold no second separator
    let mut k: usize = sep + 1;
    while k < n
        invariant
            sep + 1 <= k <= n,
            n == l@.len(),
            sep < n,
            sep == first_at(l@, '-'),
            bs == l@.subrange(sep + 1, n as int),
            forall|j: int| 0 <= j < k - sep - 1 ==> bs[j] != '-',
        decreases n - k,
    {
        if l[k] == '-' {
            proof {
                crate::parse::lemma_first_at_facts(bs, '-');
                assert(bs[k - sep - 1] == l@[k as int]);
                assert(first_at(bs, '-') < bs.len()) by {
                    if first_at(bs, '-') == bs.len() {
                        assert(bs[k - sep - 1] != '-');
                    }
                }
            }
            return None;
        }
        k = k + 1;
    }
    proof {
        assert(first_at(bs, '-') == bs.len()) by {
            if first_at(bs, '-') < bs.len() {
                assert(bs[first_at(bs, '-')] == '-');
            }
        }
    }
    let a = parse_number(l, 0, sep);
    let b = parse_number(l, sep + 1, n);
    proof {
        assert(l@.subrange(0, sep as int) == l@.subrange(0, first_at(l@, '-')));
    }
    match (a, b) {
        (Some(av), Some(bv)) => {
            if av <= bv {
                Some(Range { start: av, end: bv })
            } else {
                None
            }
        },
        _ => None,
    }
}

/// Reads one line as an identifier, exactly as [`line_id`] describes it.
fn line_id_vec(l: &Vec<char>) -> (r: Option<u64>)
    ensures
        r == line_id(l@),
{
    let n = l.len();
    let mut e: usize = n;
    let mut stop = false;
    while !stop && e > 0
        invariant
            0 <= e <= n,
            n == l@.len(),
            forall|j: int| e <= j < n ==> is_space(#[trigger] l@[j]),
            stop ==> e > 0 && !is_space(l@[e - 1]),
        decreases e + if stop {
            0int
        } else {
            1int
        },
    {
        let c = l[e - 1];
        if c == ' ' || c == '\n' || c == '\t' || c == '\r' {
            e = e - 1;
        } else {
            stop = true;
        }
    }
    proof {
        lemma_trim_end(l@, e as int);
    }
    let mut b: usize = 0;
    let mut stop2 = false;
    while !stop2 && b < e
        invariant
            0 <= b <= e <= n,
            n == l@.len(),
            forall|j: int| 0 <= j < b ==> is_space(#[trigger] l@[j]),
            stop2 ==> b < e && !is_space(l@[b as int]),
        decreases (e - b) + if stop2 {
            0int
        } else {
            1int
        },
    {
        let c = l[b];
        if c == ' ' || c == '\n' || c == '\t' || c == '\r' {
            b = b + 1;
        } else {
            stop2 = true;
        }
    }
    proof {
        let t = l@.take(e as int);
        assert(forall|j: int| 0 <= j < t.len() ==> #[trigger] t[j] == l@[j]);
        lemma_trim_start(t, b as int);
        assert(t.skip(b as int) =~= l@.subrange(b as int, e as int));
        assert(trim(l@) == l@.subrange(b as int, e as int));
    }
    parse_number(l, b, e)
}

/// Nothing between two consecutive ranges of a canonical list is covered.
proof fn lemma_between_uncovered(rs: Seq<Range>, i: int, x: u64)
    requires
        merged_wf(rs),
        0 <= i <= rs.len(),
        i > 0 ==> x > rs[i - 1].end,
        i < rs.len() ==> x < rs[i].start,
    ensures
        !seq_covers(rs, x),
{
    lemma_merged_ordered(rs);
    if seq_covers(rs, x) {
        let j = choose|j: int| 0 <= j < rs.len() && covers(rs[j], x);
        if j < i {
            if j < i - 1 {
                assert(rs[j].end + 1 < rs[i - 1].start);
                assert(range_wf(rs[i - 1]));
            }
            assert(x <= rs[i - 1].end);
        } else {
            if j > i {
                assert(rs[i].end + 1 < rs[j].start);
                assert(range_wf(rs[i]));
            }
            assert(x >= rs[i].start);
        }
        assert(false);
    }
}

/// A vector of characters views the same sequence shallowly and deeply.
proof fn lemma_chars_deep_view(l: Vec<char>)
    ensures
        l.deep_view() == l@,
{
    assert(l.deep_view() =~= l@);
}

/// Appending a line extends the deep view by that line's characters.
proof fn lemma_deep_view_push(before: Vec<Vec<char>>, after: Vec<Vec<char>>, l: Vec<char>)
    requires
        after@ == before@.push(l),
    ensures
        after.deep_view() == before.deep_view().push(l@),
{
    lemma_chars_deep_view(l);
    assert forall|j: int| 0 <= j < after.deep_view().len() implies after.deep_view()[j]
        == before.deep_view().push(l@)[j] by {
        if j < before@.len() {
            assert(after@[j] == before@[j]);
        } else {
            assert(after@[j] == l);
        }
    }
    assert(after.deep_view() =~= before.deep_view().push(l@));
}

/// Reads one line of text as a range, exactly as [`line_range`] describes
/// it.
pub fn parse_range(line: &str) -> (r: Option<Range>)
    ensures
        r == line_range(line@),
        r is Some ==> range_wf(r->0),
{
    let chars = str_to_char_vec(line);
    parse_line_range(&chars)
}

/// Splits a text into its lines, as [`lines_of`] describes them.
fn split_lines(chars: &Vec<char>) -> (ls: Vec<Vec<char>>)
    ensures
        ls.deep_view() == lines_of(chars@),
{
    let mut ls: Vec<Vec<char>> = Vec::new();
    let mut cur: Vec<char> = Vec::new();
    let mut i: usize = 0;
    proof {
        assert(chars@.skip(0) =~= chars@);
        assert(ls.deep_view() =~= Seq::<Seq<char>>::empty());
        assert(cur@ =~= Seq::<char>::empty());
        assert(ls.deep_view() + lines_rec(chars@, cur@) =~= lines_rec(chars@, cur@));
    }
    while i < chars.len()
        invariant
            0 <= i <= chars@.len(),
            lines_of(chars@) == ls.deep_view() + lines_rec(chars@.skip(i as int), cur@),
        decreases chars@.len() - i,
    {
        let c = chars[i];
        let ghost rem = chars@.skip(i as int);
        proof {
            assert(rem[0] == chars@[i as int]);
            assert(rem.drop_first() =~= chars@.skip(i + 1));
        }
        if c == '\n' {
            let ghost old_ls = ls.deep_view();
            let ghost old_cur = cur@;
            let mut line = cur;
            cur = Vec::new();
            if line.len() > 0 && line[line.len() - 1] == '\r' {
                line.pop();
                proof {
                    assert(line@ =~= strip_cr(old_cur));
                }
            }
            proof {
                assert(line@ == strip_cr(old_cur));
            }
            let ghost before = ls;
            ls.push(line);
            proof {
                lemma_deep_view_push(before, ls, line);
                assert(ls.deep_view() =~= old_ls.push(strip_cr(old_cur)));
                assert(cur@ =~= Seq::<char>::empty());
                assert(lines_rec(rem, old_cur) == seq![strip_cr(old_cur)] + lines_rec(
                    rem.drop_first(),
                    Seq::empty(),
                ));
                assert(old_ls + lines_rec(rem, old_cur) =~= ls.deep_view() + lines_rec(
                    chars@.skip(i + 1),
                    cur@,
                ));
            }
        } else {
            let ghost old_cur = cur@;
            cur.push(c);
            proof {
                assert(lines_rec(rem, old_cur) == lines_rec(rem.drop_first(), old_cur.push(
                    chars@[i as int],
                )));
            }
        }
        i = i + 1;
    }
    proof {
        assert(chars@.skip(chars@.len() as int) =~= Seq::<char>::empty());
    }
    if cur.len() > 0 {
        let ghost old_ls = ls.deep_view();
        let ghost old_cur = cur@;
        let mut line = cur;
        if line.len() > 0 && line[line.len() - 1] == '\r' {
            line.pop();
            proof {
                assert(line@ =~= strip_cr(old_cur));
            }
        }
        proof {
            assert(line@ == strip_cr(old_cur));
        }
        let ghost before = ls;
        ls.push(line);
        proof {
            lemma_deep_view_push(before, ls, line);
            assert(ls.deep_view() =~= old_ls.push(strip_cr(old_cur)));
            assert(old_ls + lines_rec(Seq::<char>::empty(), old_cur) =~= ls.deep_view());
        }
    } else {
        proof {
            assert(ls.deep_view() + lines_rec(Seq::<char>::empty(), cur@) =~= ls.deep_view());
        }
    }
    ls
}

/// Answers either freshness query over an inventory text: with `part2`
/// false, how many identifiers listed after the blank separator line fall
/// in some range listed before it; with `part2` true, how many identifiers
/// the ranges cover in all, overlaps counted once.
///
/// `None` exactly when the text has no blank separator line, or the covered
/// count does not fit in 64 bits.
#[verifier::loop_isolation(false)]
#[verifier::rlimit(60)]
pub fn try_solve(input: &str, part2: bool) -> (r: Option<u64>)
    ensures
        match r {
            Some(v) => has_blank_line(input@) && v as int == if part2 {
                covered_count(text_ranges(input@))
            } else {
                text_fresh_count(input@)
            },
            None => !has_blank_line(input@) || (part2 && covered_count(text_ranges(input@))
                > u64::MAX),
        },
{
    let chars = str_to_char_vec(input);
    let ls = split_lines(&chars);
    let ghost lsv = ls.deep_view();
    let nlines = ls.len();
    proof {
        assert(lsv.len() == nlines);
        lemma_first_blank(lsv);
    }
    let mut blank: usize = nlines;
    let mut k: usize = 0;
    while k < nlines
        invariant
            0 <= k <= nlines,
            lsv == ls.deep_view(),
            nlines == lsv.len(),
            blank == nlines || (blank < k && is_blank(lsv[blank as int])),
            blank == nlines ==> forall|j: int| 0 <= j < k ==> !is_blank(#[trigger] lsv[j]),
            blank < nlines ==> forall|j: int| 0 <= j < blank ==> !is_blank(#[trigger] lsv[j]),
        decreases nlines - k,
    {
        if blank == nlines {
            let b = is_blank_vec(&ls[k]);
            proof {
                assert(lsv[k as int] == ls@[k as int].deep_view());
                lemma_chars_deep_view(ls@[k as int]);
            }
            if b {
                blank = k;
            }
        }
        k = k + 1;
    }
    proof {
        let fb = first_blank(lsv);
        if blank == nlines {
            if fb < nlines {
                assert(is_blank(lsv[fb]));
                assert(false);
            }
        } else {
            if fb < blank {
                assert(is_blank(lsv[fb]));
                assert(false);
            }
            if fb > blank {
                assert(!is_blank(lsv[blank as int]));
                assert(false);
            }
        }
        assert(blank as int == first_blank(lsv));
    }
    if blank == nlines {
        return None;
    }
    let mut ranges: Vec<Range> = Vec::new();
    let mut k2: usize = 0;
    proof {
        assert(ranges@ =~= ranges_of_lines(lsv, 0));
    }
    while k2 < blank
        invariant
            0 <= k2 <= blank < nlines,
            lsv == ls.deep_view(),
            nlines == lsv.len(),
            ranges@ == ranges_of_lines(lsv, k2 as int),
            all_wf(ranges@),
        decreases blank - k2,
    {
        let ghost old_ranges = ranges@;
        proof {
            assert(lsv[k2 as int] == ls@[k2 as int].deep_view());
            lemma_chars_deep_view(ls@[k2 as int]);
        }
        match parse_line_range(&ls[k2]) {
            Some(r) => {
                ranges.push(r);
                proof {
                    assert(ranges@ =~= old_ranges + opt_seq(line_range(lsv[k2 as int])));
                    assert forall|j: int| 0 <= j < ranges@.len() implies range_wf(
                        #[trigger] ranges@[j],
                    ) by {
                        if j < old_ranges.len() {
                            assert(ranges@[j] == old_ranges[j]);
                        }
                    }
                }
            },
            None => {
                proof {
                    assert(ranges@ =~= old_ranges + opt_seq(line_range(lsv[k2 as int])));
                }
            },
        }
        k2 = k2 + 1;
    }
    let ghost rsv = ranges@;
    if part2 {
        let merged = merge_ranges(&ranges);
        let ghost ms = merged@;
        proof {
            lemma_count_coverage(ms, rsv, u64::MAX as int + 1);
        }
        let mut total: u64 = 0;
        let mut i: usize = 0;
        while i < merged.len()
            invariant
                0 <= i <= ms.len(),
                ms == merged@,
                merged_wf(ms),
                total as int == covered_count_to(ms, if i == 0 {
                    0int
                } else {
                    ms[i - 1].end + 1
                }),
            decreases ms.len() - i,
        {
            let r = merged[i];
            proof {
                assert(range_wf(ms[i as int]));
                let f = if i == 0 {
                    0int
                } else {
                    ms[i - 1].end + 1
                };
                assert forall|x: int| f <= x < r.start as int implies count_at(ms, x) == 0 by {
                    if 0 <= x <= u64::MAX {
                        lemma_between_uncovered(ms, i as int, x as u64);
                    }
                }
                lemma_count_gap(ms, f, r.start as int);
                assert forall|x: int|
                    r.start as int <= x < r.end as int + 1 implies count_at(ms, x) == 1 by {
                    assert(covers(ms[i as int], x as u64));
                }
                lemma_count_run(ms, r.start as int, r.end as int + 1);
            }
            let size = r.end - r.start;
            if size == u64::MAX {
                proof {
                    lemma_count_mono(ms, r.end as int + 1, u64::MAX as int + 1);
                }
                return None;
            }
            let size1 = size + 1;
            if total > u64::MAX - size1 {
                proof {
                    lemma_count_mono(ms, r.end as int + 1, u64::MAX as int + 1);
                }
                return None;
            }
            total = total + size1;
            i = i + 1;
        }
        proof {
            let f = if ms.len() == 0 {
                0int
            } else {
                ms[ms.len() - 1].end + 1
            };
            assert forall|x: int| f <= x < u64::MAX as int + 1 implies count_at(ms, x) == 0 by {
                if 0 <= x <= u64::MAX {
                    lemma_between_uncovered(ms, ms.len() as int, x as u64);
                }
            }
            lemma_count_gap(ms, f, u64::MAX as int + 1);
        }
        Some(total)
    } else {
        let mut count: usize = 0;
        let mut k3: usize = blank + 1;
        while k3 < nlines
            invariant
                blank + 1 <= k3 <= nlines,
                lsv == ls.deep_view(),
                nlines == lsv.len(),
                rsv == ranges@,
                count <= k3 - (blank + 1),
                count as int + fresh_count(rsv, lsv, k3 as int) == fresh_count(
                    rsv,
                    lsv,
                    blank + 1,
                ),
            decreases nlines - k3,
        {
            proof {
                assert(lsv[k3 as int] == ls@[k3 as int].deep_view());
                lemma_chars_deep_view(ls@[k3 as int]);
            }
            match line_id_vec(&ls[k3]) {
                Some(v) => {
                    if is_fresh(v, &ranges) {
                        count = count + 1;
                    }
                },
                None => {},
            }
            k3 = k3 + 1;
        }
        proof {
            assert(fresh_count(rsv, lsv, nlines as int) == 0);
        }
        Some(count as u64)
    }
}

/// As [`try_solve`], for callers who know the text has a blank separator
/// line and, for the covered-count query, that the count fits in 64 bits.
pub fn solve(input: &str, part2: bool) -> (r: u64)
    requires
        has_blank_line(input@),
        part2 ==> covered_count(text_ranges(input@)) <= u64::MAX,
    ensures
        r as int == if part2 {
            covered_count(text_ranges(input@))
        } else {
            text_fresh_count(input@)
        },
{
    match try_solve(input, part2) {
        Some(v) => v,
        None => {
            proof {
                assert(false);
            }
            0
        },
    }
}

} // verus!
