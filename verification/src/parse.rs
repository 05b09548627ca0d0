//! Parsing comma-separated `start-end` tokens out of free-form text.
//!
//! Whitespace (spaces, tabs, carriage returns, newlines) is stripped, the
//! rest is split on commas, and each token is split on its first `-` with
//! both halves read as decimal numbers.  A token that is empty, has no
//! separator, has a non-digit half, overflows 64 bits, or runs backwards is
//! silently skipped: malformed input can only shrink the result, never fail.

use vstd::prelude::*;

use crate::ranges::{all_wf, range_wf, Range};

verus! {

/// The whitespace characters stripped before tokenizing.
pub open spec fn is_space(c: char) -> bool {
    c == ' ' || c == '\n' || c == '\t' || c == '\r'
}

/// A decimal digit.
pub open spec fn is_digit(c: char) -> bool {
    48 <= c as u32 <= 57
}

/// The numeric value of a digit character.
pub open spec fn digit_value(c: char) -> int {
    c as u32 - 48
}

/// The text with every whitespace character removed.
pub open spec fn strip_spaces(s: Seq<char>) -> Seq<char>
    decreases s.len(),
{
    if s.len() == 0 {
        Seq::empty()
    } else if is_space(s.last()) {
        strip_spaces(s.drop_last())
    } else {
        strip_spaces(s.drop_last()).push(s.last())
    }
}

/// A non-empty run of decimal digits.
pub open spec fn all_digits(s: Seq<char>) -> bool {
    s.len() >= 1 && forall|i: int| 0 <= i < s.len() ==> is_digit(#[trigger] s[i])
}

/// The number written by a run of digits, most significant first.
pub open spec fn chars_val(s: Seq<char>) -> int
    decreases s.len(),
{
    if s.len() == 0 {
        0
    } else {
        chars_val(s.drop_last()) * 10 + digit_value(s.last())
    }
}

/// The index of the first occurrence of `c` in `s`, or `s.len()` if absent.
pub open spec fn first_at(s: Seq<char>, c: char) -> int
    decreases s.len(),
{
    if s.len() == 0 {
        0
    } else if s[0] == c {
        0
    } else {
        1 + first_at(s.drop_first(), c)
    }
}

/// The range denoted by one comma-free token, if any: the token is split on
/// its first `-`; both halves must be digit runs whose values fit in 64 bits
/// and must not run backwards.
pub open spec fn token_range(t: Seq<char>) -> Option<Range> {
    let i = first_at(t, '-');
    if i == t.len() {
        None
    } else {
        let a = t.subrange(0, i);
        let b = t.subrange(i + 1, t.len() as int);
        if all_digits(a) && all_digits(b) && chars_val(a) <= u64::MAX && chars_val(b) <= u64::MAX
            && chars_val(a) <= chars_val(b) {
            Some(Range { start: chars_val(a) as u64, end: chars_val(b) as u64 })
        } else {
            None
        }
    }
}

/// An optional range as a list of zero or one ranges.
pub open spec fn opt_seq(o: Option<Range>) -> Seq<Range> {
    match o {
        Some(r) => seq![r],
        None => Seq::empty(),
    }
}

/// Splitting already-stripped text on commas, left to right, with `tok` the
/// token accumulated so far.
pub open spec fn parse_rec(s: Seq<char>, tok: Seq<char>) -> Seq<Range>
    decreases s.len(),
{
    if s.len() == 0 {
        opt_seq(token_range(tok))
    } else if s[0] == ',' {
        opt_seq(token_range(tok)) + parse_rec(s.drop_first(), Seq::empty())
    } else {
        parse_rec(s.drop_first(), tok.push(s[0]))
    }
}

/// All ranges denoted by a free-form text: strip whitespace, split on
/// commas, keep the well-formed tokens.
pub open spec fn ranges_of_text(s: Seq<char>) -> Seq<Range> {
    parse_rec(strip_spaces(s), Seq::empty())
}

/// A token never denotes a backwards range.
proof fn lemma_token_range_wf(t: Seq<char>)
    ensures
        match token_range(t) {
            Some(r) => range_wf(r),
            None => true,
        },
        all_wf(opt_seq(token_range(t))),
{
    let i = first_at(t, '-');
    if i != t.len() {
        let a = t.subrange(0, i);
        let b = t.subrange(i + 1, t.len() as int);
        if all_digits(a) && all_digits(b) && chars_val(a) <= u64::MAX && chars_val(b)
            <= u64::MAX && chars_val(a) <= chars_val(b) {
            lemma_chars_val_grows(a, a.len() as int);
            lemma_chars_val_grows(b, b.len() as int);
            assert(a.take(a.len() as int) =~= a);
            assert(b.take(b.len() as int) =~= b);
        }
    }
}

/// `first_at` really is the first occurrence.
pub(crate) proof fn lemma_first_at_facts(s: Seq<char>, c: char)
    ensures
        0 <= first_at(s, c) <= s.len(),
        first_at(s, c) < s.len() ==> s[first_at(s, c)] == c,
        forall|j: int| 0 <= j < first_at(s, c) ==> s[j] != c,
    decreases s.len(),
{
    if s.len() > 0 && s[0] != c {
        lemma_first_at_facts(s.drop_first(), c);
        assert(forall|j: int| 0 <= j < s.drop_first().len() ==> #[trigger] s.drop_first()[j] == s[
            j + 1
        ]);
        assert forall|j: int| 0 <= j < first_at(s, c) implies s[j] != c by {
            if j > 0 {
                assert(s.drop_first()[j - 1] == s[j]);
            }
        }
    }
}

/// A digit run's value is never negative.
pub(crate) proof fn lemma_chars_val_bounds(s: Seq<char>)
    requires
        forall|i: int| 0 <= i < s.len() ==> is_digit(#[trigger] s[i]),
    ensures
        chars_val(s) >= 0,
{
    lemma_chars_val_grows(s, s.len() as int);
    assert(s.take(s.len() as int) =~= s);
}

/// The value of a digit run only grows as digits are appended.
proof fn lemma_chars_val_grows(s: Seq<char>, k: int)
    requires
        0 <= k <= s.len(),
        forall|i: int| 0 <= i < s.len() ==> is_digit(#[trigger] s[i]),
    ensures
        0 <= chars_val(s.take(k)) <= chars_val(s),
    decreases s.len(),
{
    if s.len() == 0 {
        assert(s.take(k) =~= s);
    } else if k == s.len() {
        assert(s.take(k) =~= s);
        lemma_chars_val_grows(s.drop_last(), s.len() - 1);
        assert(s.drop_last().take(s.len() - 1) =~= s.drop_last());
    } else {
        lemma_chars_val_grows(s.drop_last(), k);
        assert(s.drop_last().take(k) =~= s.take(k));
        assert(s.drop_last().take(s.drop_last().len() as int) =~= s.drop_last());
    }
}

/// Collects the characters of a string slice.
pub(crate) fn str_to_char_vec(s: &str) -> (v: Vec<char>)
    ensures
        v@ == s@,
{
    let n = s.unicode_len();
    let mut v: Vec<char> = Vec::new();
    let mut i: usize = 0;
    while i < n
        invariant
            0 <= i <= n,
            n == s@.len(),
            v@ =~= s@.take(i as int),
        decreases n - i,
    {
        v.push(s.get_char(i));
        proof {
            assert(v@ =~= s@.take(i + 1));
        }
        i = i + 1;
    }
    proof {
        assert(s@.take(n as int) =~= s@);
    }
    v
}

/// Reads the digit run `t[from..to]` as a 64-bit number; `None` when the
/// run is empty, contains a non-digit, or overflows.
pub(crate) fn parse_number(t: &Vec<char>, from: usize, to: usize) -> (r: Option<u64>)
    requires
        from <= to <= t@.len(),
    ensures
        ({
            let s = t@.subrange(from as int, to as int);
            match r {
                Some(v) => all_digits(s) && chars_val(s) <= u64::MAX && v == chars_val(s),
                None => !(all_digits(s) && chars_val(s) <= u64::MAX),
            }
        }),
{
    let ghost s = t@.subrange(from as int, to as int);
    if from == to {
        return None;
    }
    let mut acc: u64 = 0;
    let mut j: usize = from;
    while j < to
        invariant
            from <= j <= to <= t@.len(),
            s == t@.subrange(from as int, to as int),
            s.len() == to - from,
            forall|i: int| 0 <= i < j - from ==> is_digit(#[trigger] s[i]),
            acc == chars_val(s.take(j - from)),
        decreases to - j,
    {
        let c = t[j];
        let cv = c as u32;
        if cv < 48 || cv > 57 {
            proof {
                assert(s[j - from] == t@[j as int]);
                assert(!is_digit(s[j - from]));
            }
            return None;
        }
        let d = (cv - 48) as u64;
        proof {
            assert(s[j - from] == t@[j as int]);
            assert(is_digit(s[j - from]));
            assert(s.take(j - from + 1).drop_last() =~= s.take(j - from));
            assert(s.take(j - from + 1).last() == s[j - from]);
        }
        if acc > (u64::MAX - d) / 10 {
            // The prefix read so far already exceeds 64 bits, so the whole
            // run does too.
            proof {
                vstd::arithmetic::div_mod::lemma_fundamental_div_mod((u64::MAX - d) as int, 10);
                assert(acc * 10 + d > u64::MAX);
                assert(chars_val(s.take(j - from + 1)) > u64::MAX);
                if all_digits(s) {
                    lemma_chars_val_grows(s, j - from + 1);
                }
            }
            return None;
        }
        proof {
            vstd::arithmetic::div_mod::lemma_fundamental_div_mod((u64::MAX - d) as int, 10);
            assert(acc * 10 + d <= u64::MAX);
        }
        acc = acc * 10 + d;
        j = j + 1;
    }
    proof {
        assert(s.take(to - from) =~= s);
    }
    Some(acc)
}

/// Reads one comma-free token, exactly as [`token_range`] describes it.
fn parse_token(tok: &Vec<char>) -> (r: Option<Range>)
    ensures
        r == token_range(tok@),
        r is Some ==> range_wf(r->0),
{
    proof {
        lemma_first_at_facts(tok@, '-');
        lemma_token_range_wf(tok@);
    }
    let n = tok.len();
    let mut sep: usize = n;
    let mut i: usize = 0;
    while i < n
        invariant
            0 <= i <= n,
            n == tok@.len(),
            sep == n || (sep < i && tok@[sep as int] == '-'),
            sep == n ==> forall|j: int| 0 <= j < i ==> tok@[j] != '-',
            sep < n ==> forall|j: int| 0 <= j < sep ==> tok@[j] != '-',
        decreases n - i,
    {
        if sep == n && tok[i] == '-' {
            sep = i;
        }
        i = i + 1;
    }
    proof {
        let fa = first_at(tok@, '-');
        if sep == n {
            if fa < n {
                assert(tok@[fa] == '-');
                assert(false);
            }
        } else {
            if fa < sep {
                assert(tok@[fa] == '-');
                assert(false);
            }
            if fa > sep {
                assert(tok@[sep as int] != '-');
                assert(false);
            }
        }
        assert(sep == first_at(tok@, '-'));
    }
    if sep == n {
        return None;
    }
    let a = parse_number(tok, 0, sep);
    let b = parse_number(tok, sep + 1, n);
    proof {
        assert(tok@.subrange(0, sep as int) == tok@.subrange(0, first_at(tok@, '-')));
        assert(tok@.subrange(sep + 1, n as int) == tok@.subrange(
            first_at(tok@, '-') + 1,
            tok@.len() as int,
        ));
    }
    match (a, b) {
        (Some(av), Some(bv)) => {
            if av <= bv {
                Some(Range { start: av, end: bv })
            } else {
                None
            }
        },
        _ => None,
    }
}

/// Parses comma-separated ranges out of free-form text, skipping malformed
/// tokens.  The result is exactly [`ranges_of_text`] of the input, and every
/// returned range is well-formed.
pub fn parse_ranges(input: &str) -> (r: Vec<Range>)
    ensures
        r@ == ranges_of_text(input@),
        all_wf(r@),
{
    let chars = str_to_char_vec(input);
    let mut cleaned: Vec<char> = Vec::new();
    let mut i: usize = 0;
    while i < chars.len()
        invariant
            0 <= i <= chars@.len(),
            chars@ == input@,
            cleaned@ == strip_spaces(chars@.take(i as int)),
        decreases chars@.len() - i,
    {
        let c = chars[i];
        proof {
            assert(chars@.take(i + 1).drop_last() =~= chars@.take(i as int));
            assert(chars@.take(i + 1).last() == chars@[i as int]);
        }
        if !(c == ' ' || c == '\n' || c == '\t' || c == '\r') {
            cleaned.push(c);
        }
        i = i + 1;
    }
    proof {
        assert(chars@.take(chars@.len() as int) =~= chars@);
    }
    let mut res: Vec<Range> = Vec::new();
    let mut tok: Vec<char> = Vec::new();
    let mut j: usize = 0;
    proof {
        assert(cleaned@.skip(0) =~= cleaned@);
        assert(res@ + parse_rec(cleaned@, tok@) =~= parse_rec(cleaned@, tok@));
        assert(tok@ =~= Seq::<char>::empty());
    }
    while j < cleaned.len()
        invariant
            0 <= j <= cleaned@.len(),
            cleaned@ == strip_spaces(input@),
            res@ + parse_rec(cleaned@.skip(j as int), tok@) == ranges_of_text(input@),
            all_wf(res@),
        decreases cleaned@.len() - j,
    {
        let c = cleaned[j];
        let ghost rem = cleaned@.skip(j as int);
        proof {
            assert(rem[0] == cleaned@[j as int]);
            assert(rem.drop_first() =~= cleaned@.skip(j + 1));
        }
        if c == ',' {
            let ghost old_res = res@;
            match parse_token(&tok) {
                Some(r) => {
                    res.push(r);
                    proof {
                        assert(res@ =~= old_res + opt_seq(token_range(tok@)));
                        assert forall|k: int| 0 <= k < res@.len() implies range_wf(
                            #[trigger] res@[k],
                        ) by {
                            if k < old_res.len() {
                                assert(res@[k] == old_res[k]);
                            }
                        }
                    }
                },
                None => {
                    proof {
                        assert(res@ =~= old_res + opt_seq(token_range(tok@)));
                    }
                },
            }
            tok.clear();
        } else {
            tok.push(c);
        }
        j = j + 1;
    }
    proof {
        assert(cleaned@.skip(cleaned@.len() as int) =~= Seq::<char>::empty());
    }
    let ghost old_res = res@;
    match parse_token(&tok) {
        Some(r) => {
            res.push(r);
            proof {
                assert(res@ =~= old_res + opt_seq(token_range(tok@)));
                assert forall|k: int| 0 <= k < res@.len() implies range_wf(
                    #[trigger] res@[k],
                ) by {
                    if k < old_res.len() {
                        assert(res@[k] == old_res[k]);
                    }
                }
            }
        },
        None => {
            proof {
                assert(res@ =~= old_res + opt_seq(token_range(tok@)));
            }
        },
    }
    res
}

} // verus!
