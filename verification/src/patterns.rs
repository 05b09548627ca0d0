//! The two digit-repetition predicates over the decimal representation of a
//! number: a half-length prefix doubled, and a prefix repeated two or more
//! times with no remainder.

use vstd::prelude::*;

use crate::digits::{digits_of, u64_to_digits};

verus! {

/// The sequence is its first half written twice: the length is even and the
/// two halves coincide.
pub open spec fn exact_double(s: Seq<u8>) -> bool {
    &&& s.len() % 2 == 0
    &&& s.subrange(0, s.len() as int / 2) == s.subrange(s.len() as int / 2, s.len() as int)
}

/// Every block of `p` consecutive positions repeats the first block.
pub open spec fn block_repeat(s: Seq<u8>, p: int) -> bool {
    forall|i: int| 0 <= i < s.len() ==> s[i] == #[trigger] s[i % p]
}

/// The sequence is a prefix of length `p` repeated `len/p >= 2` times, for
/// some `p` that divides the length evenly.
pub open spec fn multi_repeat(s: Seq<u8>) -> bool {
    exists|p: int| 1 <= p <= s.len() as int / 2 && s.len() % p as nat == 0 && block_repeat(s, p)
}

/// A doubled sequence is a special case of a repeated one (with the prefix
/// repeated exactly twice).
pub proof fn lemma_exact_double_is_multi_repeat(s: Seq<u8>)
    requires
        exact_double(s),
        s.len() > 0,
    ensures
        multi_repeat(s),
{
    let p = s.len() as int / 2;
    assert(s.len() == p * 2);
    assert(block_repeat(s, p)) by {
        assert forall|i: int| 0 <= i < s.len() implies s[i] == #[trigger] s[i % p] by {
            if i < p {
                vstd::arithmetic::div_mod::lemma_fundamental_div_mod_converse(i, p, 0, i);
            } else {
                vstd::arithmetic::div_mod::lemma_fundamental_div_mod_converse(i, p, 1, i - p);
                assert(s.subrange(p, s.len() as int)[i - p] == s.subrange(0, p)[i - p]);
            }
        }
    }
    assert(s.len() % p as nat == 0) by {
        assert(s.len() == 2 * p);
        vstd::arithmetic::div_mod::lemma_mod_multiples_basic(2, p);
    }
    assert(1 <= p <= s.len() as int / 2 && s.len() % p as nat == 0 && block_repeat(s, p));
}

/// Is the decimal form of `n` a half-length prefix doubled?
/// `11`, `6464` and `123123` qualify; `123` (odd length) does not.
pub fn is_exact_double(n: u64) -> (b: bool)
    ensures
        b == exact_double(digits_of(n as nat)),
{
    let d = u64_to_digits(n);
    let len = d.len();
    if len % 2 != 0 {
        return false;
    }
    let half = len / 2;
    let mut i: usize = 0;
    while i < half
        invariant
            0 <= i <= half,
            d@ == digits_of(n as nat),
            len == d@.len(),
            len % 2 == 0,
            half == len / 2,
            forall|j: int| 0 <= j < i ==> #[trigger] d@[j] == d@[half + j],
        decreases half - i,
    {
        if d[i] != d[half + i] {
            proof {
                let s = d@;
                assert(s.subrange(0, half as int)[i as int] != s.subrange(
                    half as int,
                    len as int,
                )[i as int]);
            }
            return false;
        }
        i = i + 1;
    }
    proof {
        let s = d@;
        assert(s.subrange(0, half as int) =~= s.subrange(half as int, len as int));
    }
    true
}

/// Is the decimal form of `n` some prefix repeated at least twice with no
/// remainder?  `111`, `1212121212` and `12341234` qualify; `1234` does not.
#[verifier::rlimit(30)]
pub fn is_invalid_part2(n: u64) -> (b: bool)
    ensures
        b == multi_repeat(digits_of(n as nat)),
{
    let d = u64_to_digits(n);
    let len = d.len();
    let mut p: usize = 1;
    while p <= len / 2
        invariant
            1 <= p,
            d@ == digits_of(n as nat),
            len == d@.len(),
            forall|q: int|
                1 <= q < p ==> !(len as nat % q as nat == 0 && block_repeat(d@, q)),
        decreases len - p,
    {
        if len % p == 0 {
            let mut i: usize = 0;
            let mut matches = true;
            while i < len
                invariant
                    0 <= i <= len,
                    1 <= p <= len,
                    d@ == digits_of(n as nat),
                    len == d@.len(),
                    matches <==> (forall|j: int| 0 <= j < i ==> d@[j] == #[trigger] d@[j % p as int]),
                decreases len - i,
            {
                let r = i % p;
                if d[i] != d[r] {
                    proof {
                        assert(d@[i as int] != d@[i as int % p as int]);
                    }
                    matches = false;
                    i = len;
                } else {
                    i = i + 1;
                }
            }
            if matches {
                proof {
                    assert(block_repeat(d@, p as int));
                    assert(1 <= p as int <= len as int / 2 && len as nat % p as nat == 0
                        && block_repeat(d@, p as int));
                }
                return true;
            }
        }
        p = p + 1;
    }
    proof {
        if multi_repeat(d@) {
            let q = choose|q: int|
                1 <= q <= d@.len() as int / 2 && d@.len() % q as nat == 0 && block_repeat(d@, q);
            assert(!(len as nat % q as nat == 0 && block_repeat(d@, q)));
            assert(false);
        }
    }
    false
}

} // verus!
