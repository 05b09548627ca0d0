//! Decimal representation of 64-bit identifiers: the digit sequence of a
//! number, the value of a digit sequence, and the facts relating them that
//! the pattern predicates and the candidate generator rely on.

use vstd::arithmetic::div_mod::{
    lemma_fundamental_div_mod, lemma_fundamental_div_mod_converse, lemma_mod_bound,
};
use vstd::prelude::*;

verus! {

/// `10^k`.
pub open spec fn pow10(k: nat) -> nat
    decreases k,
{
    if k == 0 {
        1
    } else {
        10 * pow10((k - 1) as nat)
    }
}

/// The decimal digits of `n`, most significant first.  `digits_of(0)` is the
/// single digit `0`; no other digit sequence starts with `0`.
pub open spec fn digits_of(n: nat) -> Seq<u8>
    decreases n,
{
    if n < 10 {
        seq![n as u8]
    } else {
        digits_of(n / 10).push((n % 10) as u8)
    }
}

/// The number written by a digit sequence, most significant first.
pub open spec fn digits_val(s: Seq<u8>) -> nat
    decreases s.len(),
{
    if s.len() == 0 {
        0
    } else {
        digits_val(s.drop_last()) * 10 + s.last() as nat
    }
}

/// A sequence that can be the decimal representation of a number: non-empty,
/// digits below ten, and no leading zero except for the number zero itself.
pub open spec fn valid_digits(s: Seq<u8>) -> bool {
    &&& s.len() >= 1
    &&& forall|i: int| 0 <= i < s.len() ==> s[i] < 10
    &&& (s.len() > 1 ==> s[0] != 0)
}

pub proof fn lemma_pow10_positive(k: nat)
    ensures
        pow10(k) >= 1,
    decreases k,
{
    if k > 0 {
        lemma_pow10_positive((k - 1) as nat)
    }
}

pub proof fn lemma_pow10_mono(a: nat, b: nat)
    requires
        a <= b,
    ensures
        pow10(a) <= pow10(b),
    decreases b,
{
    lemma_pow10_positive(a);
    if a < b {
        lemma_pow10_mono(a, (b - 1) as nat);
        lemma_pow10_positive((b - 1) as nat);
    }
}

pub proof fn lemma_pow10_add(a: nat, b: nat)
    ensures
        pow10(a + b) == pow10(a) * pow10(b),
    decreases a,
{
    if a == 0 {
        assert(pow10(b) == 1 * pow10(b)) by (nonlinear_arith);
    } else {
        lemma_pow10_add((a - 1) as nat, b);
        assert(pow10(a + b) == 10 * pow10((a + b - 1) as nat));
        assert(10 * (pow10((a - 1) as nat) * pow10(b)) == (10 * pow10((a - 1) as nat)) * pow10(
            b,
        )) by (nonlinear_arith);
    }
}

/// The digit sequence of any number is a valid representation.
pub proof fn lemma_digits_valid(n: nat)
    ensures
        valid_digits(digits_of(n)),
        n >= 1 ==> digits_of(n)[0] != 0,
    decreases n,
{
    if n < 10 {
    } else {
        lemma_mod_bound(n as int, 10);
        lemma_digits_valid(n / 10);
        assert(n / 10 >= 1) by {
            lemma_fundamental_div_mod(n as int, 10);
        }
        let d = digits_of(n / 10);
        assert(digits_of(n) == d.push((n % 10) as u8));
        assert(forall|i: int|
            0 <= i < d.len() ==> digits_of(n)[i] == #[trigger] d[i]);
    }
}

/// A number sits between the powers of ten given by its digit count.
pub proof fn lemma_digits_len(n: nat)
    ensures
        digits_of(n).len() >= 1,
        n < pow10(digits_of(n).len()),
        n >= 1 ==> pow10((digits_of(n).len() - 1) as nat) <= n,
    decreases n,
{
    if n < 10 {
        lemma_pow10_positive(1);
    } else {
        lemma_digits_len(n / 10);
        lemma_fundamental_div_mod(n as int, 10);
        lemma_mod_bound(n as int, 10);
        let l = digits_of(n / 10).len();
        assert(digits_of(n).len() == l + 1);
        assert(n / 10 < pow10(l));
        assert(n == 10 * (n / 10) + n % 10);
        assert(n < 10 * pow10(l));
        assert(pow10(l + 1) == 10 * pow10(l));
        assert(n / 10 >= 1);
        assert(pow10((l - 1) as nat) <= n / 10);
        assert(pow10(l) == 10 * pow10((l - 1) as nat));
        assert(pow10(l) <= 10 * (n / 10));
    }
}

/// The digit count is exactly the `L` with `10^(L-1) <= n < 10^L`.
pub proof fn lemma_len_from_bounds(n: nat, l: nat)
    requires
        l >= 1,
        pow10((l - 1) as nat) <= n < pow10(l),
    ensures
        digits_of(n).len() == l,
{
    lemma_pow10_positive((l - 1) as nat);
    lemma_digits_len(n);
    let dl = digits_of(n).len();
    if dl < l {
        lemma_pow10_mono(dl, (l - 1) as nat);
        assert(n < pow10(dl));
        assert(false);
    }
    if dl > l {
        lemma_pow10_mono(l, (dl - 1) as nat);
        assert(n >= 1) by {
            lemma_pow10_positive((l - 1) as nat);
        }
        assert(pow10((dl - 1) as nat) <= n);
        assert(false);
    }
}

/// Reading back the digits of `n` yields `n`.
pub proof fn lemma_digits_roundtrip(n: nat)
    ensures
        digits_val(digits_of(n)) == n,
    decreases n,
{
    if n < 10 {
        let s = digits_of(n);
        assert(s.drop_last() =~= Seq::<u8>::empty());
        assert(digits_val(Seq::<u8>::empty()) == 0);
        assert(digits_val(s) == digits_val(s.drop_last()) * 10 + s.last() as nat);
        assert(s.last() == n as u8);
        assert((n as u8) as nat == n);
    } else {
        lemma_digits_roundtrip(n / 10);
        let s = digits_of(n);
        assert(s.drop_last() =~= digits_of(n / 10));
        lemma_fundamental_div_mod(n as int, 10);
    }
}

/// Two different numbers never share a digit sequence.
pub proof fn lemma_digits_injective(a: nat, b: nat)
    requires
        digits_of(a) == digits_of(b),
    ensures
        a == b,
{
    lemma_digits_roundtrip(a);
    lemma_digits_roundtrip(b);
}

/// The value written by a valid digit sequence has exactly those digits.
pub proof fn lemma_val_of_valid_digits(s: Seq<u8>)
    requires
        valid_digits(s),
    ensures
        digits_of(digits_val(s)) == s,
        s.len() > 1 ==> digits_val(s) >= 10,
    decreases s.len(),
{
    if s.len() == 1 {
        assert(s.drop_last() =~= Seq::<u8>::empty());
        assert(digits_val(Seq::<u8>::empty()) == 0);
        assert(digits_val(s) == digits_val(s.drop_last()) * 10 + s.last() as nat);
        assert(digits_val(s) == s[0]);
        assert(digits_of(digits_val(s)) =~= s);
    } else {
        let d = s.drop_last();
        assert(valid_digits(d)) by {
            assert(forall|i: int| 0 <= i < d.len() ==> d[i] == #[trigger] s[i]);
        }
        lemma_val_of_valid_digits(d);
        let v = digits_val(s);
        let dv = digits_val(d);
        assert(v == dv * 10 + s.last());
        assert(dv >= 1) by {
            if dv == 0 {
                assert(digits_of(0) =~= seq![0u8]);
                assert(d[0] == 0);
            }
        }
        assert(v >= 10);
        lemma_fundamental_div_mod_converse(v as int, 10, dv as int, s.last() as int);
        assert(v / 10 == dv && v % 10 == s.last());
        assert(digits_of(v) == digits_of(dv).push((v % 10) as u8));
        assert(digits_of(v) =~= s);
    }
}

/// Writing `a` in front of a `k`-digit number `b` concatenates their digits:
/// the digits of `a * 10^k + b` are the digits of `a` followed by those of
/// `b`.
pub proof fn lemma_digits_append(a: nat, b: nat, k: nat)
    requires
        a >= 1,
        k >= 1,
        pow10((k - 1) as nat) <= b < pow10(k),
    ensures
        digits_of(a * pow10(k) + b) == digits_of(a) + digits_of(b),
    decreases k,
{
    lemma_pow10_positive((k - 1) as nat);
    lemma_len_from_bounds(b, k);
    let n = a * pow10(k) + b;
    if k == 1 {
        assert(pow10(1) == 10);
        assert(n == a * 10 + b);
        lemma_fundamental_div_mod_converse(n as int, 10, a as int, b as int);
        assert(n / 10 == a && n % 10 == b);
        assert(n >= 10) by {
            assert(a * 10 >= 10) by (nonlinear_arith)
                requires
                    a >= 1,
            ;
        }
        assert(digits_of(n) == digits_of(a).push(b as u8));
        assert(digits_of(b) =~= seq![b as u8]);
        assert(digits_of(a) + digits_of(b) =~= digits_of(a).push(b as u8));
    } else {
        lemma_fundamental_div_mod(b as int, 10);
        lemma_mod_bound(b as int, 10);
        let q = b / 10;
        let r = b % 10;
        assert(pow10(k) == 10 * pow10((k - 1) as nat));
        assert(pow10((k - 1) as nat) == 10 * pow10((k - 2) as nat));
        // b has k digits, so q = b / 10 has k - 1 of them.
        assert(10 * pow10((k - 2) as nat) <= b);
        assert(10 * q + r == b);
        assert(q >= pow10((k - 2) as nat));
        assert(q < pow10((k - 1) as nat));
        // n / 10 puts a in front of q; n % 10 is b's last digit.
        assert(a * pow10(k) == (a * pow10((k - 1) as nat)) * 10) by (nonlinear_arith)
            requires
                pow10(k) == 10 * pow10((k - 1) as nat),
        ;
        assert(n == (a * pow10((k - 1) as nat) + q) * 10 + r) by (nonlinear_arith)
            requires
                n == (a * pow10((k - 1) as nat)) * 10 + b,
                b == 10 * q + r,
        ;
        lemma_fundamental_div_mod_converse(
            n as int,
            10,
            (a * pow10((k - 1) as nat) + q) as int,
            r as int,
        );
        assert(n / 10 == a * pow10((k - 1) as nat) + q && n % 10 == r);
        lemma_digits_append(a, q, (k - 1) as nat);
        assert(n >= 10) by {
            assert(a * pow10(k) >= pow10(k)) by (nonlinear_arith)
                requires
                    a >= 1,
                    pow10(k) >= 0,
            ;
            lemma_pow10_mono(1, k);
        }
        assert(digits_of(n) == digits_of(n / 10).push((n % 10) as u8));
        assert(digits_of(b) == digits_of(q).push(r as u8));
        assert(digits_of(a) + digits_of(b) =~= (digits_of(a) + digits_of(q)).push(r as u8));
    }
}

/// Concrete powers of ten at the edges of the 64-bit range.
pub proof fn lemma_pow10_values()
    ensures
        pow10(0) == 1,
        pow10(1) == 10,
        pow10(10) == 10000000000,
        pow10(20) > u64::MAX,
{
    assert(pow10(0) == 1);
    assert(pow10(1) == 10);
    assert(pow10(2) == 100);
    assert(pow10(3) == 1000);
    assert(pow10(4) == 10000);
    assert(pow10(5) == 100000);
    assert(pow10(6) == 1000000);
    assert(pow10(7) == 10000000);
    assert(pow10(8) == 100000000);
    assert(pow10(9) == 1000000000);
    assert(pow10(10) == 10000000000);
    assert(pow10(11) == 100000000000);
    assert(pow10(12) == 1000000000000);
    assert(pow10(13) == 10000000000000);
    assert(pow10(14) == 100000000000000);
    assert(pow10(15) == 1000000000000000);
    assert(pow10(16) == 10000000000000000);
    assert(pow10(17) == 100000000000000000);
    assert(pow10(18) == 1000000000000000000);
    assert(pow10(19) == 10000000000000000000);
    assert(pow10(20) == 100000000000000000000);
}

/// Computes the digit sequence of `n`, most significant first.
pub fn u64_to_digits(n: u64) -> (d: Vec<u8>)
    ensures
        d@ == digits_of(n as nat),
        d@.len() >= 1,
    decreases n,
{
    if n < 10 {
        let mut d: Vec<u8> = Vec::new();
        d.push(n as u8);
        proof {
            assert(d@ =~= digits_of(n as nat));
        }
        d
    } else {
        let mut d = u64_to_digits(n / 10);
        d.push((n % 10) as u8);
        d
    }
}

/// Computes `10^k` for exponents whose power fits in 64 bits.
pub fn pow10_u64(k: usize) -> (p: u64)
    requires
        pow10(k as nat) <= u64::MAX,
    ensures
        p == pow10(k as nat),
{
    let mut p: u64 = 1;
    let mut i: usize = 0;
    while i < k
        invariant
            0 <= i <= k,
            p == pow10(i as nat),
            pow10(k as nat) <= u64::MAX,
        decreases k - i,
    {
        proof {
            lemma_pow10_mono((i + 1) as nat, k as nat);
        }
        assert(pow10((i + 1) as nat) == 10 * pow10(i as nat));
        p = p * 10;
        i = i + 1;
    }
    p
}

} // verus!
