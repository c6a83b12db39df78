//! Natural numbers as sequences of decimal digits, lowest digit first.

use vstd::prelude::*;

verus! {

/// `base` multiplied by itself `n` times.
pub open spec fn power(base: nat, n: nat) -> nat
    decreases n,
{
    if n == 0 {
        1
    } else {
        base * power(base, (n - 1) as nat)
    }
}

/// Every element is a decimal digit.
pub open spec fn is_digits(s: Seq<u8>) -> bool {
    forall|i: int| 0 <= i < s.len() ==> #[trigger] s[i] < 10
}

/// The number that the digits `s` spell, lowest digit first.
pub open spec fn value(s: Seq<u8>) -> nat
    decreases s.len(),
{
    if s.len() == 0 {
        0
    } else {
        s[0] as nat + 10 * value(s.drop_first())
    }
}

pub proof fn lemma_power_positive(base: nat, n: nat)
    requires
        base > 0,
    ensures
        power(base, n) > 0,
    decreases n,
{
    if n > 0 {
        lemma_power_positive(base, (n - 1) as nat);
        let p = power(base, (n - 1) as nat);
        assert(base * p > 0) by (nonlinear_arith)
            requires
                base > 0,
                p > 0,
        ;
    }
}

pub proof fn lemma_power_adds(base: nat, a: nat, b: nat)
    ensures
        power(base, a + b) == power(base, a) * power(base, b),
    decreases a,
{
    if a == 0 {
        assert(power(base, a) == 1);
    } else {
        lemma_power_adds(base, (a - 1) as nat, b);
        let pa = power(base, (a - 1) as nat);
        let pb = power(base, b);
        assert(power(base, a + b) == base * power(base, (a + b - 1) as nat));
        assert(base * (pa * pb) == (base * pa) * pb) by (nonlinear_arith);
    }
}

/// Appending a digit adds it at the weight of its place.
pub proof fn lemma_value_push(s: Seq<u8>, d: u8)
    ensures
        value(s.push(d)) == value(s) + d * power(10, s.len()),
    decreases s.len(),
{
    if s.len() == 0 {
        assert(s.push(d).drop_first() =~= Seq::<u8>::empty());
        assert(value(s.push(d).drop_first()) == 0);
        assert(s.push(d)[0] == d);
        assert(power(10, 0) == 1);
        assert(value(s) == 0);
    } else {
        let rest = s.drop_first();
        assert(s.push(d).drop_first() =~= rest.push(d));
        lemma_value_push(rest, d);
        assert(s.push(d)[0] == s[0]);
        let p = power(10, rest.len());
        assert(power(10, s.len()) == 10 * p);
        assert(10 * (value(rest) + d * p) == 10 * value(rest) + d * (10 * p))
            by (nonlinear_arith);
    }
}

/// `n` digits spell a number below ten to the `n`.
pub proof fn lemma_value_bound(s: Seq<u8>)
    requires
        is_digits(s),
    ensures
        value(s) < power(10, s.len()),
    decreases s.len(),
{
    if s.len() > 0 {
        let rest = s.drop_first();
        assert(is_digits(rest)) by {
            assert forall|i: int| 0 <= i < rest.len() implies #[trigger] rest[i] < 10 by {
                assert(rest[i] == s[i + 1]);
            }
        }
        lemma_value_bound(rest);
        assert(s[0] < 10);
        assert(power(10, s.len()) == 10 * power(10, rest.len()));
    }
}

/// A number with a nonzero highest digit is at least that digit's weight.
pub proof fn lemma_value_lower_bound(s: Seq<u8>)
    requires
        s.len() > 0,
        s.last() != 0,
    ensures
        value(s) >= power(10, (s.len() - 1) as nat),
{
    let head = s.drop_last();
    assert(s =~= head.push(s.last()));
    lemma_value_push(head, s.last());
    let p = power(10, head.len());
    let d = s.last();
    assert(d * p >= p) by (nonlinear_arith)
        requires
            d >= 1,
            p >= 0,
    ;
}

/// The low `k` digits and the rest, each at its weight.
pub proof fn lemma_value_split(s: Seq<u8>, k: int)
    requires
        0 <= k <= s.len(),
    ensures
        value(s) == value(s.take(k)) + power(10, k as nat) * value(s.skip(k)),
    decreases s.len() - k,
{
    if k == s.len() {
        assert(s.take(k) =~= s);
        assert(s.skip(k) =~= Seq::<u8>::empty());
        assert(value(s.skip(k)) == 0);
        assert(power(10, k as nat) * 0 == 0);
    } else {
        lemma_value_split(s, k + 1);
        assert(s.take(k + 1) =~= s.take(k).push(s[k]));
        lemma_value_push(s.take(k), s[k]);
        assert(s.skip(k).drop_first() =~= s.skip(k + 1));
        assert(s.skip(k)[0] == s[k]);
        let p = power(10, k as nat);
        let hi = value(s.skip(k + 1));
        let d = s[k];
        assert(power(10, (k + 1) as nat) == 10 * p);
        assert((10 * p) * hi + d * p == p * (d + 10 * hi)) by (nonlinear_arith);
    }
}

/// Digits that are all zero spell zero.
pub proof fn lemma_value_zeros(s: Seq<u8>)
    requires
        forall|i: int| 0 <= i < s.len() ==> #[trigger] s[i] == 0,
    ensures
        value(s) == 0,
    decreases s.len(),
{
    if s.len() > 0 {
        let rest = s.drop_first();
        assert forall|i: int| 0 <= i < rest.len() implies #[trigger] rest[i] == 0 by {
            assert(rest[i] == s[i + 1]);
        }
        lemma_value_zeros(rest);
    }
}

/// The number of decimal digits of `n`; zero has one.
pub open spec fn digit_count(n: nat) -> nat
    decreases n,
{
    if n < 10 {
        1
    } else {
        1 + digit_count(n / 10)
    }
}

/// A number between two neighbouring powers of ten has as many digits as the upper one has zeros.
pub proof fn lemma_digit_count(c: nat, n: nat)
    requires
        n >= 1,
        power(10, (n - 1) as nat) <= c < power(10, n),
    ensures
        digit_count(c) == n,
    decreases n,
{
    if n == 1 {
        assert(power(10, 1) == 10) by {
            reveal_with_fuel(power, 2);
        }
    } else {
        let p = power(10, (n - 2) as nat);
        lemma_power_positive(10, (n - 2) as nat);
        assert(power(10, (n - 1) as nat) == 10 * p);
        assert(power(10, n) == 10 * power(10, (n - 1) as nat));
        lemma_digit_count(c / 10, (n - 1) as nat);
    }
}

/// The digits of `n`, without leading zeros; none for zero.
pub fn digits_of(n: u64) -> (out: Vec<u8>)
    ensures
        is_digits(out@),
        value(out@) == n,
        out@.len() <= 20,
        out@.len() > 0 ==> out@.last() != 0,
{
    let mut out: Vec<u8> = Vec::new();
    let mut rest: u64 = n;
    assert(value(out@) == 0);
    assert(power(10, 0) == 1);
    while rest > 0
        invariant
            is_digits(out@),
            out@.len() <= 20,
            value(out@) + rest * power(10, out@.len()) == n,
            rest == 0 && out@.len() > 0 ==> out@.last() != 0,
        decreases rest,
    {
        let d: u8 = (rest % 10) as u8;
        proof {
            let p = power(10, out@.len());
            if out@.len() == 20 {
                assert(p == 100000000000000000000) by {
                    reveal_with_fuel(power, 21);
                }
                assert(rest * p >= p) by (nonlinear_arith)
                    requires
                        rest >= 1,
                        p >= 0,
                ;
            }
            lemma_value_push(out@, d);
            assert(power(10, out@.len() + 1) == 10 * p);
            let q = rest / 10;
            assert(d * p + q * (10 * p) == rest * p) by (nonlinear_arith)
                requires
                    rest == d + 10 * q,
            ;
        }
        out.push(d);
        rest = rest / 10;
    }
    out
}

/// Multiplies a number by `factor` and adds `addend`, digit by digit.
pub fn scale_add(digits: &Vec<u8>, factor: u8, addend: u8) -> (out: Vec<u8>)
    requires
        is_digits(digits@),
        factor <= 10,
        addend <= 9,
    ensures
        is_digits(out@),
        value(out@) == factor * value(digits@) + addend,
        digits@.len() <= out@.len() <= digits@.len() + 1,
        out@.len() == digits@.len() + 1 ==> out@.last() != 0,
{
    let mut out: Vec<u8> = Vec::new();
    let mut carry: u8 = addend;
    let mut i: usize = 0;
    assert(digits@.take(0) =~= Seq::<u8>::empty());
    assert(value(out@) == 0 && value(digits@.take(0)) == 0);
    assert(power(10, 0) == 1);
    assert(factor * 0 == 0);
    while i < digits.len()
        invariant
            i <= digits.len(),
            is_digits(digits@),
            is_digits(out@),
            out@.len() == i,
            carry <= 9,
            factor <= 10,
            value(out@) + carry * power(10, i as nat) == factor * value(digits@.take(i as int))
                + addend,
        decreases digits.len() - i,
    {
        let d: u8 = digits[i];
        assert(d < 10);
        assert(factor * d <= 90) by (nonlinear_arith)
            requires
                factor <= 10,
                d <= 9,
        ;
        let t: u8 = factor * d + carry;
        proof {
            let r = (t % 10) as u8;
            let q = (t / 10) as u8;
            let p = power(10, i as nat);
            let v = value(out@);
            let w = value(digits@.take(i as int));
            lemma_value_push(out@, r);
            assert(digits@.take(i + 1) =~= digits@.take(i as int).push(d));
            lemma_value_push(digits@.take(i as int), d);
            assert(power(10, (i + 1) as nat) == 10 * p);
            assert(v + r * p + q * (10 * p) == factor * (w + d * p) + addend) by (nonlinear_arith)
                requires
                    t == r + 10 * q,
                    t == factor * d + carry,
                    v + carry * p == factor * w + addend,
            ;
        }
        out.push(t % 10);
        carry = t / 10;
        i += 1;
    }
    assert(digits@.take(i as int) =~= digits@);
    if carry > 0 {
        proof {
            lemma_value_push(out@, carry);
        }
        out.push(carry);
    } else {
        assert(0 * power(10, i as nat) == 0);
    }
    out
}

/// Drops the zeros above the highest nonzero digit.
pub fn trim(digits: Vec<u8>) -> (out: Vec<u8>)
    requires
        is_digits(digits@),
    ensures
        is_digits(out@),
        value(out@) == value(digits@),
        out@.len() <= digits@.len(),
        out@.len() > 0 ==> out@.last() != 0,
{
    let mut out = digits;
    while out.len() > 0 && out[out.len() - 1] == 0
        invariant
            is_digits(out@),
            value(out@) == value(digits@),
            out@.len() <= digits@.len(),
        decreases out.len(),
    {
        proof {
            let head = out@.drop_last();
            assert(out@ =~= head.push(0));
            lemma_value_push(head, 0);
            assert(0 * power(10, head.len()) == 0);
        }
        out.pop();
    }
    out
}

} // verus!
