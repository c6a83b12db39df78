//! What holds of every formatted number.

use vstd::prelude::*;
use vstd::arithmetic::div_mod::{lemma_fundamental_div_mod, lemma_mod_pos_bound};
use crate::binary64::{Binary64, SIGN_UNIT};
use crate::decimal::{carries, round_to_digits, rounded_coefficient, rounded_exponent};
use crate::digits::{digit_count, lemma_power_adds, lemma_power_positive, power};
use crate::notation::{
    decimal_text, digit_char, eng_exponent, engineering_text, exponent_text, int_digits,
    mantissa_text, sign_text, zeros,
};

verus! {

/// One of the ten digit characters.
pub open spec fn is_digit_char(c: char) -> bool {
    c == '0' || c == '1' || c == '2' || c == '3' || c == '4' || c == '5' || c == '6' || c == '7'
        || c == '8' || c == '9'
}

/// The digit that a digit character stands for.
pub open spec fn char_digit(c: char) -> nat {
    if c == '1' {
        1
    } else if c == '2' {
        2
    } else if c == '3' {
        3
    } else if c == '4' {
        4
    } else if c == '5' {
        5
    } else if c == '6' {
        6
    } else if c == '7' {
        7
    } else if c == '8' {
        8
    } else if c == '9' {
        9
    } else {
        0
    }
}

/// The number that a text of digits spells, highest digit first.
pub open spec fn text_value(t: Seq<char>) -> nat
    decreases t.len(),
{
    if t.len() == 0 {
        0
    } else {
        10 * text_value(t.drop_last()) + char_digit(t.last())
    }
}

/// A positive number lies between the two powers of ten that its digit
/// count names.
pub proof fn lemma_digit_count_bounds(c: nat)
    requires
        c > 0,
    ensures
        power(10, (digit_count(c) - 1) as nat) <= c < power(10, digit_count(c)),
    decreases c,
{
    if c < 10 {
        assert(power(10, 0) == 1 && power(10, 1) == 10) by {
            reveal_with_fuel(power, 2);
        }
    } else {
        lemma_digit_count_bounds(c / 10);
        let k = digit_count(c / 10);
        assert(power(10, k) == 10 * power(10, (k - 1) as nat));
        assert(power(10, k + 1) == 10 * power(10, k));
    }
}

/// Reading back the text of a number that fits its width gives the number.
pub proof fn lemma_text_value(n: nat, width: nat)
    requires
        n < power(10, width),
    ensures
        decimal_text(n, width).len() == width,
        forall|i: int| 0 <= i < width ==> is_digit_char(#[trigger] decimal_text(n, width)[i]),
        text_value(decimal_text(n, width)) == n,
    decreases width,
{
    if width > 0 {
        assert(power(10, width) == 10 * power(10, (width - 1) as nat));
        lemma_text_value(n / 10, (width - 1) as nat);
        let inner = decimal_text(n / 10, (width - 1) as nat);
        let t = decimal_text(n, width);
        assert(t == inner.push(digit_char(n % 10)));
        assert(t.drop_last() =~= inner);
        assert(char_digit(digit_char(n % 10)) == n % 10);
        assert forall|i: int| 0 <= i < width implies is_digit_char(#[trigger] t[i]) by {
            if i < width - 1 {
                assert(t[i] == inner[i]);
            }
        }
    }
}

/// Rounding to `sf` digits gives a number of `sf` digits, or ten to the
/// `sf`; the latter only where digits were dropped.
pub proof fn lemma_round_range(c: nat, sf: nat)
    requires
        c > 0,
        sf >= 1,
    ensures
        power(10, (sf - 1) as nat) <= round_to_digits(c, sf) <= power(10, sf),
        digit_count(c) <= sf ==> !carries(c, sf),
        power(10, (sf - 1) as nat) <= rounded_coefficient(c, sf) < power(10, sf),
{
    let n = digit_count(c);
    lemma_digit_count_bounds(c);
    let a = power(10, (sf - 1) as nat);
    let b = power(10, sf);
    assert(b == 10 * a);
    lemma_power_positive(10, (sf - 1) as nat);
    let lo = power(10, (n - 1) as nat);
    let hi = power(10, n);
    if n <= sf {
        let q = power(10, (sf - n) as nat);
        lemma_power_positive(10, (sf - n) as nat);
        lemma_power_adds(10, (n - 1) as nat, (sf - n) as nat);
        lemma_power_adds(10, n, (sf - n) as nat);
        assert(lo * q <= c * q < hi * q) by (nonlinear_arith)
            requires
                lo <= c < hi,
                q > 0,
        ;
    } else {
        let half = 5 * power(10, (n - sf - 1) as nat);
        let u = power(10, (n - sf) as nat);
        assert(u == 10 * power(10, (n - sf - 1) as nat));
        lemma_power_positive(10, (n - sf - 1) as nat);
        lemma_power_adds(10, (sf - 1) as nat, (n - sf) as nat);
        lemma_power_adds(10, sf, (n - sf) as nat);
        let x = (c + half) as int;
        let r = x / (u as int);
        let rem = x % (u as int);
        lemma_fundamental_div_mod(x, u as int);
        lemma_mod_pos_bound(x, u as int);
        assert(a <= r <= b) by (nonlinear_arith)
            requires
                x == u * r + rem,
                0 <= rem < u,
                x == c + half,
                0 <= half < u,
                a * u <= c < b * u,
        ;
    }
}

/// The rounded value is the nearest that `sf` digits can spell: it is the
/// value itself where no digit is dropped, and otherwise at most half a
/// unit of the last kept place away, a tie going up. Carrying changes the
/// digits and the exponent together and leaves the value as it is.
pub proof fn lemma_rounding_is_nearest(c: nat, sf: nat)
    requires
        c > 0,
        sf >= 1,
    ensures
        digit_count(c) <= sf ==> rounded_coefficient(c, sf) == c * power(
            10,
            (sf - digit_count(c)) as nat,
        ),
        digit_count(c) > sf ==> ({
            let unit = power(10, (digit_count(c) - sf) as nat);
            2 * c - unit < 2 * (round_to_digits(c, sf) * unit) <= 2 * c + unit
        }),
        carries(c, sf) ==> rounded_coefficient(c, sf) * 10 == round_to_digits(c, sf),
        !carries(c, sf) ==> rounded_coefficient(c, sf) == round_to_digits(c, sf),
{
    let n = digit_count(c);
    lemma_round_range(c, sf);
    assert(power(10, sf) == 10 * power(10, (sf - 1) as nat));
    if n > sf {
        let half = 5 * power(10, (n - sf - 1) as nat);
        let u = power(10, (n - sf) as nat);
        assert(u == 10 * power(10, (n - sf - 1) as nat));
        lemma_power_positive(10, (n - sf - 1) as nat);
        let x = (c + half) as int;
        let r = x / (u as int);
        let rem = x % (u as int);
        lemma_fundamental_div_mod(x, u as int);
        lemma_mod_pos_bound(x, u as int);
        assert(r * u == u * r) by (nonlinear_arith);
    }
}

/// The text of a number that is not zero is its sign, a mantissa with
/// one to three digits before the point, and an exponent that is a
/// multiple of three; the digits of the mantissa spell the rounded
/// coefficient, and the exponent and the place of the point give back
/// the power of ten of its first digit.
pub proof fn lemma_text_shape(x: Binary64, sf: nat)
    requires
        x.finite(),
        !x.zero(),
        sf >= 1,
    ensures
        ({
            let r = rounded_coefficient(x.coefficient(), sf);
            let e = rounded_exponent(x.coefficient(), x.scale(), sf);
            let left = int_digits(e);
            let eng = eng_exponent(e);
            &&& engineering_text(x, sf) == sign_text(x.negative()) + mantissa_text(r, sf, left)
                + exponent_text(eng)
            &&& eng % 3 == 0
            &&& 1 <= left <= 3
            &&& eng + left - 1 == e
            &&& text_value(decimal_text(r, sf)) == r
        }),
{
    x.lemma_coefficient_positive();
    lemma_round_range(x.coefficient(), sf);
    lemma_text_value(rounded_coefficient(x.coefficient(), sf), sf);
}

/// The number that the text spells is the number rounded to `sf`
/// significant figures. With the magnitude `c * 10^s`, the digits `r` and
/// the power of ten `e` of the first of them, the text spells
/// `r * 10^(e - sf + 1)`. Where `c` has no more than `sf` digits, that is
/// `c * 10^s` itself. Where it has more, it differs from `c * 10^s` by at
/// most half a unit of the last digit that `sf` digits of `c` reach, and
/// lies above where it differs by exactly half.
pub proof fn lemma_round_trip(x: Binary64, sf: nat)
    requires
        x.finite(),
        !x.zero(),
        sf >= 1,
    ensures
        ({
            let c = x.coefficient();
            let n = digit_count(c);
            let r = rounded_coefficient(c, sf);
            let e = rounded_exponent(c, x.scale(), sf);
            let shift = e - sf + 1 - x.scale();
            &&& text_value(decimal_text(r, sf)) == r
            &&& n <= sf ==> shift == n - sf && r == c * power(10, (-shift) as nat)
            &&& n > sf ==> shift >= 1 && ({
                let unit = power(10, (n - sf) as nat);
                2 * c - unit < 2 * (r * power(10, shift as nat)) <= 2 * c + unit
            })
        }),
{
    x.lemma_coefficient_positive();
    let c = x.coefficient();
    let n = digit_count(c);
    let r = rounded_coefficient(c, sf);
    lemma_round_range(c, sf);
    lemma_text_value(r, sf);
    lemma_rounding_is_nearest(c, sf);
    if n > sf && carries(c, sf) {
        let unit = power(10, (n - sf) as nat);
        assert(power(10, (n - sf + 1) as nat) == 10 * unit);
        assert(r * (10 * unit) == (r * 10) * unit) by (nonlinear_arith);
    }
}

/// The exponent that is written is the largest multiple of three that
/// is not above the power of ten of the first digit.
pub proof fn lemma_exponent_multiple_of_three(e: int)
    ensures
        eng_exponent(e) % 3 == 0,
        eng_exponent(e) <= e < eng_exponent(e) + 3,
        1 <= int_digits(e) <= 3,
        exponent_text(eng_exponent(e)).len() > 0 <==> !(0 <= e <= 2),
{
}

/// A mantissa has `left` digits before the point, and the point only
/// where digits follow it.
pub proof fn lemma_mantissa_shape(r: nat, sf: nat, left: nat)
    requires
        sf >= 1,
        left >= 1,
        r < power(10, sf),
    ensures
        mantissa_text(r, sf, left).len() == if sf > left {
            sf + 1
        } else {
            left
        },
        forall|i: int| 0 <= i < left ==> is_digit_char(#[trigger] mantissa_text(r, sf, left)[i]),
        sf > left ==> mantissa_text(r, sf, left)[left as int] == '.',
        forall|i: int|
            left < i < sf + 1 ==> is_digit_char(#[trigger] mantissa_text(r, sf, left)[i]),
{
    lemma_text_value(r, sf);
    let t = decimal_text(r, sf);
    let m = mantissa_text(r, sf, left);
    assert forall|i: int| 0 <= i < left implies is_digit_char(#[trigger] m[i]) by {
        if i < sf {
            assert(m[i] == t[i]);
        } else {
            assert(m[i] == zeros((left - sf) as nat)[i - sf]);
        }
    }
    assert forall|i: int| left < i < sf + 1 implies is_digit_char(#[trigger] m[i]) by {
        assert(m[i] == t[i - 1]);
    }
}

/// Zero, of either sign, is a zero, the point and `sf - 1` zeros, with
/// no exponent.
pub proof fn lemma_zero_text(x: Binary64, sf: nat)
    requires
        x.zero(),
        sf >= 1,
    ensures
        engineering_text(x, sf) == seq!['0', '.'] + Seq::new((sf - 1) as nat, |i: int| '0'),
        engineering_text(x, sf).len() == sf + 1,
{
}

/// A number below zero is written as a minus sign before the text of
/// its magnitude.
pub proof fn lemma_negative_text(x: Binary64, sf: nat)
    requires
        x.finite(),
        x.negative(),
        !x.zero(),
    ensures
        x.magnitude().finite(),
        !x.magnitude().negative(),
        engineering_text(x, sf) == seq!['-'] + engineering_text(x.magnitude(), sf),
{
    let y = x.magnitude();
    assert(y.bits == x.bits - SIGN_UNIT);
    assert(y.exponent_field() == x.exponent_field());
    assert(y.fraction_field() == x.fraction_field());
    let body = mantissa_text(
        rounded_coefficient(x.coefficient(), sf),
        sf,
        int_digits(rounded_exponent(x.coefficient(), x.scale(), sf)),
    ) + exponent_text(eng_exponent(rounded_exponent(x.coefficient(), x.scale(), sf)));
    assert(engineering_text(x, sf) =~= seq!['-'] + body);
    assert(engineering_text(y, sf) =~= body);
}

/// The decimal coefficient and scale name the same magnitude as the
/// significand and binary exponent: below one unit, `c / 10^k` is
/// `m / 2^k`.
pub proof fn lemma_decimal_is_exact(x: Binary64)
    requires
        x.finite(),
    ensures
        x.exponent() >= 0 ==> x.scale() == 0 && x.coefficient() == x.significand() * power(
            2,
            x.exponent() as nat,
        ),
        x.exponent() < 0 ==> x.coefficient() * power(2, (-x.scale()) as nat) == x.significand()
            * power(10, (-x.scale()) as nat),
{
    if x.exponent() < 0 {
        let k = (-x.exponent()) as nat;
        lemma_power_of_product(k);
        let m = x.significand();
        let a = power(5, k);
        let b = power(2, k);
        assert((m * a) * b == m * (a * b)) by (nonlinear_arith);
    }
}

/// Five to the `k` times two to the `k` is ten to the `k`.
pub proof fn lemma_power_of_product(k: nat)
    ensures
        power(5, k) * power(2, k) == power(10, k),
    decreases k,
{
    if k > 0 {
        lemma_power_of_product((k - 1) as nat);
        let a = power(5, (k - 1) as nat);
        let b = power(2, (k - 1) as nat);
        assert(power(5, k) == 5 * a);
        assert(power(2, k) == 2 * b);
        assert(power(10, k) == 10 * power(10, (k - 1) as nat));
        assert((5 * a) * (2 * b) == 10 * (a * b)) by (nonlinear_arith);
    } else {
        assert(power(5, 0) == 1 && power(2, 0) == 1 && power(10, 0) == 1);
    }
}

} // verus!
