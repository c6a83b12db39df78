//! Engineering notation: the text of a rounded magnitude.

use vstd::prelude::*;
use crate::binary64::Binary64;
use crate::decimal::{rounded_coefficient, rounded_exponent, Decimal, Significant, MAX_DIGITS};
use crate::digits::{
    digit_count, digits_of, is_digits, lemma_digit_count, lemma_value_bound,
    lemma_value_lower_bound, value,
};

verus! {

/// The significant figures used where none are asked for.
pub const DEFAULT_FIGURES: usize = 3;

/// The fewest significant figures that can be asked for.
pub const MIN_FIGURES: usize = 1;

/// The character of a decimal digit.
pub open spec fn digit_char(d: nat) -> char {
    if d == 0 {
        '0'
    } else if d == 1 {
        '1'
    } else if d == 2 {
        '2'
    } else if d == 3 {
        '3'
    } else if d == 4 {
        '4'
    } else if d == 5 {
        '5'
    } else if d == 6 {
        '6'
    } else if d == 7 {
        '7'
    } else if d == 8 {
        '8'
    } else {
        '9'
    }
}

/// `n` written in exactly `width` decimal places, highest first.
pub open spec fn decimal_text(n: nat, width: nat) -> Seq<char>
    decreases width,
{
    if width == 0 {
        Seq::<char>::empty()
    } else {
        decimal_text(n / 10, (width - 1) as nat).push(digit_char(n % 10))
    }
}

/// `n` written in decimal without leading zeros.
pub open spec fn nat_text(n: nat) -> Seq<char> {
    decimal_text(n, digit_count(n))
}

/// `i` written in decimal, with a minus sign where it is negative.
pub open spec fn int_text(i: int) -> Seq<char> {
    if i < 0 {
        seq!['-'] + nat_text((-i) as nat)
    } else {
        nat_text(i as nat)
    }
}

/// `n` zero characters.
pub open spec fn zeros(n: nat) -> Seq<char> {
    Seq::new(n, |i: int| '0')
}

/// The largest multiple of three that is at most `e`.
pub open spec fn eng_exponent(e: int) -> int {
    e - e % 3
}

/// The digits left of the decimal point when `10^e` is written with the
/// exponent `eng_exponent(e)`.
pub open spec fn int_digits(e: int) -> nat {
    (e % 3 + 1) as nat
}

/// The `sf` digits of `r` with `left` places before the decimal point:
/// a point after `left` digits where more follow, zeros up to `left`
/// places where the digits run out first.
pub open spec fn mantissa_text(r: nat, sf: nat, left: nat) -> Seq<char> {
    let t = decimal_text(r, sf);
    if sf > left {
        t.take(left as int) + seq!['.'] + t.skip(left as int)
    } else {
        t + zeros((left - sf) as nat)
    }
}

/// Nothing for the exponent zero, else `e` and the exponent.
pub open spec fn exponent_text(eng: int) -> Seq<char> {
    if eng == 0 {
        Seq::<char>::empty()
    } else {
        seq!['e'] + int_text(eng)
    }
}

/// A minus sign, or nothing.
pub open spec fn sign_text(negative: bool) -> Seq<char> {
    if negative {
        seq!['-']
    } else {
        Seq::<char>::empty()
    }
}

/// Zero to `sf` figures: a zero, the point, and `sf - 1` zeros.
pub open spec fn zero_text(sf: nat) -> Seq<char> {
    seq!['0', '.'] + zeros((sf - 1) as nat)
}

/// The magnitude `r * 10^(e - sf + 1)`, of `sf` digits, in engineering notation.
pub open spec fn significant_text(negative: bool, r: nat, e: int, sf: nat) -> Seq<char> {
    sign_text(negative) + mantissa_text(r, sf, int_digits(e)) + exponent_text(eng_exponent(e))
}

/// The finite number `x` in engineering notation with `sf` significant figures.
pub open spec fn engineering_text(x: Binary64, sf: nat) -> Seq<char> {
    if x.zero() {
        zero_text(sf)
    } else {
        significant_text(
            x.negative(),
            rounded_coefficient(x.coefficient(), sf),
            rounded_exponent(x.coefficient(), x.scale(), sf),
            sf,
        )
    }
}

/// The significant figures that an argument stands for.
pub open spec fn figures(sf: Option<usize>) -> nat {
    match sf {
        Some(n) => n as nat,
        None => DEFAULT_FIGURES as nat,
    }
}

/// The text of a digit sequence is its digits in reverse order.
pub proof fn lemma_decimal_text(s: Seq<u8>)
    requires
        is_digits(s),
    ensures
        decimal_text(value(s), s.len()).len() == s.len(),
        forall|p: int|
            0 <= p < s.len() ==> #[trigger] decimal_text(value(s), s.len())[p] == digit_char(
                s[s.len() - 1 - p] as nat,
            ),
    decreases s.len(),
{
    if s.len() > 0 {
        let rest = s.drop_first();
        assert(is_digits(rest)) by {
            assert forall|i: int| 0 <= i < rest.len() implies #[trigger] rest[i] < 10 by {
                assert(rest[i] == s[i + 1]);
            }
        }
        lemma_decimal_text(rest);
        assert(s[0] < 10);
        assert(value(s) / 10 == value(rest));
        assert(value(s) % 10 == s[0]);
        let inner = decimal_text(value(rest), rest.len());
        let t = decimal_text(value(s), s.len());
        assert(t == inner.push(digit_char(s[0] as nat)));
        assert forall|p: int| 0 <= p < s.len() implies #[trigger] t[p] == digit_char(
            s[s.len() - 1 - p] as nat,
        ) by {
            if p < rest.len() {
                assert(t[p] == inner[p]);
                assert(rest[rest.len() - 1 - p] == s[s.len() - 1 - p]);
            }
        }
    }
}

/// Calls `String::push` of the standard library. Taken on trust, not
/// proved: after the call the string holds the characters that it held
/// before, followed by `c`.
#[verifier::external_body]
fn push_char(s: &mut String, c: char)
    ensures
        final(s)@ == old(s)@.push(c),
{
    s.push(c);
}

/// The character of a decimal digit.
pub fn digit_to_char(d: u8) -> (c: char)
    requires
        d < 10,
    ensures
        c == digit_char(d as nat),
{
    match d {
        0 => '0',
        1 => '1',
        2 => '2',
        3 => '3',
        4 => '4',
        5 => '5',
        6 => '6',
        7 => '7',
        8 => '8',
        _ => '9',
    }
}

/// Appends `n` zeros.
fn push_zeros(out: &mut String, n: usize)
    ensures
        final(out)@ == old(out)@ + zeros(n as nat),
{
    let mut i: usize = 0;
    assert(out@ =~= old(out)@ + zeros(0));
    while i < n
        invariant
            i <= n,
            out@ == old(out)@ + zeros(i as nat),
        decreases n - i,
    {
        push_char(out, '0');
        i += 1;
        assert(out@ =~= old(out)@ + zeros(i as nat));
    }
}

/// Appends the places `from..to` of a number's text, counted from the highest digit.
fn push_places(out: &mut String, digits: &Vec<u8>, from: usize, to: usize)
    requires
        is_digits(digits@),
        from <= to <= digits@.len(),
    ensures
        final(out)@ == old(out)@ + decimal_text(value(digits@), digits@.len()).subrange(
            from as int,
            to as int,
        ),
{
    let ghost t = decimal_text(value(digits@), digits@.len());
    proof {
        lemma_decimal_text(digits@);
    }
    let n: usize = digits.len();
    let mut p: usize = from;
    assert(out@ =~= old(out)@ + t.subrange(from as int, from as int));
    while p < to
        invariant
            from <= p <= to <= n,
            n == digits@.len(),
            is_digits(digits@),
            t.len() == n,
            forall|q: int| 0 <= q < n ==> #[trigger] t[q] == digit_char(digits@[n - 1 - q] as nat),
            out@ == old(out)@ + t.subrange(from as int, p as int),
        decreases to - p,
    {
        let d: u8 = digits[n - 1 - p];
        push_char(out, digit_to_char(d));
        p += 1;
        assert(out@ =~= old(out)@ + t.subrange(from as int, p as int)) by {
            assert(t[p - 1] == digit_char(d as nat));
        }
    }
}

/// Appends `n` in decimal.
fn push_nat(out: &mut String, n: u64)
    ensures
        final(out)@ == old(out)@ + nat_text(n as nat),
{
    if n == 0 {
        assert(nat_text(0) =~= seq!['0']) by {
            reveal_with_fuel(decimal_text, 2);
        }
        push_char(out, '0');
        assert(out@ =~= old(out)@ + nat_text(0));
    } else {
        let digits = digits_of(n);
        proof {
            if digits@.len() == 0 {
                assert(value(digits@) == 0);
            }
            lemma_value_bound(digits@);
            lemma_value_lower_bound(digits@);
            lemma_digit_count(n as nat, digits@.len());
            lemma_decimal_text(digits@);
            let t = decimal_text(value(digits@), digits@.len());
            assert(t.subrange(0, digits@.len() as int) =~= t);
        }
        push_places(out, &digits, 0, digits.len());
    }
}

/// The engineering exponent and the number of digits left of the point
/// for a magnitude whose highest digit stands at `10^e`.
pub fn split_exponent(e: i32) -> (parts: (i32, usize))
    requires
        -2 * MAX_DIGITS <= e <= 2 * MAX_DIGITS,
    ensures
        parts.0 == eng_exponent(e as int),
        parts.1 == int_digits(e as int),
        parts.0 % 3 == 0,
        parts.0 <= e < parts.0 + 3,
        1 <= parts.1 <= 3,
        parts.0 + parts.1 - 1 == e,
{
    let shifted: i32 = e + 6144;
    let rem: i32 = shifted % 3;
    (e - rem, (rem + 1) as usize)
}

/// Writes a rounded magnitude in engineering notation.
pub fn render(negative: bool, sig: &Significant) -> (out: String)
    requires
        sig.wf(),
    ensures
        out@ == significant_text(
            negative,
            sig.coefficient(),
            sig.exponent as int,
            sig.digits@.len(),
        ),
{
    let sf: usize = sig.digits.len();
    let (eng, left) = split_exponent(sig.exponent);
    let ghost t = decimal_text(value(sig.digits@), sf as nat);
    proof {
        lemma_decimal_text(sig.digits@);
    }
    let mut out = String::new();
    if negative {
        push_char(&mut out, '-');
    }
    assert(out@ =~= sign_text(negative));
    if sf > left {
        push_places(&mut out, &sig.digits, 0, left);
        push_char(&mut out, '.');
        push_places(&mut out, &sig.digits, left, sf);
        assert(out@ =~= sign_text(negative) + (t.take(left as int) + seq!['.'] + t.skip(
            left as int,
        )));
    } else {
        push_places(&mut out, &sig.digits, 0, sf);
        push_zeros(&mut out, left - sf);
        assert(t.subrange(0, sf as int) =~= t);
        assert(out@ =~= sign_text(negative) + (t + zeros((left - sf) as nat)));
    }
    let ghost body = out@;
    if eng != 0 {
        push_char(&mut out, 'e');
        if eng < 0 {
            push_char(&mut out, '-');
            push_nat(&mut out, (-eng) as u64);
        } else {
            push_nat(&mut out, eng as u64);
        }
        assert(out@ =~= body + exponent_text(eng as int));
    } else {
        assert(out@ =~= body + exponent_text(eng as int));
    }
    assert(out@ =~= significant_text(
        negative,
        value(sig.digits@),
        sig.exponent as int,
        sf as nat,
    ));
    out
}

/// Writes zero with `sf` significant figures.
pub fn render_zero(sf: usize) -> (out: String)
    requires
        sf >= 1,
    ensures
        out@ == zero_text(sf as nat),
{
    let mut out = String::new();
    push_char(&mut out, '0');
    push_char(&mut out, '.');
    assert(out@ =~= seq!['0', '.']);
    push_zeros(&mut out, sf - 1);
    out
}

/// A number of significant figures below the least that is accepted.
#[derive(Clone, Copy, Debug, PartialEq, Eq)]
pub struct InvalidArgument {
    /// The least number of significant figures that is accepted.
    pub minimum: usize,
}

/// The words of an [`InvalidArgument`] before the number.
pub open spec fn message_head() -> Seq<char> {
    "significant figures must be at least "@
}

impl InvalidArgument {
    /// The error in words.
    pub fn message(&self) -> (out: String)
        ensures
            out@ == message_head() + nat_text(self.minimum as nat),
    {
        let mut out = String::from_str("significant figures must be at least ");
        push_nat(&mut out, self.minimum as u64);
        out
    }
}

/// Formats finite numbers in engineering notation.
pub trait FormatEng {
    /// The values that have an engineering notation.
    spec fn formattable(&self) -> bool;

    /// The notation with `sf` significant figures.
    spec fn eng_text(&self, sf: nat) -> Seq<char>;

    /// The value in engineering notation, rounded to `sf` significant
    /// figures, or to three where `sf` is `None`.
    fn format_eng(&self, sf: Option<usize>) -> (out: String)
        requires
            self.formattable(),
            figures(sf) >= MIN_FIGURES,
        ensures
            out@ == self.eng_text(figures(sf)),
    ;
}

impl FormatEng for Binary64 {
    open spec fn formattable(&self) -> bool {
        self.finite()
    }

    open spec fn eng_text(&self, sf: nat) -> Seq<char> {
        engineering_text(*self, sf)
    }

    fn format_eng(&self, sf: Option<usize>) -> (out: String) {
        format_eng(*self, sf)
    }
}

/// `x` in engineering notation, rounded to `sf` significant figures, or
/// to three where `sf` is `None`.
pub fn format_eng(x: Binary64, sf: Option<usize>) -> (out: String)
    requires
        x.finite(),
        figures(sf) >= MIN_FIGURES,
    ensures
        out@ == engineering_text(x, figures(sf)),
{
    let sf: usize = match sf {
        Some(n) => n,
        None => DEFAULT_FIGURES,
    };
    if x.is_zero() {
        render_zero(sf)
    } else {
        let exact = Decimal::from_binary64(x);
        proof {
            x.lemma_coefficient_positive();
        }
        let sig = exact.round(sf);
        render(x.is_negative(), &sig)
    }
}

/// As [`format_eng`], with the error for fewer significant figures than one.
pub fn try_format_eng(x: Binary64, sf: Option<usize>) -> (res: Result<String, InvalidArgument>)
    requires
        x.finite(),
    ensures
        match res {
            Ok(out) => figures(sf) >= MIN_FIGURES && out@ == engineering_text(x, figures(sf)),
            Err(e) => figures(sf) < MIN_FIGURES && e.minimum == MIN_FIGURES,
        },
{
    match sf {
        Some(n) if n < MIN_FIGURES => Err(InvalidArgument { minimum: MIN_FIGURES }),
        _ => Ok(format_eng(x, sf)),
    }
}

} // verus!
