//! Exact decimal values and their rounding to significant figures.

use vstd::prelude::*;
use vstd::arithmetic::div_mod::lemma_fundamental_div_mod_converse;
use crate::binary64::Binary64;
use crate::digits::{
    digit_count, digits_of, is_digits, lemma_digit_count, lemma_power_positive, lemma_value_bound,
    lemma_value_lower_bound, lemma_value_push, lemma_value_split, lemma_value_zeros, power,
    scale_add, trim, value,
};

verus! {

/// The most digits a [`Decimal`] holds.
pub const MAX_DIGITS: usize = 2048;

/// The magnitude `coefficient * 10^scale`.
pub struct Decimal {
    /// The coefficient's digits, lowest first, without leading zeros.
    pub digits: Vec<u8>,
    /// The power of ten that the coefficient is multiplied by.
    pub scale: i32,
}

/// A magnitude of exactly `digits.len()` significant figures:
/// `d.ddd * 10^exponent`, where `d.ddd` are the digits, highest first.
pub struct Significant {
    /// The digits, lowest first.
    pub digits: Vec<u8>,
    /// The power of ten of the highest digit.
    pub exponent: i32,
}

/// The power of ten of the highest digit of `c * 10^scale`: the integer
/// `e` with `10^e <= c * 10^scale < 10^(e + 1)`, for `c` above zero.
pub open spec fn sci_exponent(c: nat, scale: int) -> int {
    digit_count(c) - 1 + scale
}

/// `c` brought to `sf` digits: padded with zeros where it has fewer, and
/// rounded to the nearest where it has more, a tie going up. The result
/// has `sf` digits, or is ten to the `sf`.
pub open spec fn round_to_digits(c: nat, sf: nat) -> nat {
    let n = digit_count(c);
    if n <= sf {
        c * power(10, (sf - n) as nat)
    } else {
        (c + 5 * power(10, (n - sf - 1) as nat)) / power(10, (n - sf) as nat)
    }
}

/// Rounding `c` to `sf` digits gave one digit more.
pub open spec fn carries(c: nat, sf: nat) -> bool {
    round_to_digits(c, sf) == power(10, sf)
}

/// The `sf` significant figures of `c`, as a number of exactly `sf` digits.
pub open spec fn rounded_coefficient(c: nat, sf: nat) -> nat {
    if carries(c, sf) {
        power(10, (sf - 1) as nat)
    } else {
        round_to_digits(c, sf)
    }
}

/// The power of ten of the highest of the `sf` significant figures of `c * 10^scale`.
pub open spec fn rounded_exponent(c: nat, scale: int, sf: nat) -> int {
    if carries(c, sf) {
        sci_exponent(c, scale) + 1
    } else {
        sci_exponent(c, scale)
    }
}

/// Rounding by the first digit that is dropped: the quotient goes up
/// exactly when that digit is five or more.
pub proof fn lemma_round_by_digit(s: Seq<u8>, drop: int)
    requires
        is_digits(s),
        1 <= drop <= s.len(),
    ensures
        (value(s) + 5 * power(10, (drop - 1) as nat)) / power(10, drop as nat) == value(
            s.skip(drop),
        ) + if s[drop - 1] >= 5 {
            1nat
        } else {
            0nat
        },
{
    let low = s.take(drop - 1);
    let d = s[drop - 1];
    let p = power(10, (drop - 1) as nat);
    let top = value(s.skip(drop));
    let lo = value(low);
    lemma_value_split(s, drop);
    assert(s.take(drop) =~= low.push(d));
    lemma_value_push(low, d);
    assert(is_digits(low));
    lemma_value_bound(low);
    lemma_power_positive(10, (drop - 1) as nat);
    assert(power(10, drop as nat) == 10 * p);
    let x = value(s) + 5 * p;
    assert(value(s) == lo + d * p + (10 * p) * top);
    if d >= 5 {
        let r = (d - 5) * p + lo;
        assert(0 <= r < 10 * p && x == (top + 1) * (10 * p) + r) by (nonlinear_arith)
            requires
                x == lo + d * p + (10 * p) * top + 5 * p,
                5 <= d <= 9,
                0 <= lo < p,
                r == (d - 5) * p + lo,
        ;
        lemma_fundamental_div_mod_converse(x as int, (10 * p) as int, (top + 1) as int, r);
    } else {
        let r = (d + 5) * p + lo;
        assert(0 <= r < 10 * p && x == top * (10 * p) + r) by (nonlinear_arith)
            requires
                x == lo + d * p + (10 * p) * top + 5 * p,
                0 <= d <= 4,
                0 <= lo < p,
                r == (d + 5) * p + lo,
        ;
        lemma_fundamental_div_mod_converse(x as int, (10 * p) as int, top as int, r as int);
    }
}

impl Significant {
    /// The number that the digits spell.
    pub open spec fn coefficient(&self) -> nat {
        value(self.digits@)
    }

    /// The digits are decimal, there is at least one, and the exponent is bounded.
    pub open spec fn wf(&self) -> bool {
        &&& is_digits(self.digits@)
        &&& self.digits@.len() >= 1
        &&& -2 * MAX_DIGITS <= self.exponent <= 2 * MAX_DIGITS
    }
}

impl Decimal {
    /// The number that the digits spell.
    pub open spec fn coefficient(&self) -> nat {
        value(self.digits@)
    }

    /// The digits are decimal, the highest is not zero, and the size is bounded.
    pub open spec fn wf(&self) -> bool {
        &&& is_digits(self.digits@)
        &&& self.digits@.len() > 0 ==> self.digits@.last() != 0
        &&& self.digits@.len() <= MAX_DIGITS
        &&& -(MAX_DIGITS as int) <= self.scale <= MAX_DIGITS
    }

    /// The exact decimal value of a finite binary number's magnitude.
    pub fn from_binary64(x: Binary64) -> (d: Decimal)
        requires
            x.finite(),
        ensures
            d.wf(),
            d.coefficient() == x.coefficient(),
            d.scale == x.scale(),
    {
        let (m, e) = x.decode();
        let factor: u8 = if e >= 0 {
            2
        } else {
            5
        };
        let steps: i32 = if e >= 0 {
            e
        } else {
            -e
        };
        let mut digits = digits_of(m);
        let mut i: i32 = 0;
        proof {
            let p = power(factor as nat, 0);
            assert(p == 1);
            assert(m * p == m) by (nonlinear_arith)
                requires
                    p == 1,
            ;
        }
        while i < steps
            invariant
                0 <= i <= steps <= 1074,
                factor == 2 || factor == 5,
                is_digits(digits@),
                digits@.len() <= 20 + i,
                value(digits@) == m * power(factor as nat, i as nat),
            decreases steps - i,
        {
            proof {
                let p = power(factor as nat, i as nat);
                assert(power(factor as nat, (i + 1) as nat) == factor * p);
                assert(factor * (m * p) == m * (factor * p)) by (nonlinear_arith);
            }
            digits = scale_add(&digits, factor, 0);
            i += 1;
        }
        let digits = trim(digits);
        Decimal {
            digits,
            scale: if e >= 0 {
                0
            } else {
                e
            },
        }
    }

    /// Rounds a nonzero magnitude to `sf` significant figures, a tie going
    /// away from zero.
    pub fn round(&self, sf: usize) -> (r: Significant)
        requires
            self.wf(),
            self.coefficient() > 0,
            sf >= 1,
        ensures
            r.wf(),
            r.digits@.len() == sf,
            r.coefficient() == rounded_coefficient(self.coefficient(), sf as nat),
            r.exponent == rounded_exponent(self.coefficient(), self.scale as int, sf as nat),
    {
        let n: usize = self.digits.len();
        assert(n > 0) by {
            if n == 0 {
                assert(value(self.digits@) == 0);
            }
        }
        proof {
            lemma_value_bound(self.digits@);
            lemma_value_lower_bound(self.digits@);
            lemma_digit_count(self.coefficient(), n as nat);
        }
        let exponent: i32 = (n as i32 - 1) + self.scale;
        if n <= sf {
            let pad: usize = sf - n;
            let mut out: Vec<u8> = Vec::new();
            let mut i: usize = 0;
            while i < pad
                invariant
                    i <= pad,
                    out@.len() == i,
                    forall|j: int| 0 <= j < i ==> #[trigger] out@[j] == 0,
                decreases pad - i,
            {
                out.push(0);
                i += 1;
            }
            let mut k: usize = 0;
            while k < n
                invariant
                    k <= n,
                    n == self.digits@.len(),
                    pad + n == sf,
                    out@.len() == pad + k,
                    forall|j: int| 0 <= j < pad ==> #[trigger] out@[j] == 0,
                    forall|j: int| 0 <= j < k ==> #[trigger] out@[pad + j] == self.digits@[j],
                decreases n - k,
            {
                out.push(self.digits[k]);
                k += 1;
            }
            proof {
                lemma_value_split(out@, pad as int);
                lemma_value_zeros(out@.take(pad as int));
                assert(out@.skip(pad as int) =~= self.digits@) by {
                    assert forall|j: int| 0 <= j < n implies out@.skip(pad as int)[j]
                        == self.digits@[j] by {
                        assert(out@[pad + j] == self.digits@[j]);
                    }
                }
                assert(is_digits(out@)) by {
                    assert forall|j: int| 0 <= j < out@.len() implies #[trigger] out@[j] < 10 by {
                        if j >= pad {
                            assert(out@[pad + (j - pad)] == self.digits@[j - pad]);
                        }
                    }
                }
                lemma_value_bound(out@);
                assert(power(10, pad as nat) * value(self.digits@) == value(self.digits@) * power(
                    10,
                    pad as nat,
                )) by (nonlinear_arith);
            }
            Significant { digits: out, exponent }
        } else {
            let drop: usize = n - sf;
            let mut top: Vec<u8> = Vec::new();
            let mut k: usize = drop;
            while k < n
                invariant
                    drop <= k <= n,
                    n == self.digits@.len(),
                    top@ == self.digits@.subrange(drop as int, k as int),
                decreases n - k,
            {
                top.push(self.digits[k]);
                proof {
                    assert(self.digits@.subrange(drop as int, k + 1) =~= self.digits@.subrange(
                        drop as int,
                        k as int,
                    ).push(self.digits@[k as int]));
                }
                k += 1;
            }
            proof {
                assert(top@ =~= self.digits@.skip(drop as int));
                lemma_round_by_digit(self.digits@, drop as int);
                assert(is_digits(top@));
                lemma_value_bound(top@);
            }
            if self.digits[drop - 1] >= 5 {
                let up = scale_add(&top, 1, 1);
                proof {
                    assert(1 * value(top@) == value(top@));
                    lemma_value_bound(up@);
                }
                if up.len() > sf {
                    proof {
                        lemma_value_lower_bound(up@);
                    }
                    let mut out: Vec<u8> = Vec::new();
                    let mut i: usize = 0;
                    while i < sf - 1
                        invariant
                            i <= sf - 1,
                            out@.len() == i,
                            forall|j: int| 0 <= j < i ==> #[trigger] out@[j] == 0,
                        decreases sf - 1 - i,
                    {
                        out.push(0);
                        i += 1;
                    }
                    proof {
                        lemma_value_zeros(out@);
                        lemma_value_push(out@, 1);
                        assert(1 * power(10, (sf - 1) as nat) == power(10, (sf - 1) as nat));
                    }
                    out.push(1);
                    Significant { digits: out, exponent: exponent + 1 }
                } else {
                    Significant { digits: up, exponent }
                }
            } else {
                Significant { digits: top, exponent }
            }
        }
    }
}

} // verus!
