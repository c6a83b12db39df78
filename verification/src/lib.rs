//! Engineering notation for double-precision numbers.
//!
//! A number is taken as its IEEE 754 bit pattern ([`Binary64`]), expanded to
//! its exact decimal value ([`Decimal`]), rounded to a number of significant
//! figures ([`Significant`]) and written with an exponent that is a multiple
//! of three and one to three digits before the decimal point.
//!
//! Every step is integer arithmetic on decimal digits, so the text is the
//! correctly rounded value of the number, with a tie going away from zero.

pub mod binary64;
pub mod decimal;
pub mod digits;
pub mod laws;
pub mod notation;

pub use crate::binary64::Binary64;
pub use crate::decimal::{Decimal, Significant};
pub use crate::notation::{format_eng, try_format_eng, FormatEng, InvalidArgument};
