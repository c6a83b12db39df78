use eng_fmt::Binary64;
use eng_fmt::{Decimal, Significant};
use eng_fmt::digits::{digits_of, scale_add, trim};
use eng_fmt::notation::{digit_to_char, render, render_zero, split_exponent};

fn num(x: f64) -> Binary64 {
    Binary64::from_bits(x.to_bits())
}

#[test]
fn bits_round_trip() {
    assert_eq!(Binary64::from_bits(0x4009_21fb_5444_2d18).to_bits(), 0x4009_21fb_5444_2d18);
    assert_eq!(num(1.0).to_bits(), 0x3ff0_0000_0000_0000);
}

#[test]
fn classification() {
    assert!(num(1.0).is_finite());
    assert!(num(f64::MAX).is_finite());
    assert!(!num(f64::INFINITY).is_finite());
    assert!(!num(f64::NEG_INFINITY).is_finite());
    assert!(!num(f64::NAN).is_finite());
    assert!(num(0.0).is_zero());
    assert!(num(-0.0).is_zero());
    assert!(!num(5e-324).is_zero());
    assert!(num(-0.0).is_negative());
    assert!(num(-3.0).is_negative());
    assert!(!num(3.0).is_negative());
}

#[test]
fn abs_clears_the_sign() {
    assert_eq!(num(-3.5).abs().to_bits(), num(3.5).to_bits());
    assert_eq!(num(3.5).abs().to_bits(), num(3.5).to_bits());
}

#[test]
fn decode_gives_significand_and_exponent() {
    assert_eq!(num(1.0).decode(), (1 << 52, -52));
    assert_eq!(num(3.0).decode(), (3 << 51, -51));
    assert_eq!(num(5e-324).decode(), (1, -1074));
    assert_eq!(num(0.0).decode(), (0, -1074));
    assert_eq!(num(f64::MAX).decode(), ((1 << 53) - 1, 971));
}

#[test]
fn digits_are_lowest_first() {
    assert_eq!(digits_of(0), Vec::<u8>::new());
    assert_eq!(digits_of(7), vec![7]);
    assert_eq!(digits_of(1203), vec![3, 0, 2, 1]);
    assert_eq!(digits_of(u64::MAX).len(), 20);
}

#[test]
fn scale_add_multiplies_and_adds() {
    assert_eq!(scale_add(&vec![9, 9], 1, 1), vec![0, 0, 1]);
    assert_eq!(scale_add(&vec![5, 2, 1], 2, 0), vec![0, 5, 2]);
    assert_eq!(scale_add(&vec![5, 2, 1], 5, 3), vec![8, 2, 6]);
    assert_eq!(scale_add(&vec![9, 9, 9], 10, 9), vec![9, 9, 9, 9]);
    assert_eq!(scale_add(&vec![], 10, 0), Vec::<u8>::new());
    assert_eq!(scale_add(&vec![], 3, 4), vec![4]);
}

#[test]
fn trim_drops_high_zeros() {
    assert_eq!(trim(vec![1, 0, 2, 0, 0]), vec![1, 0, 2]);
    assert_eq!(trim(vec![0, 0]), Vec::<u8>::new());
    assert_eq!(trim(vec![4]), vec![4]);
}

#[test]
fn exact_decimal_of_binary_fractions() {
    let half = Decimal::from_binary64(num(0.5));
    assert_eq!(half.scale, -53);
    let mut expected = digits_of(1 << 52);
    for _ in 0..53 {
        expected = scale_add(&expected, 5, 0);
    }
    assert_eq!(half.digits, trim(expected));

    let three = Decimal::from_binary64(num(3.0));
    assert_eq!(three.scale, -51);
    let mut expected = vec![0; 51];
    expected.push(3);
    assert_eq!(three.digits, expected);

    let big = Decimal::from_binary64(num(9007199254740992.0 * 4.0));
    assert_eq!(big.scale, 0);
    assert_eq!(big.digits, digits_of(9007199254740992 * 4));
}

#[test]
fn exact_decimal_of_zero_is_empty() {
    let zero = Decimal::from_binary64(num(0.0));
    assert!(zero.digits.is_empty());
}

#[test]
fn round_pads_rounds_and_carries() {
    let d = Decimal { digits: vec![6, 9, 9, 9], scale: -3 };
    let r = d.round(6);
    assert_eq!((r.digits, r.exponent), (vec![0, 0, 6, 9, 9, 9], 0));
    let r = d.round(4);
    assert_eq!((r.digits, r.exponent), (vec![6, 9, 9, 9], 0));
    let r = d.round(3);
    assert_eq!((r.digits, r.exponent), (vec![0, 0, 1], 1));
    let r = d.round(1);
    assert_eq!((r.digits, r.exponent), (vec![1], 1));
    let d = Decimal { digits: vec![5, 4, 3, 2, 1], scale: 2 };
    let r = d.round(2);
    assert_eq!((r.digits, r.exponent), (vec![2, 1], 6));
    let r = d.round(4);
    assert_eq!((r.digits, r.exponent), (vec![5, 3, 2, 1], 6));
}

#[test]
fn split_exponent_floors_to_a_multiple_of_three() {
    assert_eq!(split_exponent(0), (0, 1));
    assert_eq!(split_exponent(1), (0, 2));
    assert_eq!(split_exponent(2), (0, 3));
    assert_eq!(split_exponent(3), (3, 1));
    assert_eq!(split_exponent(-1), (-3, 3));
    assert_eq!(split_exponent(-2), (-3, 2));
    assert_eq!(split_exponent(-3), (-3, 1));
    assert_eq!(split_exponent(-4), (-6, 3));
    assert_eq!(split_exponent(308), (306, 3));
    assert_eq!(split_exponent(-324), (-324, 1));
}

#[test]
fn render_places_point_and_exponent() {
    let sig = Significant { digits: vec![4, 3, 2, 1], exponent: 4 };
    assert_eq!(render(false, &sig), "12.34e3");
    assert_eq!(render(true, &sig), "-12.34e3");
    let sig = Significant { digits: vec![4, 3, 2, 1], exponent: -7 };
    assert_eq!(render(false, &sig), "123.4e-9");
    let sig = Significant { digits: vec![2, 1], exponent: 2 };
    assert_eq!(render(false, &sig), "120");
    let sig = Significant { digits: vec![2, 1], exponent: 1000 };
    assert_eq!(render(false, &sig), "12e999");
}

#[test]
fn render_zero_writes_the_point() {
    assert_eq!(render_zero(3), "0.00");
    assert_eq!(render_zero(1), "0.");
}

#[test]
fn digit_characters() {
    let all: String = (0..10).map(digit_to_char).collect();
    assert_eq!(all, "0123456789");
}
