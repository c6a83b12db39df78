use eng_fmt::Binary64;
use eng_fmt::FormatEng;

fn num(x: f64) -> Binary64 {
    Binary64::from_bits(x.to_bits())
}

#[test]
fn test_2() {
    assert_eq!(num(2_f64).format_eng(None), String::from("2.00"));
}

#[test]
fn test_pi_div_10() {
    assert_eq!(
        num(std::f64::consts::PI / 10.).format_eng(None),
        String::from("314e-3")
    );
}

#[test]
fn test_pi_div_5() {
    assert_eq!(
        num(std::f64::consts::PI / 5.).format_eng(Some(4)),
        String::from("628.3e-3")
    );
}

#[test]
fn test_n_pi_div_10() {
    assert_eq!(
        num(-std::f64::consts::PI / 10.).format_eng(None),
        String::from("-314e-3")
    );
}

#[test]
fn test_pi_div_100() {
    assert_eq!(
        num(std::f64::consts::PI / 10.).format_eng(None),
        String::from("314e-3")
    );
}

#[test]
fn test_pi_div_1000() {
    assert_eq!(
        num(std::f64::consts::PI / 10.).format_eng(None),
        String::from("314e-3")
    );
}

#[test]
fn test_pi() {
    assert_eq!(num(std::f64::consts::PI).format_eng(None), String::from("3.14"));
}

#[test]
fn test_33p333() {
    assert_eq!(num(33.333_f64).format_eng(Some(7)), String::from("33.33300"));
}

#[test]
fn test_66p666() {
    assert_eq!(num(66.666_f64).format_eng(None), String::from("66.7"));
}

#[test]
fn test_333p33() {
    assert_eq!(num(333.33_f64).format_eng(None), String::from("333"));
}

#[test]
fn test_666p66() {
    assert_eq!(num(666.66_f64).format_eng(None), String::from("667"));
}

#[test]
fn test_3p3333e3() {
    assert_eq!(num(3.3333e3_f64).format_eng(None), String::from("3.33e3"));
}

#[test]
fn test_6p6666e3() {
    assert_eq!(num(6.6666e3_f64).format_eng(None), String::from("6.67e3"));
}

#[test]
fn test_33p333e6() {
    assert_eq!(num(33.333e6_f64).format_eng(None), String::from("33.3e6"));
}

#[test]
fn test_66p666e6() {
    assert_eq!(num(66.666e6_f64).format_eng(None), String::from("66.7e6"));
}

#[test]
fn test_2pi_5d() {
    assert_eq!(
        num(std::f64::consts::PI * 2.).format_eng(Some(5)),
        String::from("6.2832")
    );
}

#[test]
fn test_n2pi_5d() {
    assert_eq!(
        num(-std::f64::consts::PI * 2.).format_eng(Some(5)),
        String::from("-6.2832")
    );
}

#[test]
fn test_n2pi_2d() {
    assert_eq!(
        num(-std::f64::consts::PI * 2.).format_eng(Some(2)),
        String::from("-6.3")
    );
}

#[test]
fn test_n2pi_e5_2d() {
    assert_eq!(
        num(-std::f64::consts::PI * 2. * 10_f64.powi(5)).format_eng(Some(2)),
        String::from("-630e3")
    );
}

#[test]
fn test_2pi_e5_1d() {
    assert_eq!(
        num(std::f64::consts::PI * 2. * 10_f64.powi(5)).format_eng(Some(1)),
        String::from("600e3")
    );
}

#[test]
fn test_pi_1d() {
    assert_eq!(
        num(std::f64::consts::PI).format_eng(Some(1)),
        String::from("3")
    );
}

#[test]
fn test_zero_5sf() {
    assert_eq!(num(0_f64).format_eng(Some(5)), String::from("0.0000"));
}

#[test]
fn test_zero() {
    assert_eq!(num(0_f64).format_eng(None), String::from("0.00"));
}

#[test]
fn test_1_000() {
    assert_eq!(num(1e3).format_eng(None), String::from("1.00e3"));
}

#[test]
fn test_1div1e6() {
    assert_eq!(num(1e-6).format_eng(None), String::from("1.00e-6"));
}

#[test]
fn test_1div10_000() {
    assert_eq!(num(1e-4).format_eng(None), String::from("100e-6"));
}

#[test]
fn test_1div1_000() {
    assert_eq!(num(0.001).format_eng(None), String::from("1.00e-3"));
}

#[test]
fn test_1div100() {
    assert_eq!(num(0.010).format_eng(None), String::from("10.0e-3"));
}

#[test]
fn test_1div10() {
    assert_eq!(num(0.100).format_eng(None), String::from("100e-3"));
}

#[test]
fn test_1() {
    assert_eq!(num(1.0).format_eng(None), String::from("1.00"));
}

#[test]
fn test_10() {
    assert_eq!(num(10.0).format_eng(None), String::from("10.0"));
}

#[test]
fn test_one() {
    assert_eq!(num(1_f64).format_eng(None), String::from("1.00"));
}

#[test]
fn test_pi_5d() {
    assert_eq!(
        num(std::f64::consts::PI).format_eng(Some(5)),
        String::from("3.1416")
    );
}
