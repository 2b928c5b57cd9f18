use custom_float::parse::FloatErrorKind;

use custom_float::ieee754::FpDouble;
use custom_float::ieee754::FpSingle;
use custom_float::ieee754::FpHalf;

#[test]
fn test_from_str_radix_once() {
    type F = FpSingle;
    let x = F::from_int(1u8);
    let s = "1";
    let y = F::from_str_radix(s, 10).unwrap();
    assert_eq!(x.to_bits(), y.to_bits());
}

#[test]
fn from_str_radix_multi_byte_fail() {
    assert!(FpHalf::from_str_radix("™0.2", 10).is_err());
    assert!(FpHalf::from_str_radix("0.2E™1", 10).is_err());
    assert!(FpSingle::from_str_radix("™0.2", 10).is_err());
    assert!(FpSingle::from_str_radix("0.2E™1", 10).is_err());
    assert!(FpDouble::from_str_radix("™0.2", 10).is_err());
    assert!(FpDouble::from_str_radix("0.2E™1", 10).is_err());
}

#[test]
fn from_str_radix_ignore_case() {
    assert_eq!(FpHalf::from_str_radix("InF", 16).unwrap(), FpHalf::infinity());
    assert_eq!(FpHalf::from_str_radix("InfinitY", 16).unwrap(), FpHalf::infinity());
    assert_eq!(FpHalf::from_str_radix("-InF", 8).unwrap(), FpHalf::neg_infinity());
    assert_eq!(FpHalf::from_str_radix("-InfinitY", 8).unwrap(), FpHalf::neg_infinity());
    assert!(FpHalf::from_str_radix("nAn", 4).unwrap().is_nan());
    assert!(FpHalf::from_str_radix("-nAn", 4).unwrap().is_nan());

    assert_eq!(FpSingle::from_str_radix("InF", 16).unwrap(), FpSingle::infinity());
    assert_eq!(FpSingle::from_str_radix("InfinitY", 16).unwrap(), FpSingle::infinity());
    assert_eq!(FpSingle::from_str_radix("-InF", 8).unwrap(), FpSingle::neg_infinity());
    assert_eq!(FpSingle::from_str_radix("-InfinitY", 8).unwrap(), FpSingle::neg_infinity());
    assert!(FpSingle::from_str_radix("nAn", 4).unwrap().is_nan());
    assert!(FpSingle::from_str_radix("-nAn", 4).unwrap().is_nan());

    assert_eq!(FpDouble::from_str_radix("InF", 16).unwrap(), FpDouble::infinity());
    assert_eq!(FpDouble::from_str_radix("InfinitY", 16).unwrap(), FpDouble::infinity());
    assert_eq!(FpDouble::from_str_radix("-InF", 8).unwrap(), FpDouble::neg_infinity());
    assert_eq!(FpDouble::from_str_radix("-InfinitY", 8).unwrap(), FpDouble::neg_infinity());
    assert!(FpDouble::from_str_radix("nAn", 4).unwrap().is_nan());
    assert!(FpDouble::from_str_radix("-nAn", 4).unwrap().is_nan());
}

fn parse_f64(s: &str) -> f64 {
    f64::from_bits(FpDouble::from_str_radix(s, 10).unwrap().to_bits())
}

#[test]
fn parses_decimal_numbers() {
    assert_eq!(parse_f64("0"), 0.0);
    assert_eq!(parse_f64("42"), 42.0);
    assert_eq!(parse_f64("-7"), -7.0);
    assert_eq!(parse_f64("1.5"), 1.5);
    assert_eq!(parse_f64("-0.25"), -0.25);
    assert_eq!(parse_f64("3e2"), 300.0);
    assert_eq!(parse_f64("3E+2"), 300.0);
    assert_eq!(parse_f64("25e-1"), 2.5);
    assert!((parse_f64("0.1") - 0.1).abs() < 1e-15);
    assert!((parse_f64("123.456") - 123.456).abs() < 1e-12);
    assert_eq!(FpDouble::from_str_radix("ff", 16).unwrap().to_bits(), 255.0f64.to_bits());
    assert_eq!(FpDouble::from_str_radix("1p4", 16).unwrap().to_bits(), 16.0f64.to_bits());
    assert_eq!(FpDouble::from_str_radix("101", 2).unwrap().to_bits(), 5.0f64.to_bits());
}

#[test]
fn parse_errors() {
    assert_eq!(FpDouble::from_str_radix("", 10).unwrap_err().kind, FloatErrorKind::Empty);
    assert_eq!(FpDouble::from_str_radix("-", 10).unwrap_err().kind, FloatErrorKind::Empty);
    assert_eq!(FpDouble::from_str_radix("1x", 10).unwrap_err().kind, FloatErrorKind::Invalid);
    assert_eq!(FpDouble::from_str_radix("1e", 10).unwrap_err().kind, FloatErrorKind::Invalid);
    assert_eq!(FpDouble::from_str_radix("1p3", 10).unwrap_err().kind, FloatErrorKind::Invalid);
    assert_eq!(FpDouble::from_str_radix("1.2.3", 10).unwrap_err().kind, FloatErrorKind::Invalid);
    assert_eq!(FpDouble::from_str_radix("1e-x", 10).unwrap_err().kind, FloatErrorKind::Invalid);
}

#[test]
fn parse_overflow_gives_infinity() {
    assert!(FpHalf::from_str_radix("100000", 10).unwrap().is_infinite());
    assert!(FpHalf::from_str_radix("-100000", 10).unwrap().is_infinite());
    assert!(FpHalf::from_str_radix("-100000", 10).unwrap().is_sign_negative());
}

#[test]
fn test_from_str_radix() {
    let mut x: f64 = -10.0;
    while x < 10.0 {
        let s = format!("{}", x);
        let y = f64::from_bits(FpDouble::from_str_radix(&s, 10).unwrap().to_bits());
        assert!((y - x).abs() <= 0.01 * x.abs().max(1.0), "{} = {}", s, y);
        let t = format!("{}", x as f32);
        let z = f32::from_bits(FpSingle::from_str_radix(&t, 10).unwrap().to_bits());
        assert!((z - x as f32).abs() <= 0.01 * (x as f32).abs().max(1.0), "{} = {}", t, z);
        x += 0.173;
    }
}
