use custom_float::fp::Fp;

use custom_float::ieee754::FpDouble;
use custom_float::ieee754::FpSingle;
type FpUnsigned = Fp<u16, false, 5, 0, 10, 2>;

fn dbl(x: f64) -> FpDouble {
    FpDouble::from_bits(x.to_bits())
}

fn val(x: FpDouble) -> f64 {
    f64::from_bits(x.to_bits())
}

#[test]
fn from_int_is_exact_or_rounded() {
    assert_eq!(val(FpDouble::from_int(0i32)), 0.0);
    assert_eq!(val(FpDouble::from_int(-5i8)), -5.0);
    assert_eq!(val(FpDouble::from_int(u128::MAX)), u128::MAX as f64);
    assert_eq!(val(FpDouble::from_int(i128::MIN)), i128::MIN as f64);
    assert_eq!(val(FpDouble::from_int((1u64 << 53) + 1)), ((1u64 << 53) + 1) as f64);
    assert_eq!(f32::from_bits(FpSingle::from_int(16777217u32).to_bits()), 16777217u32 as f32);
    assert!(FpUnsigned::from_int(-3i16).is_nan());
}

#[test]
fn to_int_cuts_towards_zero() {
    assert_eq!(dbl(2.7).to_int::<i32>(), Some(2));
    assert_eq!(dbl(-2.7).to_int::<i32>(), Some(-2));
    assert_eq!(dbl(-0.5).to_int::<i32>(), Some(0));
    assert_eq!(dbl(-0.5).to_int::<u32>(), None);
    assert_eq!(dbl(-0.0).to_int::<u8>(), Some(0));
    assert_eq!(dbl(255.9).to_int::<u8>(), Some(255));
    assert_eq!(dbl(256.0).to_int::<u8>(), None);
    assert_eq!(dbl(-128.0).to_int::<i8>(), Some(-128));
    assert_eq!(dbl(-129.0).to_int::<i8>(), None);
    assert_eq!(dbl(f64::NAN).to_int::<i64>(), None);
    assert_eq!(dbl(f64::INFINITY).to_int::<i64>(), None);
    assert_eq!(dbl(1.0e300).to_int::<u128>(), None);
}

#[test]
fn to_int_wrapping_wraps() {
    assert_eq!(dbl(300.0).to_int_wrapping::<u8>(), 44);
    assert_eq!(dbl(-1.0).to_int_wrapping::<u8>(), 255);
    assert_eq!(dbl(200.0).to_int_wrapping::<i8>(), -56);
    assert_eq!(dbl(f64::NAN).to_int_wrapping::<i32>(), 0);
    assert_eq!(dbl(f64::INFINITY).to_int_wrapping::<i32>(), i32::MAX);
    assert_eq!(dbl(f64::NEG_INFINITY).to_int_wrapping::<i32>(), i32::MIN);
    assert_eq!(dbl(f64::NEG_INFINITY).to_int_wrapping::<u32>(), 1);
    assert_eq!(dbl(1.0e300).to_int_wrapping::<u64>(), 0);
    assert_eq!(dbl(4294967296.0 + 7.0).to_int_wrapping::<u32>(), 7);
}

#[test]
fn integer_arithmetic() {
    assert_eq!(val(dbl(1.5).add_int(2u8)), 3.5);
    assert_eq!(val(dbl(1.5).sub_int(2u8)), -0.5);
    assert_eq!(val(dbl(0.0).sub_int(2u8)), -2.0);
    assert_eq!(val(dbl(1.5).mul_int(-4i32)), -6.0);
    assert_eq!(val(dbl(1.5).div_int(-3i32)), -0.5);
    assert!(dbl(0.0).div_int(0u8).is_nan());
    assert_eq!(val(dbl(7.0).rem_int(4u8)), 3.0);
    assert_eq!(val(dbl(1.0).add_int_diff(3u8, 5u8)), -1.0);
    assert_eq!(val(dbl(1.0).add_int_diff(5u8, 3u8)), 3.0);
    assert_eq!(val(dbl(-1.0).mul_int(0u8)), -0.0);
    assert!(val(dbl(-1.0).mul_int(0u8)).is_sign_negative());
}

#[test]
fn powers() {
    assert_eq!(val(dbl(2.0).powi(10i32)), 1024.0);
    assert_eq!(val(dbl(2.0).powi(-2i32)), 0.25);
    assert_eq!(val(dbl(3.0).powu(4u32)), 81.0);
    assert_eq!(val(dbl(5.0).powu(0u32)), 1.0);
    assert!((val(dbl(1.1).powi(7i32)) - 1.1f64.powi(7)).abs() < 1e-14);
}
