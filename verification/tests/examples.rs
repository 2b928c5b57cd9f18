use custom_float::ieee754::{FpDouble, FpSingle};
use custom_float::fp::Fps;
use std::cmp::Ordering;

fn d(x: f64) -> FpDouble {
    FpDouble::from_bits(x.to_bits())
}

fn s(x: f32) -> FpSingle {
    FpSingle::from_bits(x.to_bits())
}

#[test]
fn rounding_examples() {
    assert_eq!(d(3.99).floor(), d(3.0));
    assert_eq!(d(3.0).floor(), d(3.0));
    assert_eq!(d(3.01).ceil(), d(4.0));
    assert_eq!(d(4.0).ceil(), d(4.0));
    assert_eq!(d(3.3).round(), d(3.0));
    assert_eq!(d(-3.3).round(), d(-3.0));
    assert_eq!(s(3.3).round_ties_even(), s(3.0));
    assert_eq!(s(-3.3).round_ties_even(), s(-3.0));
    assert_eq!(s(3.5).round_ties_even(), s(4.0));
    assert_eq!(s(4.5).round_ties_even(), s(4.0));
    assert_eq!(d(3.3).trunc(), d(3.0));
    assert_eq!(d(-3.7).trunc(), d(-3.0));
    assert!((d(3.5).fract() - d(0.5)).abs() < d(1e-10));
    assert!((d(-3.5).fract() - d(-0.5)).abs() < d(1e-10));
}

#[test]
fn clamp_examples() {
    assert_eq!(d(1.0).max(d(2.0)), d(2.0));
    assert_eq!(d(1.0).min(d(2.0)), d(1.0));
    assert_eq!(s(1.0).maximum(s(2.0)), s(2.0));
    assert!(s(1.0).maximum(FpSingle::nan()).is_nan());
    assert_eq!(s(1.0).minimum(s(2.0)), s(1.0));
    assert!(s(1.0).minimum(FpSingle::nan()).is_nan());
    let min = s(-2.0);
    let max = FpSingle::one();
    assert_eq!(s(-3.0).clamp(min, max), s(-2.0));
    assert_eq!(FpSingle::zero().clamp(min, max), FpSingle::zero());
    assert_eq!(s(2.0).clamp(min, max), FpSingle::one());
    assert!(FpSingle::nan().clamp(min, max).is_nan());
}

#[test]
fn special_value_examples() {
    let inf = FpSingle::infinity();
    assert!(inf.is_infinite());
    assert!(!inf.is_finite());
    assert!(inf > FpSingle::max_value());
    let neg_inf = FpSingle::neg_infinity();
    assert!(neg_inf.is_infinite());
    assert!(!neg_inf.is_finite());
    assert!(neg_inf < FpSingle::min_value());
    assert!(!s(7.0).is_infinite());
    assert!(!FpSingle::nan().is_infinite());
    assert!(FpDouble::nan().is_nan());
    assert!(!d(7.0).is_nan());
    assert!(FpSingle::qnan().is_nan());
    assert!(!FpSingle::qnan().is_snan());
    assert!(FpSingle::snan().is_nan());
    assert!(FpSingle::snan().is_snan());
    assert_eq!(d(3.5).signum(), FpDouble::one());
    assert_eq!(FpDouble::neg_infinity().signum(), -FpDouble::one());
    assert!(FpDouble::nan().signum().is_nan());
}

#[test]
fn euclid_examples() {
    let a = d(7.0);
    let b = d(4.0);
    assert_eq!(a.div_euclid(b), d(1.0));
    assert_eq!((-a).div_euclid(b), d(-2.0));
    assert_eq!(a.div_euclid(-b), d(-1.0));
    assert_eq!((-a).div_euclid(-b), d(2.0));
    assert_eq!(a.rem_euclid(b), d(3.0));
    assert_eq!((-a).rem_euclid(b), d(1.0));
    assert_eq!(a.rem_euclid(-b), d(3.0));
    assert_eq!((-a).rem_euclid(-b), d(1.0));
    assert!((-FpDouble::epsilon()).rem_euclid(d(3.0)) != d(0.0));
}

#[test]
fn power_examples() {
    let x = d(1.23);
    assert!((x.powi(2i32) - x * x).abs() < d(1e-10));
    assert!((x.powi(-2i32) - (x * x).recip()).abs() < d(1e-3));
    assert!((x.powu(2u32) - x * x).abs() < d(1e-10));
}

#[test]
fn next_examples() {
    assert_eq!(FpSingle::one().next_up(), FpSingle::one() + FpSingle::epsilon());
    assert!(s(0.1).next_up() < s(0.1) + FpSingle::epsilon());
    assert_eq!(s(16777216.0).next_up(), s(16777218.0));
    let clamped = FpSingle::one().clamp(FpSingle::zero(), FpSingle::one().next_down());
    assert!(clamped < FpSingle::one());
    assert_eq!(clamped.next_up(), FpSingle::one());
}

#[test]
fn total_order_examples() {
    assert_eq!(FpDouble::nan().total_cmp(FpDouble::nan()), Ordering::Equal);
    assert_eq!(FpSingle::nan().total_cmp(FpSingle::nan()), Ordering::Equal);
    assert_eq!((-FpDouble::nan()).total_cmp(FpDouble::nan()), Ordering::Less);
    assert_eq!(FpDouble::infinity().total_cmp(FpDouble::nan()), Ordering::Less);
    assert_eq!((-FpDouble::zero()).total_cmp(FpDouble::zero()), Ordering::Less);
}

#[test]
fn limit_examples() {
    assert_eq!(FpDouble::max_value(), d(f64::MAX));
    assert_eq!(FpDouble::min_value(), d(f64::MIN));
    assert_eq!(FpDouble::min_positive_value(), d(f64::MIN_POSITIVE));
    assert_eq!(FpDouble::epsilon(), d(f64::EPSILON));
}

#[test]
fn bytes_examples() {
    assert_eq!(FpSingle::from_be_bytes(&[0x41, 0x48, 0x00, 0x00]), s(12.5));
    assert_eq!(FpSingle::from_le_bytes(&[0x00, 0x00, 0x48, 0x41]), s(12.5));
    let native: [u8; 4] = 12.5f32.to_ne_bytes();
    assert_eq!(FpSingle::from_ne_bytes(&native), s(12.5));
}

#[test]
fn other_examples() {
    assert!((d(4.0).sqrt() - d(2.0)).abs() < d(1e-10));
    assert!(d(-4.0).sqrt().is_nan());
    assert_eq!(s(1.0).midpoint(s(4.0)), s(2.5));
    assert_eq!(s(-5.5).midpoint(s(8.0)), s(1.25));
    assert!((d(2.0).mulb() - d(4.0)).abs() < d(1e-10));
    assert!((d(2.0).divb() - d(1.0)).abs() < d(1e-10));
    assert!((d(3.0).abs_sub(FpDouble::one()) - d(2.0)).abs() < d(1e-10));
    assert!((d(-3.0).abs_sub(FpDouble::one()) - FpDouble::zero()).abs() < d(1e-10));
    assert!((d(std::f64::consts::PI).to_degrees() - d(180.0)).abs() < d(1e-10));
    assert!((d(180.0).to_radians() - d(std::f64::consts::PI)).abs() < d(1e-10));
    assert!((d(2.0).recip() - (FpDouble::one() / d(2.0))).abs() < d(1e-10));
}

#[test]
fn field_examples() {
    let x = d(-1.5);
    assert_eq!(x.sign_bit(), 1);
    assert_eq!(x.exp_bits(), 1023);
    assert_eq!(x.int_bits(), 1);
    assert_eq!(x.frac_bits(), 1u64 << 51);
    assert_eq!(FpDouble::exp_bias(), 1023);
    assert_eq!(FpDouble::neg_zero().to_bits(), (-0.0f64).to_bits());
    assert!(d(-2.0).sign_eq(d(-0.5)));
    assert!(!d(2.0).sign_eq(d(-0.5)));
    assert_eq!(d(-2.0).abs_total_cmp(d(1.0)), Ordering::Greater);
    assert_eq!(d(-2.0).total_cmp(d(1.0)), Ordering::Less);
    assert_eq!(d(-2.0).abs_total_cmp(d(2.0)), Ordering::Equal);
}

#[test]
fn approximate_equality() {
    assert!(d(1.0).approx_eq(d(1.0000001)));
    assert!(d(1.0).approx_eq(d(1000.0)));
    assert!(!d(1.0).approx_eq(d(1.0e30)));
    assert!(!d(1.0).approx_eq(d(-1.0)));
    assert!(FpDouble::nan().approx_eq(FpDouble::nan()));
    assert!(!FpDouble::nan().approx_eq(d(1.0)));
    assert!(d(0.0).approx_eq(d(5.0e-324)));
    assert!(FpDouble::infinity().approx_eq(FpDouble::infinity()));
    assert!(!FpDouble::infinity().approx_eq(FpDouble::neg_infinity()));
    assert!(FpDouble::infinity().approx_eq(FpDouble::max_value()));
}

#[test]
fn nan_order_and_signed_twins() {
    assert_eq!(FpSingle::qnan().total_cmp(FpSingle::snan()), Ordering::Greater);
    assert_eq!(FpSingle::snan().total_cmp(FpSingle::qnan()), Ordering::Less);
    assert_eq!((-FpSingle::qnan()).total_cmp(-FpSingle::snan()), Ordering::Less);
    assert_eq!(FpSingle::infinity().total_cmp(FpSingle::snan()), Ordering::Less);

    type S = Fps<u32, true, 8, 0, 23, 2>;
    assert_eq!(S::epsilon().collect().to_bits(), FpSingle::epsilon().to_bits());
    assert_eq!(f32::from_bits(S::epsilon().collect().to_bits()), f32::EPSILON);
    assert!(S::one().is_one());
    assert!(!Fps(s(2.0), false).is_one());
    assert!(!Fps(s(1.0), true).is_one());
    assert!(Fps(s(-1.0), true).is_one());
}

#[test]
fn powers_of_two() {
    for k in -20i32..20 {
        let x = d(k as f64);
        assert!(x.expb_fraction().is_none(), "{}", k);
        let y = x.expb_with(FpDouble::one());
        assert_eq!(f64::from_bits(y.to_bits()), 2f64.powi(k), "{}", k);
    }
    let h = d(0.5);
    let f = h.expb_fraction().unwrap();
    let p = d(f64::from_bits(f.to_bits()).exp2());
    let y = f64::from_bits(h.expb_with(p).to_bits());
    assert!((y - 2f64.sqrt()).abs() < 1e-10, "{}", y);
    assert_eq!(f64::from_bits(FpDouble::zero().expb_with(FpDouble::one()).to_bits()), 1.0);
    assert_eq!(f64::from_bits(FpDouble::neg_infinity().expb_with(FpDouble::one()).to_bits()), 0.0);
    assert!(FpDouble::infinity().expb_with(FpDouble::one()).is_infinite());
    assert!(FpDouble::nan().expb_with(FpDouble::one()).is_nan());
    assert!(d(2000.0).expb_with(FpDouble::one()).is_infinite());
}

#[test]
fn machine_sized_integers() {
    assert_eq!(f64::from_bits(FpDouble::from_int(12345usize).to_bits()), 12345.0);
    assert_eq!(f64::from_bits(FpDouble::from_int(-77isize).to_bits()), -77.0);
    assert_eq!(d(-77.9).to_int::<isize>(), Some(-77));
    assert_eq!(d(-1.0).to_int::<usize>(), None);
    assert_eq!(d(3.0).squared().to_bits(), (-d(3.0)).squared().to_bits());
    assert_eq!(d(3.0).mulb().divb().to_bits(), d(3.0).to_bits());
}

#[test]
fn signed_twin_from_integers() {
    type U = Fps<u32, false, 8, 0, 24, 2>;
    let x = U::from_int(-3i32);
    assert!(x.1);
    assert_eq!(x.0.to_bits(), 0x8080_0000);
    let y = Fps::<u32, true, 8, 0, 23, 2>::from_int(-3i32);
    assert_eq!(f32::from_bits(y.collect().to_bits()), -3.0);
}

#[test]
fn decimal_layouts_convert_without_rounding() {
    type D = custom_float::fp::Fp<u64, true, 11, 0, 52, 10>;
    type Dn = custom_float::fp::Fp<u64, true, 11, 0, 50, 10>;
    let x = Dn::from_bits(0x8123_4567_89ab_cdef >> 2);
    let y = D::from_fp(x);
    assert_eq!(y.to_bits(), (0x8123_4567_89ab_cdef >> 2) << 2);
    let z = D::from_bits(0xc000_0000_0000_0001);
    assert_eq!(D::from_fp(z).to_bits(), 0xc000_0000_0000_0001);
}

#[test]
fn decimal_mulb_and_divb_move_the_exponent() {
    type D = custom_float::fp::Fp<u64, true, 11, 0, 52, 10>;
    let x = D::from_bits((1000u64 << 52) | 0x1234);
    let y = x.mulb();
    assert_eq!(y.to_bits(), (1001u64 << 52) | 0x1234);
    assert_eq!(y.divb().to_bits(), x.to_bits());
    let n = D::from_bits((1u64 << 63) | (7u64 << 52) | 5);
    assert_eq!(n.divb().to_bits(), (1u64 << 63) | (6u64 << 52) | 5);
    let top = D::from_bits(2046u64 << 52);
    assert!(top.mulb().is_infinite());
    assert!(D::nan().mulb().is_nan());
}
