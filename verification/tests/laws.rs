use custom_float::fp::Fp;
use custom_float::ieee754::{FpDouble, FpSingle};

fn dbl(x: f64) -> FpDouble {
    FpDouble::from_bits(x.to_bits())
}

fn values() -> Vec<f64> {
    vec![
        0.0, -0.0, 1.0, -1.0, 0.1, -2.5, 3.0e300, -4.0e-310, 5.0e-324, 7.0, f64::INFINITY, f64::NEG_INFINITY,
        f64::MAX, -f64::MAX, 123.456,
    ]
}

#[test]
fn addition_and_multiplication_commute() {
    for &x in values().iter() {
        for &y in values().iter() {
            if x == 0.0 && y == 0.0 {
                continue;
            }
            if x == -y && x.is_finite() {
                continue;
            }
            assert_eq!((dbl(x) + dbl(y)).to_bits(), (dbl(y) + dbl(x)).to_bits(), "{} + {}", x, y);
            assert_eq!((dbl(x) * dbl(y)).to_bits(), (dbl(y) * dbl(x)).to_bits(), "{} * {}", x, y);
        }
    }
}

#[test]
fn exact_cancellation_takes_the_first_sign() {
    assert!(f64::from_bits((dbl(-2.0) + dbl(2.0)).to_bits()).is_sign_negative());
    assert!(f64::from_bits((dbl(2.0) + dbl(-2.0)).to_bits()).is_sign_positive());
}

#[test]
fn next_up_is_negated_next_down_of_negation() {
    for &x in values().iter() {
        let f = dbl(x);
        assert_eq!(f.next_up().to_bits(), (-(-f).next_down()).to_bits(), "{}", x);
        assert_eq!(f.next_down().to_bits(), (-(-f).next_up()).to_bits(), "{}", x);
        assert_eq!((-(-f)).to_bits(), f.to_bits());
    }
}

#[test]
fn representable_values_convert_exactly() {
    for &x in values().iter() {
        let f = dbl(x);
        assert_eq!(FpDouble::from_fp(f).to_bits(), f.to_bits());
        let s = FpSingle::from_fp(f);
        assert_eq!(FpSingle::from_fp(FpDouble::from_fp(s)).to_bits(), s.to_bits());
        assert_eq!((f * FpDouble::one()).to_bits(), f.to_bits());
    }
    type Wide = Fp<u64, true, 11, 1, 52, 2>;
    let w = Wide::from_fp(dbl(1.5));
    assert_eq!(f64::from_bits(FpDouble::from_fp(w).to_bits()), 1.5);
}

#[test]
fn results_round_to_the_nearest_number() {
    let one = dbl(1.0);
    let ulp = 2f64.powi(-52);
    // a quarter ulp above one rounds down, three quarters round up
    assert_eq!(f64::from_bits((one + dbl(ulp / 4.0)).to_bits()), 1.0);
    assert_eq!(f64::from_bits((one + dbl(ulp * 0.75)).to_bits()), 1.0 + ulp);
    // a tie goes to the even significand
    assert_eq!(f64::from_bits((one + dbl(ulp / 2.0)).to_bits()), 1.0);
    assert_eq!(f64::from_bits((dbl(1.0 + ulp) + dbl(ulp / 2.0)).to_bits()), 1.0 + 2.0 * ulp);
    // narrowing picks the nearest single
    let third = 1.0f64 / 3.0;
    assert_eq!(f32::from_bits(FpSingle::from_fp(dbl(third)).to_bits()), third as f32);
}

#[test]
fn epsilon_is_the_step_above_one() {
    assert_eq!((FpDouble::one().next_up() - FpDouble::one()).to_bits(), FpDouble::epsilon().to_bits());
    assert_eq!((FpSingle::one().next_up() - FpSingle::one()).to_bits(), FpSingle::epsilon().to_bits());
    assert_eq!(f64::from_bits(FpDouble::epsilon().to_bits()), f64::EPSILON);
}

#[test]
fn square_roots_of_positive_numbers_are_finite_and_unsigned() {
    for &x in values().iter() {
        if x > 0.0 && x.is_finite() {
            let r = dbl(x).sqrt();
            assert!(r.is_finite() && !r.is_sign_negative(), "{}", x);
        }
    }
    assert_eq!((-dbl(5.0)).squared().to_bits(), dbl(25.0).to_bits());
}
