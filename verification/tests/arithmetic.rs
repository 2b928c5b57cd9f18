
use custom_float::ieee754::FpDouble;
use custom_float::ieee754::FpSingle;
use custom_float::ieee754::FpHalf;
use custom_float::khronos::KhronosFp10;

fn dbl(x: f64) -> FpDouble {
    FpDouble::from_bits(x.to_bits())
}

fn sgl(x: f32) -> FpSingle {
    FpSingle::from_bits(x.to_bits())
}

fn to_f32(x: FpSingle) -> f32 {
    f32::from_bits(x.to_bits())
}

/// Values of every kind: zeros, subnormals, normals, the extremes, infinities and NaN.
fn singles() -> Vec<f32> {
    let mut v = vec![
        0.0, -0.0, 1.0, -1.0, 0.5, 2.0, 3.0, -16.0, 0.1, 7.25, 1.5, -0.3, 1.0e-40, -1.0e-45, 3.0e38,
        f32::MAX, f32::MIN_POSITIVE, f32::EPSILON, f32::INFINITY, f32::NEG_INFINITY, f32::NAN, 123456.79,
        -9.875e-3, 8388608.0, 16777217.0,
    ];
    let mut x: f32 = -10.0;
    while x < 10.0 {
        v.push(x);
        x += 0.37;
    }
    v
}

fn doubles() -> Vec<f64> {
    let mut v = vec![
        0.0, -0.0, 1.0, -1.0, 0.5, 2.0, -16.0, 0.1, 3.5e300, -2.0e-310, 1.0e-320, 7.25, 123456.789, 1.0e308,
        -3.0, 2.2250738585072014e-308, 0.3333333333333333, f64::MAX, f64::MIN_POSITIVE, f64::INFINITY,
        f64::NEG_INFINITY, f64::NAN, 4.0e15, -6.02e23,
    ];
    let mut x: f64 = -10.0;
    while x < 10.0 {
        v.push(x);
        x += 0.29;
    }
    v
}

/// Equal values: NaN matches NaN and the zeros match each other, as the library gives an exact
/// zero the sign of its first operand.
fn same_f32(a: f32, b: f32) -> bool {
    (a.is_nan() && b.is_nan()) || a == b
}

fn same_f64(a: f64, b: f64) -> bool {
    (a.is_nan() && b.is_nan()) || a == b
}

/// Checks an operation of the library against the native one on all pairs of sample values.
fn check_op2(name: &str, op: fn(FpSingle, FpSingle) -> FpSingle, native: fn(f32, f32) -> f32) {
    for &x in singles().iter() {
        for &y in singles().iter() {
            let got = to_f32(op(sgl(x), sgl(y)));
            let want = native(x, y);
            assert!(same_f32(got, want), "{} {} {}: got {} want {}", x, name, y, got, want);
        }
    }
}

fn check_op2_double(name: &str, op: fn(FpDouble, FpDouble) -> FpDouble, native: fn(f64, f64) -> f64) {
    for &x in doubles().iter() {
        for &y in doubles().iter() {
            let got = f64::from_bits(op(dbl(x), dbl(y)).to_bits());
            let want = native(x, y);
            assert!(same_f64(got, want), "{} {} {}: got {} want {}", x, name, y, got, want);
        }
    }
}

#[test]
fn test_add_once() {
    type F = FpDouble;
    let a = F::from_fp(sgl(1.0));
    let b = F::from_fp(sgl(-16.0));
    let c = a + b;
    assert_eq!(f64::from_bits(c.to_bits()), -15.0);
}

#[test]
fn test_add() {
    check_op2("+", |a, b| a + b, |a, b| a + b);
    check_op2_double("+", |a, b| a + b, |a, b| a + b);
}

#[test]
fn test_sub() {
    check_op2("-", |a, b| a - b, |a, b| a - b);
    check_op2_double("-", |a, b| a - b, |a, b| a - b);
}

#[test]
fn test_mul_once() {
    type F = FpHalf;
    let a = F::one();
    let b = F::from_int(8388608i32);
    let c = a * b;
    assert!(b.is_infinite());
    assert!(c.is_infinite());
}

#[test]
fn test_mul() {
    check_op2("*", |a, b| a * b, |a, b| a * b);
    check_op2_double("*", |a, b| a * b, |a, b| a * b);
}

#[test]
fn test_div_once() {
    type F = FpDouble;
    let a = dbl(4.0);
    let b = dbl(2.0);
    let c = a / b;
    assert_eq!(f64::from_bits(c.to_bits()), 2.0);
}

#[test]
fn test_div() {
    check_op2("/", |a, b| a / b, |a, b| a / b);
    check_op2_double("/", |a, b| a / b, |a, b| a / b);
}

#[test]
fn test_inv_once() {
    type F = KhronosFp10;
    let x = -F::one();
    let y = x.recip();
    assert!(x.is_nan());
    assert!(y.is_nan());
    let two = F::from_int(2u8);
    assert_eq!(two.recip().to_bits(), F::from_int(1u8).divb().to_bits());
}

#[test]
fn test_rem() {
    check_op2("%", |a, b| a % b, |a, b| a % b);
    check_op2_double("%", |a, b| a % b, |a, b| a % b);
}

#[test]
fn recip_and_squared_match_native() {
    for &x in doubles().iter() {
        assert!(same_f64(f64::from_bits(dbl(x).recip().to_bits()), 1.0 / x), "1 / {}", x);
        assert!(same_f64(f64::from_bits(dbl(x).squared().to_bits()), x * x), "{}^2", x);
    }
}

#[test]
fn conversions_match_native() {
    for &x in singles().iter() {
        assert!(same_f64(f64::from_bits(FpDouble::from_fp(sgl(x)).to_bits()), x as f64));
    }
    for &x in doubles().iter() {
        assert!(same_f32(to_f32(FpSingle::from_fp(dbl(x))), x as f32), "{} as f32", x);
    }
}

#[test]
fn test_inv() {
    let mut x: f64 = 0.1;
    while x < 10.0 {
        assert!(same_f64(f64::from_bits(dbl(x).recip().to_bits()), 1.0 / x), "1 / {}", x);
        assert!(same_f64(f64::from_bits(dbl(-x).recip().to_bits()), -1.0 / x), "1 / -{}", x);
        let s = x as f32;
        assert_eq!(to_f32(sgl(s).recip()).to_bits(), (1.0 / s).to_bits(), "1 / {}", s);
        x += 0.0371;
    }
}
