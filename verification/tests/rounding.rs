
use custom_float::ieee754::FpDouble;
use custom_float::ieee754::FpSingle;

fn dbl(x: f64) -> FpDouble {
    FpDouble::from_bits(x.to_bits())
}

fn val(x: FpDouble) -> f64 {
    f64::from_bits(x.to_bits())
}

fn samples() -> Vec<f64> {
    let mut v = vec![
        0.0, -0.0, 0.5, -0.5, 1.5, -1.5, 2.5, -2.5, 0.49999999999999994, 4503599627370495.5, 4503599627370497.0,
        1.0e300, -1.0e-300, 5.0e-324, f64::INFINITY, f64::NEG_INFINITY, f64::NAN, 123.456, -987.654,
    ];
    let mut x: f64 = -10.0;
    while x < 10.0 {
        v.push(x);
        x += 0.25;
    }
    v
}

fn same(a: f64, b: f64) -> bool {
    (a.is_nan() && b.is_nan()) || a.to_bits() == b.to_bits()
}

#[test]
fn rounding_matches_native() {
    for &x in samples().iter() {
        assert!(same(val(dbl(x).floor()), x.floor()), "floor {}", x);
        assert!(same(val(dbl(x).ceil()), x.ceil()), "ceil {}", x);
        assert!(same(val(dbl(x).round()), x.round()), "round {}", x);
        assert!(same(val(dbl(x).round_ties_even()), x.round_ties_even()), "round_ties_even {}", x);
        assert!(same(val(dbl(x).trunc()), x.trunc()), "trunc {}", x);
        let f = val(dbl(x).fract());
        assert!((f.is_nan() && x.fract().is_nan()) || f == x.fract(), "fract {}", x);
    }
}

#[test]
fn euclid_matches_native() {
    let xs: [f64; 8] = [7.0, -7.0, 7.5, -7.5, 0.5, 100.25, -0.75, 3.0];
    let ys: [f64; 6] = [4.0, -4.0, 0.5, -2.5, 3.0, 1.0];
    for &x in xs.iter() {
        for &y in ys.iter() {
            assert_eq!(val(dbl(x).div_euclid(dbl(y))), x.div_euclid(y), "{} div_euclid {}", x, y);
            assert_eq!(val(dbl(x).rem_euclid(dbl(y))), x.rem_euclid(y), "{} rem_euclid {}", x, y);
        }
    }
}

#[test]
fn halving_and_doubling() {
    assert_eq!(val(dbl(3.0).mulb()), 6.0);
    assert_eq!(val(dbl(3.0).divb()), 1.5);
    assert_eq!(val(dbl(f64::MAX).mulb()), f64::INFINITY);
    assert_eq!(val(dbl(5.0e-324).divb()), 0.0);
    assert_eq!(val(dbl(1.5e-323).divb()), 1.0e-323);
}

#[test]
fn midpoint_sqrt_and_angles() {
    for &x in samples().iter() {
        for &y in [1.0, -3.0, 1.0e308, -1.0e308, 2.5e-320].iter() {
            let m = val(dbl(x).midpoint(dbl(y)));
            let w = x.midpoint(y);
            assert!((m.is_nan() && w.is_nan()) || m == w, "midpoint {} {}: {} {}", x, y, m, w);
        }
        // Four Newton steps from the guess reach the root for normal numbers.
        if x == 0.0 || !x.is_finite() || x.is_normal() {
            let s = val(dbl(x).sqrt());
            let w = x.sqrt();
            assert!((s.is_nan() && w.is_nan()) || s == w || ((s - w) / w).abs() < 1e-15, "sqrt {}: {} {}", x, s, w);
        }
        if x.is_finite() && x.abs() < 1.0e300 {
            let d = val(dbl(x).to_degrees());
            assert!((d - x.to_degrees()).abs() <= 1e-12 * x.to_degrees().abs().max(1.0), "degrees {}", x);
            let r = val(dbl(x).to_radians());
            assert!((r - x.to_radians()).abs() <= 1e-12 * x.to_radians().abs().max(1e-300), "radians {}", x);
        }
    }
    assert_eq!(val(dbl(4.0).sqrt()), 2.0);
    assert!(dbl(-4.0).sqrt().is_nan());
    let e = FpSingle::epsilon();
    assert_eq!(f32::from_bits(e.to_bits()), f32::EPSILON);
    assert_eq!(val(FpDouble::epsilon()), f64::EPSILON);
    assert_eq!(val(dbl(5.0).abs_sub(dbl(3.0))), 2.0);
    assert_eq!(val(dbl(3.0).abs_sub(dbl(5.0))), 0.0);
}

#[test]
fn bytes_give_the_bits() {
    let x: f64 = -1234.5678;
    assert_eq!(val(FpDouble::from_be_bytes(&x.to_be_bytes())), x);
    assert_eq!(val(FpDouble::from_le_bytes(&x.to_le_bytes())), x);
    assert_eq!(val(FpDouble::from_ne_bytes(&x.to_ne_bytes())), x);
}
