use custom_float::fp::Fp;

use custom_float::ieee754::FpSingle;
use custom_float::ieee754::FpHalf;

#[test]
fn test_next_up_down() {
    let mut x: f32 = -10.0;
    while x < 10.0 {
        let f = FpSingle::from_bits(x.to_bits());
        assert_eq!(f32::from_bits(f.next_up().to_bits()), x.next_up());
        assert_eq!(f32::from_bits(f.next_down().to_bits()), x.next_down());
        x += 0.173;
    }

    type F = Fp<u8, true, 3, 1, 3, { usize::MAX }>;

    let mut x = F::neg_infinity();

    loop {
        let y = x.next_up();
        if !y.is_zero() {
            assert_ne!(x, y);
        }
        assert_eq!(-(-x).next_down(), y);
        assert_eq!(x, y.next_down());
        x = y;
        if !x.is_finite() {
            break;
        }
    }

    loop {
        let y = x.next_down();
        if !y.is_zero() {
            assert_ne!(x, y);
        }
        assert_eq!(-(-x).next_up(), y);
        assert_eq!(x, y.next_up());
        x = y;
        if !x.is_finite() {
            break;
        }
    }
}

#[test]
fn zeros_step_to_the_smallest_numbers() {
    let tiny = f32::from_bits(1);
    for &z in [0.0f32, -0.0].iter() {
        let f = FpSingle::from_bits(z.to_bits());
        assert_eq!(f32::from_bits(f.next_up().to_bits()).to_bits(), tiny.to_bits());
        assert_eq!(f32::from_bits(f.next_down().to_bits()).to_bits(), (-tiny).to_bits());
        assert_eq!(f32::from_bits(f.next_up().to_bits()), z.next_up());
        assert_eq!(f32::from_bits(f.next_down().to_bits()), z.next_down());
    }
    let t = FpSingle::from_bits(1);
    assert_eq!(t.next_down().to_bits(), 0);
    assert_eq!((-t).next_up().to_bits(), (-0.0f32).to_bits());
}

#[test]
fn next_up_is_the_least_greater_number() {
    let samples: Vec<u16> = vec![0x0000, 0x8000, 0x0001, 0x8001, 0x3c00, 0xbc00, 0x7bff, 0xfbff, 0xfc00, 0x03ff, 0x8400];
    for &b in samples.iter() {
        let x = FpHalf::from_bits(b);
        let up = x.next_up();
        let down = x.next_down();
        assert!(up > x, "{:#x}", b);
        assert!(down < x || b == 0xfc00, "{:#x}", b);
        for zb in 0..=u16::MAX {
            let z = FpHalf::from_bits(zb);
            if z > x {
                assert!(!(z < up), "{:#x} {:#x}", b, zb);
            }
            if z < x {
                assert!(!(z > down), "{:#x} {:#x}", b, zb);
            }
        }
    }
}

#[test]
fn explicit_wide_base_steps_return_bitwise() {
    type F = Fp<u8, true, 3, 1, 3, { usize::MAX }>;
    let mut x = F::neg_infinity();
    loop {
        let y = x.next_up();
        if !x.is_zero() {
            assert_eq!(y.next_down().to_bits(), x.to_bits(), "{:#x}", x.to_bits());
        }
        x = y;
        if !x.is_finite() {
            break;
        }
    }
}

#[test]
fn explicit_radix_two_steps_return_bitwise() {
    type F = Fp<u16, true, 5, 1, 9, 2>;
    let mut x = F::neg_infinity();
    let mut n = 0;
    loop {
        let y = x.next_up();
        if !x.is_zero() {
            assert_eq!(y.next_down().to_bits(), x.to_bits(), "{:#x}", x.to_bits());
        }
        assert!(y > x || (x.is_zero() && y.is_zero()) || y.is_zero(), "{:#x}", x.to_bits());
        x = y;
        n += 1;
        if !x.is_finite() {
            break;
        }
    }
    assert!(n > 1000);
}
