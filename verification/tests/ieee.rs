use timesfm::ieee::scalar::{Double, Single};

fn patterns32() -> Vec<u32> {
    let mut v = vec![
        0u32, 1, 2, 0x007f_ffff, 0x0080_0000, 0x0080_0001, 0x3f80_0000, 0x3f80_0001, 0x4000_0000,
        0x3eff_ffff, 0x7f7f_ffff, 0x7f80_0000, 0x7fc0_0000, 0x8000_0000, 0x8000_0001, 0xbf80_0000,
        0xff80_0000, 0x4b00_0000, 0x4b80_0001, 0x3dcc_cccd, 0x4120_0000,
    ];
    let mut x: u64 = 0x9e37_79b9_7f4a_7c15;
    for i in 0..500u32 {
        x = x.wrapping_mul(6364136223846793005).wrapping_add(1442695040888963407);
        let mut b = (x >> 32) as u32;
        if i % 3 == 0 {
            b = (b & 0x80ff_ffff) | 0x3f00_0000;
        }
        v.push(b);
    }
    v
}

fn same32(ours: Single, theirs: f32) -> bool {
    if theirs.is_nan() {
        ours.is_nan()
    } else {
        ours.to_bits() == theirs.to_bits()
    }
}

fn same64(ours: Double, theirs: f64) -> bool {
    if theirs.is_nan() {
        ours.is_nan()
    } else {
        ours.to_bits() == theirs.to_bits()
    }
}

#[test]
fn single_arithmetic_matches_hardware() {
    let v = patterns32();
    for &x in &v {
        for &y in &v {
            let (a, b) = (Single::from_bits(x), Single::from_bits(y));
            let (p, q) = (f32::from_bits(x), f32::from_bits(y));
            assert!(same32(a.plus(b), p + q), "{} + {}", p, q);
            assert!(same32(a.minus(b), p - q), "{} - {}", p, q);
            assert!(same32(a.times(b), p * q), "{} * {}", p, q);
            assert!(same32(a.over(b), p / q), "{} / {}", p, q);
            assert_eq!(a.lt(b), p < q);
            assert_eq!(a.le(b), p <= q);
        }
        let (a, p) = (Single::from_bits(x), f32::from_bits(x));
        assert!(same32(a.root(), p.sqrt()), "sqrt {}", p);
        assert!(same64(a.widened(), p as f64));
        assert_eq!(a.is_finite(), p.is_finite());
        assert!(same32(a.abs(), p.abs()));
        assert!(same32(a.negated(), -p));
        assert!(same32(Single::from_count(x as usize), (x as usize) as f32));
    }
}

#[test]
fn double_arithmetic_matches_hardware() {
    let mut v: Vec<u64> = vec![
        0, 1, 0x000f_ffff_ffff_ffff, 0x0010_0000_0000_0000, 0x3ff0_0000_0000_0000,
        0x3ff0_0000_0000_0001, 0x7fef_ffff_ffff_ffff, 0x7ff0_0000_0000_0000, 0x7ff8_0000_0000_0000,
        0x8000_0000_0000_0000, 0xbff0_0000_0000_0000, 0x4330_0000_0000_0000,
    ];
    let mut x: u64 = 0x2545_f491_4f6c_dd1d;
    for i in 0..400u32 {
        x = x.wrapping_mul(6364136223846793005).wrapping_add(1442695040888963407);
        let y = x ^ (x >> 29);
        v.push(if i % 2 == 0 { y } else { (y & 0x801f_ffff_ffff_ffff) | 0x3fe0_0000_0000_0000 });
    }
    for &x in &v {
        for &y in &v {
            let (a, b) = (Double::from_bits(x), Double::from_bits(y));
            let (p, q) = (f64::from_bits(x), f64::from_bits(y));
            assert!(same64(a.plus(b), p + q), "{} + {}", p, q);
            assert!(same64(a.minus(b), p - q), "{} - {}", p, q);
            assert!(same64(a.times(b), p * q), "{} * {}", p, q);
            assert!(same64(a.over(b), p / q), "{} / {}", p, q);
            assert_eq!(a.lt(b), p < q);
            assert!(same32(a.narrowed(), p as f32));
        }
        assert!(same64(Double::from_count(x as usize), (x as usize) as f64));
    }
}

#[test]
fn counts_and_integers_match_hardware() {
    for n in [0usize, 1, 2, 3, 7, 1 << 24, (1 << 24) + 1, (1 << 25) + 3, usize::MAX, 123_456_789] {
        assert!(same32(Single::from_count(n), n as f32), "{}", n);
        assert!(same64(Double::from_count(n), n as f64), "{}", n);
        assert!(same32(Single::from_unsigned(n as u64), n as f32), "{}", n);
    }
    for n in [0i64, -1, -16_777_217, i64::MIN, i64::MAX, 42, -3] {
        assert!(same32(Single::from_signed(n), n as f32), "{}", n);
    }
}

#[test]
fn orders_and_extremes_match_hardware() {
    let v = patterns32();
    for &x in &v {
        for &y in &v[..60] {
            let (a, b) = (Single::from_bits(x), Single::from_bits(y));
            let (p, q) = (f32::from_bits(x), f32::from_bits(y));
            assert_eq!(a.lt(b), p < q);
            assert_eq!(a.le(b), p <= q);
            if p != q || p != 0.0 {
                assert!(same32(a.max(b), p.max(q)));
            }
        }
    }
}

#[test]
fn numbers_print_like_the_standard_library() {
    let v = patterns32();
    for &x in &v {
        let a = Single::from_bits(x);
        let p = f32::from_bits(x);
        for places in [1usize, 2, 4, 6] {
            let mut t = String::new();
            a.push_fixed(&mut t, places);
            assert_eq!(t, format!("{:.*}", places, p));
            let mut u = String::from("x");
            a.push_signed_fixed(&mut u, places);
            assert_eq!(u, format!("x{:+.*}", places, p));
        }
    }
    for x in [0.1f64, 0.25, 0.125, 2.5, 3.5, 1e300, 5e-324, -0.005, 0.005, 0.015, 1e20, f64::MAX] {
        let mut t = String::new();
        Double::from_bits(x.to_bits()).push_fixed(&mut t, 2);
        assert_eq!(t, format!("{:.2}", x));
    }
    for x in [0.5f32, 1.5, 2.5, 0.25, 0.75, 0.05, 0.15, 1e10, 16777216.0, f32::INFINITY, f32::NAN] {
        let mut t = String::new();
        Single::from_bits(x.to_bits()).push_fixed(&mut t, 1);
        assert_eq!(t, format!("{:.1}", x));
    }
}

#[test]
fn counts_print_in_decimal() {
    for n in [0usize, 7, 10, 99, 100, 12_345, usize::MAX] {
        let mut t = String::from("n=");
        timesfm::decimal::push_count(&mut t, n);
        assert_eq!(t, format!("n={}", n));
    }
}

#[test]
fn a_count_over_itself_is_one() {
    let one = Single::from_bits(1.0f32.to_bits());
    for n in [1usize, 3, 31, 1000, 16_777_217] {
        let c = Single::from_count(n);
        assert_eq!(c.over(c), one);
    }
    assert_eq!(one.times(one), one);
    assert_eq!(one.minus(one), Single::zero());
}
