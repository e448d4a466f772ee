use aquarelle::single::Single;

fn s(x: f32) -> Single {
    Single::from_bits(x.to_bits())
}

fn f(x: Single) -> f32 {
    f32::from_bits(x.to_bits())
}

/// Bit patterns that reach every branch: zeros, subnormals, powers of two,
/// the extremes, infinities, not a number, and a spread of others.
fn patterns() -> Vec<u32> {
    let mut v: Vec<u32> = vec![
        0, 1, 2, 3, 0x7F_FFFF, 0x80_0000, 0x80_0001, 0xFF_FFFF, 0x100_0000, 0x3F80_0000,
        0x3F80_0001, 0x3F7F_FFFF, 0x3F00_0000, 0x3EFF_FFFF, 0x3F00_0001, 0x4B00_0000, 0x4B00_0001,
        0x4AFF_FFFF, 0x4B80_0000, 0x4B7F_FFFF, 0x7F7F_FFFF, 0x7F80_0000, 0x7FC0_0000, 0x437F_0000,
        0x3E80_0000, 0x3FC0_0000, 0x4020_0000, 0x4060_0000, 0x4F00_0000, 0x4F7F_FFFF, 0x4F80_0000,
        0x5F80_0000, 0x5F7F_FFFF,
    ];
    let mut x: u32 = 0x1234_5678;
    for _ in 0..220 {
        x ^= x << 13;
        x ^= x >> 17;
        x ^= x << 5;
        v.push(x & 0x7FFF_FFFF);
        // Near one, where the rounding of sums shows.
        v.push(0x3E00_0000 + (x & 0x03FF_FFFF));
    }
    let positive = v.clone();
    for m in positive {
        v.push(m | 0x8000_0000);
    }
    v
}

fn agrees(got: Single, want: f32) -> bool {
    (f(got).is_nan() && want.is_nan()) || got.to_bits() == want.to_bits()
}

#[test]
fn operations_agree_with_the_machine() {
    let all = patterns();
    for &a in &all {
        for &b in &all {
            let (x, y) = (f32::from_bits(a), f32::from_bits(b));
            assert!(agrees(s(x).plus(s(y)), x + y), "{x:e} + {y:e}");
            assert!(agrees(s(x).minus(s(y)), x - y), "{x:e} - {y:e}");
            assert!(agrees(s(x).times(s(y)), x * y), "{x:e} * {y:e}");
            assert!(agrees(s(x).over(s(y)), x / y), "{x:e} / {y:e}");
            assert_eq!(s(x).less_than(s(y)), x < y, "{x:e} < {y:e}");
            assert_eq!(s(x).no_more_than(s(y)), x <= y, "{x:e} <= {y:e}");
            assert_eq!(s(x) == s(y), x == y, "{x:e} == {y:e}");
        }
    }
}

#[test]
fn functions_agree_with_the_machine() {
    for &a in &patterns() {
        let x = f32::from_bits(a);
        assert!(agrees(s(x).round(), x.round()), "round {x:e}");
        assert!(agrees(s(x).floor(), x.floor()), "floor {x:e}");
        assert!(agrees(s(x).sqrt(), x.sqrt()), "sqrt {x:e}");
        assert!(agrees(s(x).abs(), x.abs()), "abs {x:e}");
        assert!(agrees(s(x).negated(), -x), "neg {x:e}");
        assert_eq!(s(x).to_u8(), x as u8, "u8 {x:e}");
        assert_eq!(s(x).to_u32(), x as u32, "u32 {x:e}");
        assert_eq!(s(x).to_usize(), x as usize, "usize {x:e}");
        assert!(agrees(Single::from_u32(a), a as f32), "from {a}");
        assert!(agrees(s(x).clamp(s(0.0), s(1.0)), x.clamp(0.0, 1.0)), "clamp {x:e}");
        assert!(agrees(s(x).max(s(0.5)), x.max(0.5)), "max {x:e}");
    }
}

#[test]
fn rounding_goes_to_the_nearest_and_ties_to_even() {
    // 1 + 2^-24 lies in the middle between 1 and the next number.
    let tiny = f32::from_bits(0x3380_0000);
    assert_eq!(s(1.0).plus(s(tiny)).to_bits(), 0x3F80_0000);
    let next = f32::from_bits(0x3F80_0001);
    assert_eq!(s(next).plus(s(tiny)).to_bits(), 0x3F80_0002);
    assert_eq!(s(1.0).over(s(3.0)).to_bits(), 0x3EAA_AAAB);
}

#[test]
fn neutral_numbers_change_nothing() {
    for &a in &patterns() {
        let x = f32::from_bits(a);
        if !x.is_nan() {
            assert_eq!(s(x).times(s(1.0)).to_bits(), a);
            assert_eq!(f(s(x).plus(s(0.0))), x);
        }
    }
}

#[test]
fn sums_and_products_are_monotone() {
    let mut all: Vec<f32> =
        patterns().iter().map(|a| f32::from_bits(*a)).filter(|x| x.is_finite()).collect();
    all.sort_by(|a, b| a.total_cmp(b));
    for pair in all.windows(2) {
        for c in [0.0f32, 0.1, 1.0, 255.0] {
            let (low, high) = (s(pair[0]), s(pair[1]));
            assert!(low.plus(s(c)).no_more_than(high.plus(s(c))));
            assert!(low.times(s(c)).no_more_than(high.times(s(c))));
        }
    }
}

#[test]
fn whole_numbers_are_exact() {
    for n in [0u32, 1, 2, 255, 65535, 0xFF_FFFF, 0x100_0000] {
        assert_eq!(f(Single::from_u32(n)), n as f32);
        assert_eq!(Single::from_u32(n).to_u32(), n);
    }
    assert_eq!(Single::from_u32(0x100_0001).to_u32(), 0x100_0000);
}

#[test]
fn roots_of_parts_are_parts() {
    for k in 0..=1000 {
        let x = k as f32 / 1000.0;
        let r = s(x).sqrt();
        assert!(s(0.0).no_more_than(r) && r.no_more_than(s(1.0)));
    }
    assert_eq!(f(s(0.25).sqrt()), 0.5);
    assert_eq!(s(2.0).sqrt().to_bits(), 0x3FB5_04F3);
}

#[test]
fn clamping_again_changes_nothing() {
    for &a in &patterns() {
        let once = Single::from_bits(a).clamp(s(0.0), s(1.0));
        assert_eq!(once.clamp(s(0.0), s(1.0)).to_bits(), once.to_bits());
        assert_eq!(once.is_nan(), f32::from_bits(a).is_nan());
    }
}

#[test]
fn operands_commute_and_zero_absorbs() {
    let all = patterns();
    for pair in all.windows(2) {
        let (x, y) = (Single::from_bits(pair[0]), Single::from_bits(pair[1]));
        assert_eq!(x.plus(y).to_bits(), y.plus(x).to_bits());
        assert_eq!(x.times(y).to_bits(), y.times(x).to_bits());
        if f(x).is_finite() {
            assert_eq!(f(x.times(s(0.0))), 0.0);
        }
    }
}
