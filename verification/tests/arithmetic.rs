use taffy::scalar::Scalar;

fn s(x: f32) -> Scalar {
    Scalar::from_bits(x.to_bits())
}

fn samples() -> Vec<f32> {
    let mut samples: Vec<f32> = vec![
        0.0,
        -0.0,
        1.0,
        -1.0,
        2.0,
        0.5,
        1.5,
        3.0,
        100.3,
        963.3333,
        381.36665,
        481.66665,
        762.7333,
        1.0e-7,
        -1.0e-7,
        16777216.0,
        16777215.0,
        16777217.0,
        33554432.0,
        8388608.0,
        8388607.5,
        0.1,
        0.2,
        0.3,
        1.0e10,
        -1.0e10,
        1.0e-10,
        1.0e38,
        3.0e38,
        -3.0e38,
        f32::EPSILON,
        f32::MIN_POSITIVE,
        -f32::MIN_POSITIVE,
        f32::MIN_POSITIVE / 2.0,
        f32::from_bits(1),
        f32::from_bits(2),
        f32::from_bits(3),
        f32::from_bits(0x8000_0001),
        f32::from_bits(0x007f_ffff),
        f32::from_bits(0x0080_0001),
        f32::MAX,
        f32::MIN,
        f32::from_bits(0x7f7f_fffe),
        f32::INFINITY,
        f32::NEG_INFINITY,
        f32::NAN,
    ];
    for exponent in [-149i32, -140, -127, -126, -125, -100, -30, -24, -23, -1, 0, 1, 23, 24, 25, 26, 27, 60, 100, 126, 127] {
        let p = 2.0f32.powi(exponent);
        for steps in -2i32..=2 {
            let bits = (p.to_bits() as i64 + steps as i64).max(0) as u32;
            samples.push(f32::from_bits(bits));
            samples.push(-f32::from_bits(bits));
        }
        samples.push(p * 1.5);
        samples.push(p * 1.25);
        samples.push(-p * 1.75);
    }
    let mut seed: u32 = 0x9e37_79b9;
    for _ in 0..300 {
        seed ^= seed << 13;
        seed ^= seed >> 17;
        seed ^= seed << 5;
        samples.push(f32::from_bits(seed));
        // values of moderate size, where sums need rounding
        samples.push(f32::from_bits((seed % 0x0c00_0000) + 0x3c00_0000));
        samples.push(-f32::from_bits((seed % 0x0400_0000) + 0x4000_0000));
    }
    samples
}

fn agree(ours: Scalar, theirs: f32, what: &str, a: f32, b: f32) {
    if theirs.is_nan() {
        assert!(ours.is_nan(), "{a:e} {what} {b:e}: expected no number, got {:#x}", ours.to_bits());
    } else {
        assert_eq!(
            ours.to_bits(),
            theirs.to_bits(),
            "{a:e} ({:#x}) {what} {b:e} ({:#x}): expected {theirs:e}",
            a.to_bits(),
            b.to_bits()
        );
    }
}

#[test]
fn sums_agree_with_the_hardware() {
    let samples = samples();
    for &a in &samples {
        for &b in &samples {
            agree(s(a).plus(s(b)), a + b, "+", a, b);
        }
    }
}

#[test]
fn differences_agree_with_the_hardware() {
    let samples = samples();
    for &a in &samples {
        for &b in &samples {
            agree(s(a).minus(s(b)), a - b, "-", a, b);
        }
    }
}

#[test]
fn sums_that_need_rounding() {
    // one more than 2 to the 24th is not a value: the sum rounds to the even neighbour
    assert_eq!(s(16777216.0).plus(s(1.0)), s(16777216.0));
    assert_eq!(s(16777216.0).plus(s(3.0)), s(16777220.0));
    assert_eq!(s(0.1).plus(s(0.2)), s(0.1 + 0.2));
    assert_eq!(s(f32::MAX).plus(s(f32::MAX)), s(f32::INFINITY));
    assert_eq!(s(1.0).minus(s(1.0)).to_bits(), 0);
    assert_eq!(s(-0.0).plus(s(-0.0)).to_bits(), 0x8000_0000);
    assert_eq!(s(-0.0).plus(s(0.0)).to_bits(), 0);
    assert!(s(f32::INFINITY).minus(s(f32::INFINITY)).is_nan());
}

#[test]
fn products_agree_with_the_hardware() {
    let samples = samples();
    for &a in &samples {
        for &b in &samples {
            agree(s(a).times(s(b)), a * b, "*", a, b);
        }
    }
}

#[test]
fn products_that_need_rounding() {
    assert_eq!(s(0.1).times(s(3.0)), s(0.1 * 3.0));
    assert_eq!(s(0.5).times(s(963.3333)), s(0.5 * 963.3333));
    assert_eq!(s(f32::MAX).times(s(2.0)), s(f32::INFINITY));
    assert_eq!(s(f32::MIN_POSITIVE).times(s(0.5)), s(f32::MIN_POSITIVE * 0.5));
    assert_eq!(s(f32::from_bits(1)).times(s(0.5)).to_bits(), 0);
    assert_eq!(s(f32::from_bits(3)).times(s(0.5)).to_bits(), 2);
    assert_eq!(s(-2.0).times(s(0.0)).to_bits(), 0x8000_0000);
    assert!(s(f32::INFINITY).times(s(0.0)).is_nan());
    assert_eq!(s(f32::NEG_INFINITY).times(s(-3.0)), s(f32::INFINITY));
}

#[test]
fn quotients_agree_with_the_hardware() {
    let samples = samples();
    for &a in &samples {
        for &b in &samples {
            agree(s(a).over(s(b)), a / b, "/", a, b);
        }
    }
}

#[test]
fn quotients_that_need_rounding() {
    assert_eq!(s(1.0).over(s(3.0)), s(1.0 / 3.0));
    assert_eq!(s(30.0).over(s(3.0)), s(10.0));
    assert_eq!(s(762.7333).over(s(2.0)), s(762.7333 / 2.0));
    assert_eq!(s(100.0).over(s(6.0)), s(100.0 / 6.0));
    assert_eq!(s(1.0).over(s(0.0)), s(f32::INFINITY));
    assert_eq!(s(-1.0).over(s(0.0)), s(f32::NEG_INFINITY));
    assert!(s(0.0).over(s(0.0)).is_nan());
    assert!(s(f32::INFINITY).over(s(f32::INFINITY)).is_nan());
    assert_eq!(s(5.0).over(s(f32::NEG_INFINITY)).to_bits(), 0x8000_0000);
    assert_eq!(s(f32::from_bits(1)).over(s(2.0)).to_bits(), 0);
    assert_eq!(s(f32::from_bits(3)).over(s(2.0)).to_bits(), 2);
    assert_eq!(s(f32::MAX).over(s(0.5)), s(f32::INFINITY));
}

#[test]
fn whole_numbers_agree_with_the_hardware() {
    let mut samples = samples();
    for halves in -20i32..=20 {
        samples.push(halves as f32 * 0.5);
        samples.push(halves as f32 * 0.5 + 0.25);
        samples.push(halves as f32 * 0.5 + 1.0e-6);
        samples.push(halves as f32 * 0.5 - 1.0e-6);
    }
    for &a in &samples {
        agree(s(a).round(), a.round(), "round", a, 0.0);
        agree(s(a).floor(), a.floor(), "floor", a, 0.0);
        agree(s(a).ceil(), a.ceil(), "ceil", a, 0.0);
    }
}

#[test]
fn halves_round_away_from_zero() {
    assert_eq!(s(0.5).round(), s(1.0));
    assert_eq!(s(-0.5).round(), s(-1.0));
    assert_eq!(s(1.5).round(), s(2.0));
    assert_eq!(s(2.5).round(), s(3.0));
    assert_eq!(s(0.49999997).round().to_bits(), 0);
    assert_eq!(s(-0.2).round().to_bits(), 0x8000_0000);
    assert_eq!(s(-0.2).floor(), s(-1.0));
    assert_eq!(s(-0.2).ceil().to_bits(), 0x8000_0000);
    assert_eq!(s(0.2).ceil(), s(1.0));
    assert_eq!(s(8388607.5).round(), s(8388608.0));
    assert_eq!(s(16777216.0).round(), s(16777216.0));
}
