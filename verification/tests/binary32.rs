use fire_cursor::binary32::{Binary32, ONE, ZERO};

fn b(x: f32) -> Binary32 {
    Binary32::from_bits(x.to_bits())
}

fn samples() -> Vec<f32> {
    let mut v: Vec<f32> = vec![
        0.0,
        -0.0,
        1.0,
        -1.0,
        0.5,
        0.3,
        0.7,
        0.999_999_94,
        1.5,
        2.0,
        2.5,
        254.99,
        255.0,
        256.0,
        8_388_607.5,
        8_388_608.0,
        16_777_216.0,
        4_294_967_040.0,
        4_294_967_296.0,
        9.223_372e18,
        1.844_674_3e19,
        1.844_674_4e19,
        3.0e38,
        1.0e-45,
        1.0e-38,
        1.175_494_4e-38,
        f32::MAX,
        f32::MIN,
        f32::INFINITY,
        f32::NEG_INFINITY,
        f32::NAN,
    ];
    let mut state: u32 = 12345;
    for _ in 0..400 {
        state = state.wrapping_mul(1_664_525).wrapping_add(1_013_904_223);
        v.push(f32::from_bits(state));
        v.push((state % 100_000) as f32 / 7.0);
        v.push(-((state % 1000) as f32) / 3.0);
    }
    v
}

#[test]
fn named_patterns() {
    assert_eq!(ZERO, 0.0f32.to_bits());
    assert_eq!(ONE, 1.0f32.to_bits());
}

#[test]
fn order_is_that_of_the_numbers() {
    let v = samples();
    for &x in &v {
        assert_eq!(b(x).nan(), x.is_nan());
        for &y in &v {
            assert_eq!(b(x).lt(b(y)), x < y, "{x} < {y}");
            assert_eq!(b(x).le(b(y)), x <= y, "{x} <= {y}");
        }
    }
}

#[test]
fn larger_and_smaller_ignore_nan() {
    let v = samples();
    for &x in &v {
        for &y in &v {
            let hi = f32::from_bits(b(x).max(b(y)).bits);
            let lo = f32::from_bits(b(x).min(b(y)).bits);
            assert!(hi == x.max(y) || (hi.is_nan() && x.max(y).is_nan()));
            assert!(lo == x.min(y) || (lo.is_nan() && x.min(y).is_nan()));
        }
    }
}

#[test]
fn clamping_brings_into_range() {
    for x in samples() {
        let c = b(x).clamp(b(0.0), b(0.05));
        assert_eq!(c.bits, x.clamp(0.0, 0.05).to_bits(), "{x}");
        let c = b(x).clamp(b(0.0), b(1.0));
        assert_eq!(c.bits, x.clamp(0.0, 1.0).to_bits(), "{x}");
    }
}

#[test]
fn rounding_down_saturates() {
    for x in samples() {
        assert_eq!(b(x).floor_to(u64::MAX), x.floor() as u64, "{x}");
        assert_eq!(b(x).floor_to(u32::MAX as u64) as u32, x as u32, "{x}");
        assert_eq!(b(x).floor_to(255) as u8, x as u8, "{x}");
    }
    assert_eq!(b(7.9).floor_to(100), 7);
    assert_eq!(b(7.9).floor_to(5), 5);
    assert_eq!(b(-3.0).floor_to(100), 0);
    assert_eq!(b(f32::NAN).floor_to(100), 0);
}

#[test]
fn rounding_up_saturates() {
    for x in samples() {
        assert_eq!(b(x).ceil_to(u64::MAX), x.ceil() as u64, "{x}");
        assert_eq!(b(x).ceil_to(u32::MAX as u64) as u32, x.ceil() as u32, "{x}");
    }
    assert_eq!(b(7.1).ceil_to(100), 8);
    assert_eq!(b(8.0).ceil_to(100), 8);
    assert_eq!(b(1.0e-45).ceil_to(100), 1);
}

#[test]
fn rounding_brackets_the_number() {
    for x in samples() {
        if x >= 0.0 && x < 1.0e9 {
            let f = b(x).floor_to(u64::MAX);
            let c = b(x).ceil_to(u64::MAX);
            assert!(f as f64 <= x as f64 && x as f64 <= c as f64);
            assert!(c - f <= 1);
        }
    }
}

#[test]
fn integer_and_fractional_part_add_up() {
    for x in samples() {
        if (0.0..1.0e19).contains(&x) {
            let whole = b(x).floor_to(u64::MAX);
            let rest = x - whole as f32;
            assert!((0.0..1.0).contains(&rest), "{x}");
            assert_eq!(whole as f64 + rest as f64, x as f64, "{x}");
        }
    }
}
