use flightsim::angle;
use flightsim::binary32::Binary32;
use flightsim::binary64::Binary64;
use flightsim::rotation::DVec4;

fn d(x: f64) -> Binary64 {
    Binary64::from_bits(x.to_bits())
}

fn f(x: Binary64) -> f64 {
    f64::from_bits(x.to_bits())
}

/// Bit patterns that reach every class of number, spread by a fixed recurrence.
fn patterns(count: usize) -> Vec<u64> {
    let mut out: Vec<u64> = vec![
        0x0000000000000000,
        0x8000000000000000,
        0x0000000000000001,
        0x000fffffffffffff,
        0x0010000000000000,
        0x3ff0000000000000,
        0xbff0000000000000,
        0x3ff0000000000001,
        0x4340000000000000,
        0x433fffffffffffff,
        0x7fefffffffffffff,
        0x7ff0000000000000,
        0xfff0000000000000,
        0x7ff8000000000000,
        0x7ff0000000000001,
        0x3fe0000000000000,
        0xbfe0000000000000,
        0x43e0000000000000,
        0xc3e0000000000000,
    ];
    let mut state: u64 = 0x243f6a8885a308d3;
    for i in 0..count {
        state = state.wrapping_mul(6364136223846793005).wrapping_add(1442695040888963407);
        let raw = state ^ (state >> 29);
        // Every other pattern is drawn near one, where sums and products interact.
        if i % 2 == 0 {
            out.push(raw);
        } else {
            let exponent = 1023 + (raw >> 60) % 16 - 8;
            out.push((raw & 0x800fffffffffffff) | (exponent << 52));
        }
    }
    out
}

fn agree(ours: Binary64, theirs: f64) -> bool {
    if theirs.is_nan() {
        ours.is_nan()
    } else {
        ours.to_bits() == theirs.to_bits()
    }
}

fn agree32(ours: Binary32, theirs: f32) -> bool {
    if theirs.is_nan() {
        ours.is_nan()
    } else {
        ours.to_bits() == theirs.to_bits()
    }
}

#[test]
fn double_arithmetic_is_the_machine_s() {
    let all = patterns(300);
    for &p in &all {
        for &q in &all {
            let (x, y) = (f64::from_bits(p), f64::from_bits(q));
            let (a, b) = (Binary64::from_bits(p), Binary64::from_bits(q));
            assert!(agree(a + b, x + y), "{x:e} + {y:e}");
            assert!(agree(a - b, x - y), "{x:e} - {y:e}");
            assert!(agree(a * b, x * y), "{x:e} * {y:e}");
            assert!(agree(a / b, x / y), "{x:e} / {y:e}");
            assert_eq!(a.lt(b), x < y);
            assert_eq!(a.le(b), x <= y);
            assert_eq!(a.same(b), x == y);
        }
    }
}

#[test]
fn single_arithmetic_is_the_machine_s() {
    let all: Vec<u32> = patterns(300).iter().map(|p| (p >> 32) as u32).collect();
    for &p in &all {
        for &q in &all {
            let (x, y) = (f32::from_bits(p), f32::from_bits(q));
            let (a, b) = (Binary32::from_bits(p), Binary32::from_bits(q));
            assert!(agree32(a + b, x + y), "{x:e} + {y:e}");
            assert!(agree32(a - b, x - y), "{x:e} - {y:e}");
            assert!(agree32(a * b, x * y), "{x:e} * {y:e}");
            assert!(agree32(a / b, x / y), "{x:e} / {y:e}");
            assert_eq!(a.lt(b), x < y);
        }
    }
}

#[test]
fn unary_operations_are_the_machine_s() {
    for p in patterns(4000) {
        let x = f64::from_bits(p);
        let a = Binary64::from_bits(p);
        assert!(agree(a.floor(), x.floor()), "floor {x:e}");
        assert!(agree(a.ceil(), x.ceil()), "ceil {x:e}");
        assert!(agree(a.signum(), x.signum()), "signum {x:e}");
        assert_eq!(a.abs().to_bits(), x.abs().to_bits());
        assert_eq!(a.negate().to_bits(), (-x).to_bits());
        assert_eq!(a.to_integer(i64::MIN, i64::MAX), x as i64);
        assert_eq!(a.to_integer(0, 255), (x as u8) as i64);
        assert_eq!(a.is_finite(), x.is_finite());
        assert_eq!(a.is_nan(), x.is_nan());
        assert!(agree32(a.to_binary32(), x as f32), "narrow {x:e}");
        let single = f32::from_bits((p >> 32) as u32);
        assert!(agree(Binary32::from_bits((p >> 32) as u32).to_binary64(), single as f64));
    }
}

#[test]
fn ratios_are_decimal_literals() {
    assert_eq!(Binary64::ratio(1, 10).to_bits(), 0.1f64.to_bits());
    assert_eq!(Binary64::ratio(12, 100).to_bits(), 0.12f64.to_bits());
    assert_eq!(Binary64::ratio(79375, 1000000).to_bits(), 0.079375f64.to_bits());
    assert_eq!(Binary32::ratio(1, 10).to_bits(), 0.1f32.to_bits());
    assert_eq!(Binary64::of(-7).to_bits(), (-7.0f64).to_bits());
    assert_eq!(Binary64::of(i64::MIN).to_bits(), (i64::MIN as f64).to_bits());
    assert_eq!(Binary64::of(i64::MAX).to_bits(), (i64::MAX as f64).to_bits());
    assert_eq!(Binary32::of(16777217).to_bits(), (16777217i64 as f32).to_bits());
}

#[test]
fn roots_are_the_machine_s() {
    for p in patterns(20000) {
        let x = f64::from_bits(p);
        assert!(agree(Binary64::from_bits(p).sqrt(), x.sqrt()), "sqrt {x:e}");
        assert!(agree(Binary64::from_bits(p).round(), x.round()), "round {x:e}");
        let q = (p >> 32) as u32;
        let y = f32::from_bits(q);
        assert!(agree32(Binary32::from_bits(q).sqrt(), y.sqrt()), "sqrt {y:e}");
    }
}

#[test]
fn remainders_are_the_machine_s() {
    let all = patterns(150);
    for &p in &all {
        for &q in &all {
            let (x, y) = (f64::from_bits(p), f64::from_bits(q));
            let (a, b) = (Binary64::from_bits(p), Binary64::from_bits(q));
            assert!(agree(a.remainder(b), x % y), "{x:e} % {y:e}");
            assert!(agree(a.rem_euclid(b), x.rem_euclid(y)), "{x:e} mod {y:e}");
            if !x.is_nan() && !y.is_nan() && x != y {
                assert!(agree(a.max(b), x.max(y)), "max {x:e} {y:e}");
                assert!(agree(a.min(b), x.min(y)), "min {x:e} {y:e}");
            }
        }
    }
}

#[test]
fn clamping_is_the_machine_s() {
    let (low, high) = (Binary64::of(-1), Binary64::of(2));
    for p in patterns(2000) {
        let x = f64::from_bits(p);
        assert!(agree(Binary64::from_bits(p).clamp(low, high), x.clamp(-1.0, 2.0)), "{x:e}");
    }
}

#[test]
fn normalising_gives_length_one_at_every_size() {
    for scale in [1e-140_f64, 1e-9, 0.3, 1.0, 7.0, 1e12, 1e140] {
        for parts in [[1.0, 0.0, 0.0, 0.0], [0.6, -0.8, 0.0, 1e-200], [1.0, 2.0, -3.0, 4.0]] {
            let [x, y, z, w] = parts.map(|part: f64| d(part * scale));
            let unit = DVec4 { x, y, z, w }.normalized();
            let squares = [unit.x, unit.y, unit.z, unit.w].map(|part| f(part) * f(part));
            let length = squares.iter().sum::<f64>().sqrt();
            assert!((length - 1.0).abs() < 1e-14, "length {length} at {scale}");
        }
    }
}

#[test]
fn wrapped_angles_are_within_a_turn() {
    let turn = 2.0 * core::f64::consts::PI;
    for angle in [-1e300, -400.0, -turn, -1e-20, 0.0, 1.0, turn, 400.0, 1e300] {
        let wrapped = f(angle::wrap_positive(d(angle)));
        assert!((0.0..=turn).contains(&wrapped), "{angle} became {wrapped}");
        assert_eq!(wrapped.to_bits(), angle.rem_euclid(turn).to_bits());
    }
    assert_eq!(f(angle::wrap_positive(d(-1e-20))), turn);
}
