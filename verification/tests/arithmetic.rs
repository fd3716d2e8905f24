//! The arithmetic of `Binary32` against the arithmetic of the machine.

use rinha_gpu_bruteforce::binary32::{Binary32, NAN_BITS};
use rinha_gpu_bruteforce::rng::SplitMix64;

fn of(value: f32) -> Binary32 {
    Binary32 { bits: value.to_bits() }
}

/// The bits of a result, with every NaN taken for the canonical one.
fn bits(value: f32) -> u32 {
    if value.is_nan() {
        NAN_BITS
    } else {
        value.to_bits()
    }
}

/// Values of every kind: zeros, subnormals, powers, neighbours, infinities, NaN.
fn samples() -> Vec<f32> {
    let mut list: Vec<f32> = vec![
        0.0,
        -0.0,
        1.0,
        -1.0,
        0.5,
        1.5,
        2.5,
        -2.5,
        0.1,
        0.3,
        0.6,
        1.0e-4,
        1.0e-38,
        1.0e-45,
        -1.0e-45,
        3.4e38,
        -3.4e38,
        8192.0,
        16_777_216.0,
        16_777_217.0,
        f32::MIN_POSITIVE,
        f32::MAX,
        f32::MIN,
        f32::INFINITY,
        f32::NEG_INFINITY,
        f32::NAN,
    ];
    let mut rng = SplitMix64::new(7);
    for _ in 0..60 {
        list.push(f32::from_bits((rng.next_u64() >> 32) as u32));
    }
    for _ in 0..30 {
        list.push(f32::from_bits(rng.next_f32().bits));
    }
    list
}

#[test]
fn sums_and_differences_are_those_of_the_machine() {
    let list = samples();
    for a in &list {
        for b in &list {
            assert_eq!(of(*a).plus(of(*b)).bits, bits(a + b), "{a:e} + {b:e}");
            assert_eq!(of(*a).minus(of(*b)).bits, bits(a - b), "{a:e} - {b:e}");
        }
    }
}

#[test]
fn products_are_those_of_the_machine() {
    let list = samples();
    for a in &list {
        for b in &list {
            assert_eq!(of(*a).times(of(*b)).bits, bits(a * b), "{a:e} * {b:e}");
        }
    }
}

#[test]
fn quotients_are_those_of_the_machine() {
    let list = samples();
    for a in &list {
        for b in &list {
            assert_eq!(of(*a).over(of(*b)).bits, bits(a / b), "{a:e} / {b:e}");
        }
    }
}

#[test]
fn rounding_is_that_of_the_machine() {
    for a in &samples() {
        assert_eq!(of(*a).round().bits, bits(a.round()), "{a:e}");
    }
    assert_eq!(of(0.5).round().bits, 1.0f32.to_bits());
    assert_eq!(of(-0.5).round().bits, (-1.0f32).to_bits());
    assert_eq!(of(2.5).round().bits, 3.0f32.to_bits());
    assert_eq!(of(0.49999997).round().bits, 0);
}

#[test]
fn orders_are_those_of_the_machine() {
    let list = samples();
    for a in &list {
        for b in &list {
            assert_eq!(of(*a).less_than(of(*b)), a < b);
            assert_eq!(of(*a).reaches(of(*b)), a >= b);
            assert_eq!(
                of(*a).total_order().cmp(&of(*b).total_order()),
                a.total_cmp(b)
            );
        }
    }
}

#[test]
fn whole_numbers_convert_as_on_the_machine() {
    for n in [0u64, 1, 2, 105, 16_777_215, 16_777_216, 16_777_217, 16_777_219, u32::MAX as u64, u64::MAX] {
        assert_eq!(Binary32::from_u64(n).bits, (n as f32).to_bits());
    }
}

#[test]
fn decimal_constants_are_the_nearest_values() {
    assert_eq!(Binary32::ratio(52, 100).bits, 0.52f32.to_bits());
    assert_eq!(Binary32::ratio(1, 5).bits, 0.2f32.to_bits());
    assert_eq!(Binary32::ratio(1, 10_000).bits, 0.0001f32.to_bits());
    assert_eq!(Binary32::ratio(3, 5).bits, 0.6f32.to_bits());
    assert_eq!(Binary32::ratio(15, 100).bits, 0.15f32.to_bits());
    assert_eq!(Binary32::ratio(0, 5).bits, 0);
}

#[test]
fn clamping_holds_values_and_leaves_a_nan() {
    let low = of(0.0);
    let high = of(1.0);
    assert_eq!(of(-3.0).clamp_between(low, high), low);
    assert_eq!(of(3.0).clamp_between(low, high), high);
    assert_eq!(of(0.25).clamp_between(low, high), of(0.25));
    assert_eq!(of(-0.0).clamp_between(low, high), of(-0.0));
    assert_eq!(of(f32::NAN).clamp_between(low, high), of(f32::NAN));
    assert_eq!(of(f32::INFINITY).clamp_between(low, high), high);
}

#[test]
fn signs_and_magnitudes_are_told_apart() {
    assert!(of(-0.0).is_negative());
    assert!(!of(0.0).is_negative());
    assert_eq!(of(-1.0).magnitude(), 0x3f80_0000);
    assert_eq!(of(-1.0).negate(), of(1.0));
}
