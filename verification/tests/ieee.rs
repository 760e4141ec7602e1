//! Order, sign and conversion of numbers held as bits, against the machine's own.

use roomeq_temporal::ieee::{
    doubles, from_integer, is_single_finite, narrow, singles, widen, Double,
};

fn double(x: f64) -> Double {
    Double { bits: x.to_bits() }
}

fn samples() -> Vec<f64> {
    let mut values = vec![
        0.0,
        1.0,
        0.1,
        0.5,
        1.5,
        2.0,
        1e-9,
        1e-38,
        1e-40,
        1e-45,
        7e-46,
        1.0e-46,
        5e-324,
        1e38,
        3.4028234663852886e38,
        3.4028235677973366e38,
        3.5e38,
        1e300,
        f64::MAX,
        f64::MIN_POSITIVE,
        f64::INFINITY,
        // Halfway between two singles, with an even and with an odd one below.
        1.0 + f64::powi(2.0, -24),
        1.0 + 3.0 * f64::powi(2.0, -24),
        f64::powi(2.0, -150),
        3.0 * f64::powi(2.0, -150),
        f64::powi(2.0, -149) + f64::powi(2.0, -180),
    ];
    let mut seed: u64 = 0x9e37_79b9_7f4a_7c15;
    for _ in 0..20_000 {
        seed ^= seed << 13;
        seed ^= seed >> 7;
        seed ^= seed << 17;
        let any = f64::from_bits(seed);
        let near = f64::from_bits((seed >> 12) | (((seed & 0xff) + 850) << 52));
        for x in [any, near] {
            if !x.is_nan() {
                values.push(x.abs());
            }
        }
    }
    let negated: Vec<f64> = values.iter().map(|x| -x).collect();
    values.extend(negated);
    values
}

#[test]
fn narrowing_rounds_as_the_machine_does() {
    for x in samples() {
        assert_eq!(narrow(double(x)), (x as f32).to_bits(), "{x:e}");
    }
    assert!(f32::from_bits(narrow(double(f64::NAN))).is_nan());
}

#[test]
fn widening_is_exact() {
    for x in samples() {
        let single = x as f32;
        assert_eq!(widen(single.to_bits()).bits, f64::from(single).to_bits());
    }
    assert!(f64::from_bits(widen(f32::NAN.to_bits()).bits).is_nan());
}

#[test]
fn rounding_what_was_rounded_changes_nothing() {
    let mut values: Vec<Double> = samples().into_iter().map(double).collect();
    values.push(double(f64::NAN));
    values.push(Double { bits: 0x7ff0_0000_0000_0001 });
    let once = singles(&values);
    assert_eq!(singles(&doubles(&once)), once);
    assert_eq!(once[1], 0x3f80_0000);
    assert_eq!(doubles(&vec![0x3fc0_0000]), vec![double(1.5)]);
}

#[test]
fn integers_become_doubles_as_the_machine_has_them() {
    for n in [
        0,
        1,
        2,
        3,
        48_000,
        u64::from(u32::MAX),
        (1 << 53) - 1,
        1 << 53,
        (1 << 53) + 1,
        (1 << 53) + 2,
        (1 << 53) + 3,
        u64::MAX - 1024,
        u64::MAX - 1023,
        u64::MAX,
    ] {
        assert_eq!(from_integer(n).bits, (n as f64).to_bits(), "{n}");
    }
}

#[test]
fn order_and_sign_are_those_of_the_numbers() {
    let values = [
        f64::NEG_INFINITY,
        -1.5,
        -5e-324,
        -0.0,
        0.0,
        5e-324,
        1.0,
        f64::INFINITY,
        f64::NAN,
    ];
    for x in values {
        let a = double(x);
        assert_eq!(a.is_finite(), x.is_finite());
        assert_eq!(a.is_nan(), x.is_nan());
        assert_eq!(a.negated().bits, (-x).to_bits());
        assert_eq!(a.absolute().bits, x.abs().to_bits());
        for y in values {
            let b = double(y);
            assert_eq!(a.is_below(b), x < y, "{x} < {y}");
            assert_eq!(a.is_at_most(b), x <= y, "{x} <= {y}");
            let largest = f64::from_bits(a.maximum(b).bits);
            let smallest = f64::from_bits(a.minimum(b).bits);
            assert!(largest == x.max(y) || (largest.is_nan() && x.max(y).is_nan()));
            assert!(smallest == x.min(y) || (smallest.is_nan() && x.min(y).is_nan()));
        }
    }
}

#[test]
fn finite_singles_are_told_apart() {
    for x in [0.0_f32, -1.0, f32::MAX, 1e-45, f32::INFINITY, f32::NEG_INFINITY, f32::NAN] {
        assert_eq!(is_single_finite(x.to_bits()), x.is_finite());
    }
}
