//! The scalar conversions against the hardware's own casts: reading an
//! identifier off the wire must behave as the truncating, saturating
//! single-precision-to-unsigned cast, and writing one must behave as the
//! round-to-nearest-even unsigned-to-single-precision cast.

use graph_store::scalar::{int_to_scalar, scalar_to_int};

#[test]
fn truncation_matches_hardware_cast() {
    let samples: [f32; 16] = [
        0.0, -0.0, 0.5, 1.0, 2.75, 5.0, 100.0, 16777215.0, 16777216.0, 3.0e9, -1.5, -0.25,
        4.0e9, 5.0e9, f32::INFINITY, f32::NEG_INFINITY,
    ];
    for v in samples {
        assert_eq!(scalar_to_int(v.to_bits()), v as u32, "truncating {v}");
    }
    assert_eq!(scalar_to_int(f32::NAN.to_bits()), f32::NAN as u32);
    assert_eq!(scalar_to_int((-f32::NAN).to_bits()), (-f32::NAN) as u32);
}

#[test]
fn encoding_matches_hardware_cast() {
    let samples: [u32; 14] = [
        0, 1, 2, 5, 100, 255, 4096, 16777215, 16777216, 16777217, 3_000_000_000, 4_000_000_001,
        u32::MAX - 1, u32::MAX,
    ];
    for v in samples {
        assert_eq!(int_to_scalar(v), (v as f32).to_bits(), "encoding {v}");
    }
}

#[test]
fn encoding_rounds_to_nearest_even() {
    // Halfway values round to the even mantissa in both directions.
    for v in [16777218u32, 16777219, 16777220, 16777221, 33554436, 33554438] {
        assert_eq!(int_to_scalar(v), (v as f32).to_bits(), "rounding {v}");
    }
}

#[test]
fn round_trip_below_two_to_24() {
    for v in [0u32, 1, 2, 7, 4095, 65535, 1 << 23, (1 << 24) - 1] {
        assert_eq!(scalar_to_int(int_to_scalar(v)), v);
    }
}
