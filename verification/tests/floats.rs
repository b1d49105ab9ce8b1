use wfc::entropy::{count_as_f32, is_nan, key_of};

#[test]
fn count_as_f32_matches_the_float_conversion() {
    let samples: Vec<u32> = vec![
        0, 1, 2, 3, 7, 100, 255, 1000, 65535, 8388607, 8388608, 16777215, 16777216, 16777217, 16777218,
        16777219, 33554431, 33554433, 123456789, 2147483647, 2147483648, 3000000001, 4294967040,
        4294967167, 4294967168, 4294967295,
    ];
    for n in samples {
        assert_eq!(count_as_f32(n), (n as f32).to_bits(), "n = {}", n);
    }
}

#[test]
fn is_nan_tells_nan_bits() {
    assert!(is_nan(f32::NAN.to_bits()));
    assert!(!is_nan(f32::INFINITY.to_bits()));
    assert!(!is_nan(0.5f32.to_bits()));
}

#[test]
fn key_of_orders_floats() {
    let vals = [-3.5f32, -0.25, 0.0, 1.0e-30, 0.5, 2.0, 1.0e30, f32::INFINITY];
    for w in vals.windows(2) {
        assert!(key_of(w[0].to_bits()) < key_of(w[1].to_bits()));
    }
    assert_eq!(key_of(0.0f32.to_bits()), key_of((-0.0f32).to_bits()));
}
