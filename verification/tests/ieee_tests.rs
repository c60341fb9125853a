use heatmap_processing::ieee::{bits_of_cell, cell_of_bits, sample_from_single, single_from_double};

fn single(x: f32) -> i32 {
    sample_from_single(x.to_bits())
}

#[test]
fn single_precision_samples_of_simple_numbers() {
    assert_eq!(single(0.0), 0);
    assert_eq!(single(-0.0), 0);
    assert_eq!(single(1.0), 65536);
    assert_eq!(single(-1.0), -65536);
    assert_eq!(single(0.5), 32768);
    assert_eq!(single(1.5), 98304);
    assert_eq!(single(100.25), 6569984);
}

#[test]
fn single_precision_samples_round_toward_zero() {
    // 2^-17 is half a sample step.
    assert_eq!(single(0.00000762939453125), 0);
    assert_eq!(single(-0.00000762939453125), 0);
    // 2^-16 is one sample step.
    assert_eq!(single(0.0000152587890625), 1);
    assert_eq!(single(-0.0000152587890625), -1);
    assert_eq!(single(0.6), 39321);
    assert_eq!(single(-0.6), -39321);
}

#[test]
fn single_precision_samples_are_limited_to_the_sample_range() {
    assert_eq!(single(32767.5), 32767 * 65536 + 32768);
    assert_eq!(single(32768.0), i32::MAX);
    assert_eq!(single(-32768.0), i32::MIN);
    assert_eq!(single(1.0e30), i32::MAX);
    assert_eq!(single(-1.0e30), i32::MIN);
    assert_eq!(single(f32::INFINITY), i32::MAX);
    assert_eq!(single(f32::NEG_INFINITY), i32::MIN);
    assert_eq!(single(f32::MAX), i32::MAX);
}

#[test]
fn single_precision_nan_and_tiny_numbers_have_the_sample_zero() {
    assert_eq!(single(f32::NAN), 0);
    assert_eq!(sample_from_single(0xffc0_0001), 0);
    assert_eq!(single(f32::MIN_POSITIVE), 0);
    assert_eq!(sample_from_single(1), 0);
    assert_eq!(single(1.0e-10), 0);
}

#[test]
fn single_precision_samples_agree_with_a_scaled_cast() {
    let numbers: [f32; 12] = [
        3.14159, -2.71828, 0.1, -0.1, 123.456, -123.456, 0.999999, 1.000001, 7.0e-5, 32767.99,
        -32767.99, 12345.678,
    ];
    for x in numbers {
        assert_eq!(single(x), (x * 65536.0) as i32);
    }
}

#[test]
fn cells_hold_bit_patterns_without_loss() {
    for bits in [0u32, 1, 0x3f80_0000, 0x7fff_ffff, 0x8000_0000, 0x8000_0001, 0xbf80_0000, u32::MAX] {
        assert_eq!(bits_of_cell(cell_of_bits(bits)), bits);
        assert_eq!(cell_of_bits(bits), bits as i32);
    }
    for cell in [0i32, 1, -1, i32::MIN, i32::MAX] {
        assert_eq!(cell_of_bits(bits_of_cell(cell)), cell);
        assert_eq!(bits_of_cell(cell), cell as u32);
    }
}

#[test]
fn narrowing_agrees_with_the_cast_of_the_language() {
    let numbers: [f64; 30] = [
        0.0, -0.0, 1.0, -1.0, 0.1, -0.1, 0.33, 0.66, 3.141592653589793, 1.0e10, 1.0e38, 3.4e38,
        3.5e38, 1.0e39, -1.0e39, 1.0e-38, 1.0e-40, 1.0e-45, 7.0e-46, 1.4e-45, 2.0e-46, -1.0e-50,
        16777217.0, 16777219.0, 1.0000000596046448, 1.0000001788139343, f64::MAX, f64::MIN_POSITIVE,
        f64::INFINITY, f64::NEG_INFINITY,
    ];
    for x in numbers {
        assert_eq!(single_from_double(x.to_bits()), (x as f32).to_bits(), "{}", x);
    }
    let mut seed: u64 = 88172645463325252;
    for _ in 0..20000 {
        seed ^= seed << 13;
        seed ^= seed >> 7;
        seed ^= seed << 17;
        let x = f64::from_bits(seed);
        if x.is_nan() {
            assert!(f32::from_bits(single_from_double(seed)).is_nan());
        } else {
            assert_eq!(single_from_double(seed), (x as f32).to_bits(), "{}", x);
        }
    }
    // Numbers near the range of single precision, where most of the cases lie.
    for _ in 0..20000 {
        seed ^= seed << 13;
        seed ^= seed >> 7;
        seed ^= seed << 17;
        let exponent = 1023 - 160 + (seed >> 52) % 300;
        let bits = (seed & 0x800f_ffff_ffff_ffff) | (exponent << 52);
        let x = f64::from_bits(bits);
        assert_eq!(single_from_double(bits), (x as f32).to_bits(), "{}", x);
    }
    assert!(f32::from_bits(single_from_double(f64::NAN.to_bits())).is_nan());
}
