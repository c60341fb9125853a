use heatmap_processing::number::parse_number;

fn expected(text: &str) -> Option<u32> {
    text.parse::<f32>().ok().map(|x| x.to_bits())
}

#[test]
fn plain_numbers_are_read() {
    assert_eq!(parse_number("0"), Some(0.0f32.to_bits()));
    assert_eq!(parse_number("1"), Some(1.0f32.to_bits()));
    assert_eq!(parse_number("-1"), Some((-1.0f32).to_bits()));
    assert_eq!(parse_number("+1"), Some(1.0f32.to_bits()));
    assert_eq!(parse_number("2.5"), Some(2.5f32.to_bits()));
    assert_eq!(parse_number(".5"), Some(0.5f32.to_bits()));
    assert_eq!(parse_number("5."), Some(5.0f32.to_bits()));
    assert_eq!(parse_number("-0"), Some((-0.0f32).to_bits()));
    assert_eq!(parse_number("0.1"), Some(0.1f32.to_bits()));
    assert_eq!(parse_number("0.33"), Some(0x3ea8_f5c3));
    assert_eq!(parse_number("1e-1"), Some(0.1f32.to_bits()));
    assert_eq!(parse_number("40000"), Some(40000.0f32.to_bits()));
}

#[test]
fn words_for_special_numbers_are_read() {
    assert_eq!(parse_number("inf"), Some(f32::INFINITY.to_bits()));
    assert_eq!(parse_number("-inf"), Some(f32::NEG_INFINITY.to_bits()));
    assert_eq!(parse_number("+Infinity"), Some(f32::INFINITY.to_bits()));
    assert_eq!(parse_number("-INFINITY"), Some(f32::NEG_INFINITY.to_bits()));
    assert!(f32::from_bits(parse_number("nan").unwrap()).is_nan());
    assert!(f32::from_bits(parse_number("NaN").unwrap()).is_nan());
    assert!(f32::from_bits(parse_number("-nan").unwrap()).is_nan());
}

#[test]
fn what_is_no_number_is_rejected() {
    for text in [
        "", "+", "-", ".", "e5", ".e5", "1e", "1e+", "1e-", "abc", "1,5", " 1", "1 ", "1_000",
        "0x10", "1.2.3", "--1", "+-1", "1e5.5", "1f32", "infinit", "in", "nanx", "1\u{660}",
        "\u{661}", "1e\u{661}", "1.5e5e5", "1..5", "+.e1", "e", "E", "-.",
    ] {
        assert_eq!(parse_number(text), None, "{:?}", text);
        assert_eq!(expected(text), None, "{:?}", text);
    }
}

#[test]
fn numbers_are_read_as_by_the_standard_library() {
    for text in [
        "0", "1", "+1", "-1", "1.", ".1", "+.1", "-.1", "1.e1", ".1e1", "1e1", "1E1", "1e+1",
        "1e-1", "1e01", "1e1000", "1e-1000", "000", "0.000", "00.5", "5e0", "0.1", "0.2", "0.3",
        "0.7", "3.14159", "2.718281828459045", "16777217", "16777216", "16777218", "16777219",
        "33554434", "33554435", "3.4028235e38", "3.4028236e38", "3.40282356e38",
        "3.4028235677973366e38", "3.402823669209385e38", "1e38", "1e39", "1.17549435e-38",
        "1.1754942e-38", "1e-45", "1.4e-45", "7e-46", "7.1e-46", "6.9e-46", "2.1e-45", "2.2e-45",
        "1e-46", "0.00000000000000000000000000000000000000000001", "123456789012345678901234567890",
        "0.000000000000000000000000000000000000000000000000000000000000001e70",
        "100000000000000000000000000000000000000000000000000000000000000e-70",
        "1.00000005960464477539062", "1.00000005960464477539063", "1.000000059604644775390625",
        "1.0000001788139343", "1.00000017881393432617187", "1.00000017881393432617188",
        "9007199254740993", "0.99999997", "0.999999970197677612304687",
        "-0.0", "-1e-60", "1e-61", "0e99999999999999999999999", "1e-99999999999999999999999",
        "1e99999999999999999999999", "-1e99999999999999999999999", "4e-46", "65504", "1e60",
        "1e61", "1e62", "0.5e61", "12e60",
    ] {
        assert_eq!(parse_number(text), expected(text), "{:?}", text);
    }
}

#[test]
fn printed_numbers_are_read_back() {
    let mut seed: u32 = 2463534242;
    for _ in 0..20000 {
        seed ^= seed << 13;
        seed ^= seed >> 17;
        seed ^= seed << 5;
        let x = f32::from_bits(seed);
        if x.is_nan() {
            continue;
        }
        let text = format!("{}", x);
        assert_eq!(parse_number(&text), Some(x.to_bits()), "{:?}", text);
        let text = format!("{:e}", x);
        assert_eq!(parse_number(&text), Some(x.to_bits()), "{:?}", text);
    }
}

#[test]
fn long_decimals_are_read_as_by_the_standard_library() {
    let mut seed: u64 = 88172645463325252;
    for _ in 0..5000 {
        seed ^= seed << 13;
        seed ^= seed >> 7;
        seed ^= seed << 17;
        let x = f64::from_bits(seed);
        if !x.is_finite() {
            continue;
        }
        let exponent = (seed % 100) as i32 - 50;
        let text = format!("{}e{}", (seed >> 11) % 1_000_000_000_000, exponent);
        assert_eq!(parse_number(&text), expected(&text), "{:?}", text);
        let text = format!("0.{:018}e{}", seed % 1_000_000_000_000_000_000, exponent);
        assert_eq!(parse_number(&text), expected(&text), "{:?}", text);
    }
}
