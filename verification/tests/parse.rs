use kernels::num_parse::lanes;
use kernels::num_parse::normal::parse_u64;

#[test]
fn parses_plain_number() {
    assert_eq!(parse_u64("123123123"), Some(123_123_123));
}

#[test]
fn rejects_trailing_letter() {
    assert_eq!(parse_u64("123123123a"), None);
}

#[test]
fn parses_u64_max() {
    assert_eq!(parse_u64("18446744073709551615"), Some(u64::MAX));
}

#[test]
fn rejects_u64_max_plus_one() {
    assert_eq!(parse_u64("18446744073709551616"), None);
}

#[test]
fn empty_string_is_zero() {
    assert_eq!(parse_u64(""), Some(0));
}

#[test]
fn parses_zero_and_single_digits() {
    for d in 0..=9u64 {
        assert_eq!(parse_u64(&d.to_string()), Some(d));
    }
}

#[test]
fn rejects_sign_whitespace_and_separators() {
    assert_eq!(parse_u64("+1"), None);
    assert_eq!(parse_u64("-1"), None);
    assert_eq!(parse_u64(" 1"), None);
    assert_eq!(parse_u64("1 "), None);
    assert_eq!(parse_u64("1_000"), None);
    assert_eq!(parse_u64("1,000"), None);
    assert_eq!(parse_u64("0x10"), None);
}

#[test]
fn rejects_twenty_nines() {
    assert_eq!(parse_u64("99999999999999999999"), None);
}

#[test]
fn parses_nineteen_nines() {
    assert_eq!(parse_u64("9999999999999999999"), Some(9_999_999_999_999_999_999));
}

#[test]
fn leading_zeros_keep_small_values_in_range() {
    assert_eq!(parse_u64("0000000000000000000000001"), Some(1));
    assert_eq!(parse_u64("00000000000000000000"), Some(0));
}

#[test]
fn rejects_non_ascii() {
    assert_eq!(parse_u64("１２３"), None);
    assert_eq!(parse_u64("12³"), None);
}

#[test]
fn wide_parser_scenarios() {
    assert_eq!(lanes::parse_u64("123123123"), Some(123_123_123));
    assert_eq!(lanes::parse_u64("123123123a"), None);
    assert_eq!(lanes::parse_u64("18446744073709551615"), Some(u64::MAX));
    assert_eq!(lanes::parse_u64("18446744073709551616"), None);
    assert_eq!(lanes::parse_u64(""), Some(0));
    assert_eq!(lanes::parse_u64("18446744073709551614"), Some(u64::MAX - 1));
    for (n, text) in [
        (7u64, "7"),
        (42, "42"),
        (999, "999"),
        (12345678, "12345678"),
        (123456789, "123456789"),
        (1234567890123456, "1234567890123456"),
        (12345678901234567, "12345678901234567"),
        (12345678901234567890, "12345678901234567890"),
    ] {
        assert_eq!(lanes::parse_u64(text), Some(n));
    }
}

#[test]
fn wide_parser_rejects_over_twenty_digits_outright() {
    assert_eq!(lanes::parse_u64("0000000000000000000000001"), None);
    assert_eq!(parse_u64("0000000000000000000000001"), Some(1));
}

#[test]
fn wide_parser_limb_test_is_conservative() {
    // The value fits in a u64, but its low sixteen digits exceed the limb
    // bound, so the wide form rejects it while the scalar form does not.
    assert_eq!(lanes::parse_u64("10009999999999999999"), None);
    assert_eq!(parse_u64("10009999999999999999"), Some(10_009_999_999_999_999_999));
}

#[test]
fn wide_parser_agrees_with_scalar_on_random_values() {
    let mut state: u64 = 0xB7E151628AED2A6A;
    for _ in 0..200_000u32 {
        state = state
            .wrapping_mul(6364136223846793005)
            .wrapping_add(1442695040888963407);
        for text in [state.to_string(), (state >> 20).to_string(), (state >> 44).to_string()] {
            let wide = lanes::parse_u64(&text);
            assert!(wide.is_none() || wide == parse_u64(&text));
            if text.len() <= 16 {
                assert_eq!(wide, parse_u64(&text));
            }
        }
    }
}

#[test]
fn agrees_with_standard_parser_on_random_values() {
    let mut state: u64 = 0x243F6A8885A308D3;
    for _ in 0..1_000_000u32 {
        state = state
            .wrapping_mul(6364136223846793005)
            .wrapping_add(1442695040888963407);
        let text = state.to_string();
        assert_eq!(parse_u64(&text), text.parse::<u64>().ok());
    }
}
