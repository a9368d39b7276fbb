use snp_sampler::numerals::{parse_i64, parse_u8, push_decimal, push_digits, read_digits};

#[test]
fn signed_numerals() {
    assert_eq!(parse_i64("0"), Some(0));
    assert_eq!(parse_i64("12345"), Some(12345));
    assert_eq!(parse_i64("-12345"), Some(-12345));
    assert_eq!(parse_i64("+7"), Some(7));
    assert_eq!(parse_i64("-0"), Some(0));
    assert_eq!(parse_i64("007"), Some(7));
    assert_eq!(parse_i64("9223372036854775807"), Some(i64::MAX));
    assert_eq!(parse_i64("-9223372036854775808"), Some(i64::MIN));
    assert_eq!(parse_i64("0000000000000000000000000000000000000001"), Some(1));
}

#[test]
fn text_that_is_no_signed_numeral() {
    for text in [
        "", "+", "-", "--1", "+-1", "1-", "12a", "a12", " 12", "12 ", "1.0", "1e3", "0x10",
        "9223372036854775808", "-9223372036854775809", "99999999999999999999999999", "١٢",
    ] {
        assert_eq!(parse_i64(text), None);
    }
}

#[test]
fn small_unsigned_numerals() {
    assert_eq!(parse_u8("0"), Some(0));
    assert_eq!(parse_u8("3"), Some(3));
    assert_eq!(parse_u8("+3"), Some(3));
    assert_eq!(parse_u8("255"), Some(255));
    assert_eq!(parse_u8("0255"), Some(255));
    for text in ["", "+", "-", "-0", "-1", "256", "1000", "a", "1 ", "2.5"] {
        assert_eq!(parse_u8(text), None);
    }
}

#[test]
fn reading_agrees_with_the_standard_parsers() {
    let samples = [
        "", "0", "-", "+", "+0", "-0", "1", "-1", "+1", "10", "255", "256", "-128", "00", "+-3", "3+",
        "127", "128", "9223372036854775807", "9223372036854775808", "-9223372036854775808",
        "-9223372036854775809", "18446744073709551616", "4x", "x4", " 4", "४",
    ];
    for text in samples {
        assert_eq!(parse_i64(text), text.parse::<i64>().ok());
        assert_eq!(parse_u8(text), text.parse::<u8>().ok());
    }
    for n in -300..300i64 {
        let text = n.to_string();
        assert_eq!(parse_i64(&text), Some(n));
        assert_eq!(parse_u8(&text), text.parse::<u8>().ok());
    }
}

#[test]
fn digits_are_read_up_to_a_limit() {
    let chars: Vec<char> = "ab0123".chars().collect();
    assert_eq!(read_digits(&chars, 2, 123), Some(123));
    assert_eq!(read_digits(&chars, 2, 122), None);
    assert_eq!(read_digits(&chars, 5, 3), Some(3));
    assert_eq!(read_digits(&chars, 6, 3), None);
    assert_eq!(read_digits(&chars, 1, 1000), None);
    let big: Vec<char> = "18446744073709551615".chars().collect();
    assert_eq!(read_digits(&big, 0, u64::MAX), Some(u64::MAX));
    let bigger: Vec<char> = "18446744073709551616".chars().collect();
    assert_eq!(read_digits(&bigger, 0, u64::MAX), None);
}

#[test]
fn numbers_are_written_in_decimal() {
    let mut out = String::from("x=");
    push_decimal(&mut out, 0);
    out.push(',');
    push_decimal(&mut out, -45);
    out.push(',');
    push_decimal(&mut out, 1002003);
    out.push(',');
    push_decimal(&mut out, i64::MAX);
    out.push(',');
    push_decimal(&mut out, i64::MIN);
    assert_eq!(out, "x=0,-45,1002003,9223372036854775807,-9223372036854775808");
    let mut digits = String::new();
    push_digits(&mut digits, u64::MAX);
    push_digits(&mut digits, 10);
    assert_eq!(digits, "1844674407370955161510");
}

#[test]
fn what_is_written_reads_back() {
    for n in [0, 1, -1, 9, 10, -10, 99, 100, 123456789, -987654321, i64::MAX, i64::MIN] {
        let mut text = String::new();
        push_decimal(&mut text, n);
        assert_eq!(text, n.to_string());
        assert_eq!(parse_i64(&text), Some(n));
    }
}
