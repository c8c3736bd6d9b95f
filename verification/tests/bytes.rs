use jftermd::bytes::{bytes_equal, extend_bytes, parse_u8, push_decimal, push_decimal_text};

#[test]
fn decimals_are_written_without_leading_zeros() {
    for (n, text) in [(0, "0"), (7, "7"), (10, "10"), (65535, "65535"), (u32::MAX, "4294967295")] {
        let mut out = b">".to_vec();
        push_decimal(&mut out, n);
        assert_eq!(out, format!(">{text}").into_bytes());
        let mut s = String::from(">");
        push_decimal_text(&mut s, n);
        assert_eq!(s, format!(">{text}"));
    }
}

#[test]
fn every_small_number_is_read_back() {
    for n in 0..=255u8 {
        let mut out = Vec::new();
        push_decimal(&mut out, n as u32);
        assert_eq!(parse_u8(&out), Some(n));
    }
}

#[test]
fn numbers_are_read_as_std_does() {
    for s in ["", "+", "-", "-0", "+5", "005", "255", "256", "1000", "12a", " 1", "99999999999999"] {
        assert_eq!(parse_u8(s.as_bytes()), s.parse::<u8>().ok());
    }
}

#[test]
fn byte_strings() {
    let mut out = b"ab".to_vec();
    extend_bytes(&mut out, b"cd");
    assert!(bytes_equal(&out, b"abcd"));
    assert!(!bytes_equal(&out, b"abce"));
    assert!(!bytes_equal(&out, b"abc"));
}
