use rpc_monitor::decimal::{append_decimal, parse_signed, parse_unsigned, push_decimal, push_signed_decimal};

#[test]
fn numbers_are_written_and_read_back() {
    for n in [0u64, 9, 10, 99, 100, 1_000_000, u64::MAX] {
        let mut bytes = Vec::new();
        push_decimal(&mut bytes, n);
        assert_eq!(bytes, n.to_string().into_bytes());
        assert_eq!(parse_unsigned(&bytes), Some(n));
        let mut text = String::from("n=");
        append_decimal(&mut text, n);
        assert_eq!(text, format!("n={n}"));
    }
}

#[test]
fn signed_numbers_are_written_and_read_back() {
    for n in [0i64, -1, 42, -42, i64::MAX, i64::MIN] {
        let mut bytes = Vec::new();
        push_signed_decimal(&mut bytes, n);
        assert_eq!(bytes, n.to_string().into_bytes());
        assert_eq!(parse_signed(&bytes), Some(n));
    }
}

#[test]
fn numbers_are_read_as_the_standard_library_reads_them() {
    let texts = [
        "", "+", "-", "0", "00", "+0", "-0", "+5", "-5", "007", "1a", " 1", "1 ", "--1", "+-1",
        "9223372036854775807", "9223372036854775808", "-9223372036854775808", "-9223372036854775809",
        "18446744073709551615", "18446744073709551616", "99999999999999999999999", "٣",
    ];
    for text in texts {
        assert_eq!(parse_unsigned(text.as_bytes()), text.parse::<u64>().ok(), "{text}");
        assert_eq!(parse_signed(text.as_bytes()), text.parse::<i64>().ok(), "{text}");
    }
}
