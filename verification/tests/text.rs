use utxo2webgraph::text::{
    append_decimal, append_decimal_right, append_padded, append_signed, append_signed_left,
    append_signed_padded, count_fields, field, is_blank, parse_i32, parse_i64, parse_u32,
    parse_u64, parse_usize, piece, push_decimal, push_signed, same_text, white_space,
};

#[test]
fn white_space_is_what_unicode_says() {
    for n in 0..=0x10FFFFu32 {
        if let Some(c) = char::from_u32(n) {
            assert_eq!(white_space(c), c.is_whitespace(), "U+{n:04X}");
        }
    }
    assert!(is_blank(" \u{3000}\t\r\n"));
    assert!(!is_blank(" x "));
    assert!(is_blank(""));
}

#[test]
fn integers_are_read_as_std_reads_them() {
    for s in [
        "", "0", "-0", "+0", "1", "-1", "+1", "--1", "+-1", "-", "+", " 1", "1 ", "01", "1_0", "0x1",
        "2147483647", "2147483648", "-2147483648", "-2147483649", "4294967295", "4294967296",
        "9223372036854775807", "9223372036854775808", "-9223372036854775808",
        "-9223372036854775809", "18446744073709551615", "18446744073709551616",
        "00000000000000000000000000000007", "\u{0661}",
    ] {
        assert_eq!(parse_i32(s), s.parse::<i32>().ok(), "{s:?}");
        assert_eq!(parse_i64(s), s.parse::<i64>().ok(), "{s:?}");
        assert_eq!(parse_u32(s), s.parse::<u32>().ok(), "{s:?}");
        assert_eq!(parse_u64(s), s.parse::<u64>().ok(), "{s:?}");
        assert_eq!(parse_usize(s), s.parse::<usize>().ok(), "{s:?}");
    }
}

#[test]
fn integers_are_written_as_std_writes_them() {
    for n in [0u64, 1, 9, 10, 99, 100, 12345, u64::MAX] {
        let mut out = String::new();
        append_decimal(&mut out, n);
        assert_eq!(out, n.to_string());
        let mut buf = Vec::new();
        push_decimal(&mut buf, n);
        assert_eq!(buf, n.to_string().into_bytes());
        let mut out = String::new();
        append_padded(&mut out, n, 5);
        assert_eq!(out, format!("{n:05}"));
        let mut out = String::new();
        append_decimal_right(&mut out, n, 5);
        assert_eq!(out, format!("{n:>5}"));
    }
    for v in [0i64, 7, -7, i64::MIN, i64::MAX, -12345] {
        let mut out = String::new();
        append_signed(&mut out, v);
        assert_eq!(out, v.to_string());
        let mut buf = Vec::new();
        push_signed(&mut buf, v);
        assert_eq!(buf, v.to_string().into_bytes());
        let mut out = String::new();
        append_signed_left(&mut out, v, 14);
        assert_eq!(out, format!("{v:<14}"));
        let mut out = String::new();
        append_signed_padded(&mut out, v, 4);
        assert_eq!(out, format!("{v:04}"));
    }
}

#[test]
fn fields_are_cut_at_separators() {
    assert_eq!(count_fields(b"a,b,,", b','), 2);
    assert_eq!(count_fields(b",a", b','), 2);
    assert_eq!(count_fields(b"", b','), 1);
    assert_eq!(count_fields(b",,", b','), 0);
    assert_eq!(piece("a,b,c", b',', 1), "b");
    assert_eq!(piece("a,,c", b',', 1), "");
    assert_eq!(field("a,b,c", b',', 2), "c");
    assert!(same_text("é", "é"));
    assert!(!same_text("e", "é"));
}
