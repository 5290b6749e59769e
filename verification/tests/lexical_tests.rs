use cc2p::lexical::{append_decimal, digit, is_float, parse_boolean, parse_integer, scan_digits, to_lower};

#[test]
fn integers_are_read() {
    assert_eq!(parse_integer(b"0"), Some(0));
    assert_eq!(parse_integer(b"7"), Some(7));
    assert_eq!(parse_integer(b"-1"), Some(-1));
    assert_eq!(parse_integer(b"+42"), Some(42));
    assert_eq!(parse_integer(b"00012"), Some(12));
    assert_eq!(parse_integer(b"-0"), Some(0));
    assert_eq!(parse_integer(b"1234567890"), Some(1234567890));
}

#[test]
fn integers_at_the_limits_are_read() {
    assert_eq!(parse_integer(b"9223372036854775807"), Some(i64::MAX));
    assert_eq!(parse_integer(b"+9223372036854775807"), Some(i64::MAX));
    assert_eq!(parse_integer(b"-9223372036854775808"), Some(i64::MIN));
    assert_eq!(parse_integer(b"-9223372036854775807"), Some(i64::MIN + 1));
    assert_eq!(parse_integer(b"0000000000000000000000000009223372036854775807"), Some(i64::MAX));
}

#[test]
fn integers_beyond_the_limits_are_refused() {
    assert_eq!(parse_integer(b"9223372036854775808"), None);
    assert_eq!(parse_integer(b"-9223372036854775809"), None);
    assert_eq!(parse_integer(b"18446744073709551616"), None);
    assert_eq!(parse_integer(b"99999999999999999999999999999999999999999999"), None);
    assert_eq!(parse_integer(b"-99999999999999999999999999999999999999999999"), None);
}

#[test]
fn text_that_is_no_integer_is_refused() {
    assert_eq!(parse_integer(b""), None);
    assert_eq!(parse_integer(b"+"), None);
    assert_eq!(parse_integer(b"-"), None);
    assert_eq!(parse_integer(b"--1"), None);
    assert_eq!(parse_integer(b"1-"), None);
    assert_eq!(parse_integer(b"12a"), None);
    assert_eq!(parse_integer(b"a12"), None);
    assert_eq!(parse_integer(b" 1"), None);
    assert_eq!(parse_integer(b"1 "), None);
    assert_eq!(parse_integer(b"1.0"), None);
    assert_eq!(parse_integer(b"1e3"), None);
    assert_eq!(parse_integer(b"1_000"), None);
}

#[test]
fn integer_agrees_with_the_standard_parser() {
    let samples: [&str; 12] = [
        "0", "-0", "+0", "17", "-17", "+17", "007", "9223372036854775807", "9223372036854775808",
        "-9223372036854775808", "-9223372036854775809", "12x",
    ];
    for s in samples {
        assert_eq!(parse_integer(s.as_bytes()), s.parse::<i64>().ok(), "{}", s);
    }
}

#[test]
fn floats_are_recognised() {
    for s in [
        "3.5", "7", "-7", "+7", ".5", "5.", "-.5", "+5.", "0.0", "1e5", "1E5", "1e+5", "1e-5",
        "1.5e10", ".5e1", "5.e1", "-1.25E-3", "00.100", "123456789012345678901234567890",
        "1e400",
    ] {
        assert!(is_float(s.as_bytes()), "{}", s);
    }
}

#[test]
fn text_that_is_no_float_is_refused() {
    for s in [
        "", ".", "+", "-", "+.", "e5", ".e5", "1e", "1e+", "1e-", "1e5.5", "1.2.3", "1..2", "--1",
        "1-", "1e5e5", "1x", "x1", " 1.0", "1.0 ", "1,5", "inf", "nan", "NaN", "Infinity", "0x10",
        "1_0.0", "true",
    ] {
        assert!(!is_float(s.as_bytes()), "{}", s);
    }
}

#[test]
fn every_float_is_one_for_the_standard_parser() {
    for s in ["3.5", "7", ".5", "5.", "1e5", "1E-5", "+.5e+3", "-1.25E-3", "1e400", "00.100"] {
        assert!(is_float(s.as_bytes()));
        assert!(s.parse::<f64>().is_ok(), "{}", s);
    }
    assert_eq!("3.5".parse::<f64>(), Ok(3.5));
}

#[test]
fn booleans_are_read_in_any_case() {
    assert_eq!(parse_boolean(b"true"), Some(true));
    assert_eq!(parse_boolean(b"false"), Some(false));
    assert_eq!(parse_boolean(b"TRUE"), Some(true));
    assert_eq!(parse_boolean(b"FALSE"), Some(false));
    assert_eq!(parse_boolean(b"True"), Some(true));
    assert_eq!(parse_boolean(b"fAlSe"), Some(false));
}

#[test]
fn text_that_is_no_boolean_is_refused() {
    for s in ["", "t", "tru", "truee", "fals", "falsee", "yes", "no", "1", "0", " true", "true ", "t\u{12b}ue"] {
        assert_eq!(parse_boolean(s.as_bytes()), None, "{}", s);
    }
    // Bytes that differ from the letters by the case bit only where they are letters.
    assert_eq!(parse_boolean(&[b't', b'r', b'u', b'e' ^ 0x20, 0]), None);
    assert_eq!(parse_boolean(&[0x54, 0x52, 0x55, 0x45]), Some(true));
    assert_eq!(parse_boolean(&[0x14, 0x52, 0x55, 0x45]), None);
}

#[test]
fn digits_are_scanned() {
    assert_eq!(scan_digits(b"123abc", 0), 3);
    assert_eq!(scan_digits(b"123abc", 1), 3);
    assert_eq!(scan_digits(b"123abc", 3), 3);
    assert_eq!(scan_digits(b"123abc", 6), 6);
    assert_eq!(scan_digits(b"123", 0), 3);
    assert_eq!(scan_digits(b"", 0), 0);
    assert!(digit(b'0') && digit(b'9') && !digit(b'/') && !digit(b':'));
}

#[test]
fn letters_are_lowered() {
    assert_eq!(to_lower(b'A'), b'a');
    assert_eq!(to_lower(b'Z'), b'z');
    assert_eq!(to_lower(b'a'), b'a');
    assert_eq!(to_lower(b'@'), b'@');
    assert_eq!(to_lower(b'['), b'[');
    assert_eq!(to_lower(b'1'), b'1');
}

#[test]
fn numbers_are_written_in_base_ten() {
    for (n, text) in [(0usize, "0"), (7, "7"), (10, "10"), (99, "99"), (100, "100"), (8192, "8192"), (1234567890, "1234567890")] {
        let mut buf: Vec<u8> = b"x".to_vec();
        append_decimal(&mut buf, n);
        assert_eq!(buf, format!("x{}", text).into_bytes());
    }
    let mut buf: Vec<u8> = Vec::new();
    append_decimal(&mut buf, usize::MAX);
    assert_eq!(buf, format!("{}", usize::MAX).into_bytes());
}

fn strings_over(alphabet: &[u8], max_len: usize) -> Vec<Vec<u8>> {
    let mut all: Vec<Vec<u8>> = vec![Vec::new()];
    let mut last: Vec<Vec<u8>> = vec![Vec::new()];
    for _ in 0..max_len {
        let mut next: Vec<Vec<u8>> = Vec::new();
        for s in &last {
            for b in alphabet {
                let mut t = s.clone();
                t.push(*b);
                next.push(t);
            }
        }
        all.extend(next.iter().cloned());
        last = next;
    }
    all
}

#[test]
fn floats_are_those_of_the_standard_parser_on_every_short_text() {
    // Without the letters of `inf` and `nan`, the standard parser takes the
    // decimal literals and nothing else.
    for s in strings_over(b"+-.eE05x", 6) {
        let text = std::str::from_utf8(&s).unwrap();
        assert_eq!(is_float(&s), text.parse::<f64>().is_ok(), "{:?}", text);
    }
}

#[test]
fn integers_are_those_of_the_standard_parser_on_every_short_text() {
    for s in strings_over(b"+-019 ", 6) {
        let text = std::str::from_utf8(&s).unwrap();
        assert_eq!(parse_integer(&s), text.parse::<i64>().ok(), "{:?}", text);
    }
    for n in [i64::MAX as i128 - 2, i64::MAX as i128 + 2, i64::MIN as i128 - 2, i64::MIN as i128 + 2] {
        for d in -3i128..4 {
            let text = (n + d).to_string();
            assert_eq!(parse_integer(text.as_bytes()), text.parse::<i64>().ok(), "{}", text);
        }
    }
}
