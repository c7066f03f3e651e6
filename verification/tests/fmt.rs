use rusty_broom::fmt::{bytes, maybe_bytes, parse_bytes, SizeError};

#[test]
fn formats_sizes() {
    assert_eq!(bytes(0), "0 B");
    assert_eq!(bytes(999), "999 B");
    assert_eq!(bytes(1024), "1.00 KiB");
    assert_eq!(bytes(1536), "1.50 KiB");
    assert_eq!(bytes(20 * 1024), "20.0 KiB");
    assert_eq!(bytes(500 * 1024), "500 KiB");
    assert_eq!(bytes(4 * 1024 * 1024 * 1024), "4.00 GiB");
}

#[test]
fn parses_sizes() {
    assert_eq!(parse_bytes("0").unwrap(), 0);
    assert_eq!(parse_bytes("2048").unwrap(), 2048);
    assert_eq!(parse_bytes("1k").unwrap(), 1024);
    assert_eq!(parse_bytes("500M").unwrap(), 500 * (1 << 20));
    assert_eq!(parse_bytes("1.5GiB").unwrap(), 1610612736);
    assert!(parse_bytes("big").is_err());
    assert!(parse_bytes("10x").is_err());
}

/// The same text by way of a double: the first unit and the most places that
/// leave three digits.
fn by_double(value: u64) -> String {
    if value < 1024 {
        return format!("{value} B");
    }
    let mut size = value as f64;
    for unit in ["KiB", "MiB", "GiB", "TiB", "PiB"] {
        size /= 1024.0;
        for places in [2, 1, 0] {
            let number = format!("{size:.places$}");
            if number.len() <= 4 - usize::from(places == 0) {
                return format!("{number} {unit}");
            }
        }
    }
    format!("{size:.0} PiB")
}

fn sample_values() -> Vec<u64> {
    let mut values = vec![0, 1, 1023, 1024, 1025, 10235, 10239, 10240, 102_349, 102_399, 102_400];
    values.extend([u64::MAX, u64::MAX - 1, (1 << 53) - 1, 1 << 53, (1 << 53) + 1, (1 << 54) + 2]);
    for shift in 0..64 {
        let base = 1u64 << shift;
        for delta in [0u64, 1, 5, 511, 512, 513] {
            values.push(base.wrapping_add(delta));
            values.push(base.wrapping_sub(delta));
            values.push(base.wrapping_mul(10).wrapping_sub(delta));
            values.push(base.wrapping_mul(99).wrapping_add(delta));
        }
    }
    let mut seed = 0x9e37_79b9_7f4a_7c15u64;
    for _ in 0..2000 {
        seed ^= seed << 13;
        seed ^= seed >> 7;
        seed ^= seed << 17;
        values.push(seed);
        values.push(seed >> 20);
        values.push(seed >> 40);
    }
    values
}

#[test]
fn sizes_are_shown_as_doubles_are() {
    for value in sample_values() {
        assert_eq!(bytes(value), by_double(value), "{value}");
    }
}

#[test]
fn sizes_stay_narrow() {
    for value in sample_values() {
        assert!(bytes(value).chars().count() <= 9, "{value}");
    }
    assert_eq!(bytes(u64::MAX), "16384 PiB");
}

#[test]
fn sizes_keep_three_digits() {
    for value in sample_values() {
        if (1024..=999 << 50).contains(&value) {
            let text = bytes(value);
            let (number, unit) = text.split_once(' ').unwrap();
            assert_eq!(number.chars().filter(|c| c.is_ascii_digit()).count(), 3, "{text}");
            assert!(["KiB", "MiB", "GiB", "TiB", "PiB"].contains(&unit), "{text}");
        }
    }
    assert_eq!(bytes(1_024_000), "0.98 MiB");
    assert_eq!(bytes(1023 * 1024), "1.00 MiB");
    assert_eq!(bytes(999 * 1024), "999 KiB");
    assert_eq!(bytes(10_235), "10.0 KiB");
    assert_eq!(bytes(10_234), "9.99 KiB");
    assert_eq!(bytes(102_399), "100 KiB");
    assert_eq!(bytes(999 << 50), "999 PiB");
    assert_eq!(bytes(1000 << 50), "1000 PiB");
}

#[test]
fn unknown_sizes_have_a_placeholder() {
    assert_eq!(maybe_bytes(Some(2048)), "2.00 KiB");
    assert_eq!(maybe_bytes(None), "\u{2014}");
}

#[test]
fn sizes_are_read_as_doubles_are() {
    let numbers = [
        "0", "1", "7", "10", "999", "0.1", "1.5", "2.25", ".5", "5.", "1,5", "0.3", "3.14159",
        "9007199254740993", "18446744073709551615", "18446744073709551616", "123456789.987654321",
        "0.000000000931322574615478515625", "0.0000000000001", "1000000000000000000000000000000",
        "4503599627370497.5", "9007199254740992.5", "0.99999999999999999999",
    ];
    let suffixes = [
        ("", 1u64), ("b", 1), ("K", 1 << 10), ("kb", 1 << 10), ("KiB", 1 << 10), ("m", 1 << 20),
        ("MB", 1 << 20), ("g", 1 << 30), ("GiB", 1 << 30), ("t", 1 << 40), ("TiB", 1 << 40),
    ];
    for number in numbers {
        for (suffix, multiplier) in suffixes {
            let text = format!(" {number} {suffix} ");
            let expected =
                (number.replace(',', ".").parse::<f64>().unwrap() * multiplier as f64) as u64;
            assert_eq!(parse_bytes(&text), Ok(expected), "{text:?}");
        }
    }
}

#[test]
fn whole_sizes_are_read_exactly() {
    for n in [0u64, 1, 12, 4095, 1_000_000, (1 << 53) - 1] {
        assert_eq!(parse_bytes(&format!("{n}")), Ok(n));
    }
    assert_eq!(parse_bytes("3tib"), Ok(3 << 40));
    assert_eq!(parse_bytes("9007199254740991t"), Ok(u64::MAX));
}

#[test]
fn sizes_say_what_is_wrong() {
    let error = parse_bytes("big").unwrap_err();
    assert_eq!(error, SizeError::Invalid { text: "big".to_string() });
    assert_eq!(error.message(), "invalid size \"big\"");
    let error = parse_bytes(" 10 XB").unwrap_err();
    assert_eq!(
        error,
        SizeError::UnknownUnit { unit: "xb".to_string(), text: " 10 XB".to_string() }
    );
    assert_eq!(error.message(), "unknown size unit \"xb\" in \" 10 XB\"");
    assert!(parse_bytes("").is_err());
    assert!(parse_bytes(".").is_err());
    assert!(parse_bytes("1.2.3").is_err());
    assert!(parse_bytes("-5").is_err());
}

#[test]
fn size_faults_are_worded() {
    let error = SizeError::UnknownUnit { unit: "x".to_string(), text: "10x".to_string() };
    assert_eq!(error.worded("<10x>", "<x>"), "unknown size unit <x> in <10x>");
    assert_eq!(SizeError::Invalid { text: "big".to_string() }.worded("<big>", ""), "invalid size <big>");
}
