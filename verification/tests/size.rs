use ports_box::config::{format_size, parse_size, ByteSize};

#[test]
fn parse_size_variants() {
    assert_eq!(parse_size("1024").unwrap(), 1024);
    assert_eq!(parse_size("1KB").unwrap(), 1024);
    assert_eq!(parse_size("500MB").unwrap(), 500 << 20);
    assert_eq!(parse_size("10GB").unwrap(), 10 << 30);
    assert_eq!(parse_size("10 GiB").unwrap(), 10 << 30);
    assert_eq!(parse_size("1tb").unwrap(), 1 << 40);
    assert_eq!(
        parse_size("1.5GB").unwrap(),
        (1.5 * (1u64 << 30) as f64) as u64
    );
    assert!(parse_size("10XB").is_err());
    assert!(parse_size("abc").is_err());
    assert!(parse_size("").is_err());
}

#[test]
fn format_size_auto_units() {
    assert_eq!(format_size(0), "0B");
    assert_eq!(format_size(413), "413B");
    assert_eq!(format_size(11568), "11.30KB");
    assert_eq!(format_size(52428800), "50.00MB");
    assert_eq!(format_size(875099586560), "815.00GB");
    assert_eq!(format_size(52417232), "49.99MB");
    assert_eq!(format_size(2 << 40), "2.00TB");
}

/// A fixed row of numbers that look random.
fn scramble(state: &mut u64) -> u64 {
    *state = state
        .wrapping_mul(6364136223846793005)
        .wrapping_add(1442695040888963407);
    let x = *state;
    (x ^ (x >> 29)).wrapping_mul(0xbf58476d1ce4e5b9) ^ (x >> 31)
}

/// The size in double precision.
fn size_in_doubles(numeral: &str, mult: u64) -> Option<u64> {
    let num: f64 = numeral.parse().ok()?;
    let bytes = num * mult as f64;
    if !bytes.is_finite() || bytes < 0.0 || bytes > u64::MAX as f64 {
        return None;
    }
    Some(bytes as u64)
}

/// The text of a size in double precision.
fn text_in_doubles(bytes: u64) -> String {
    let units = ["B", "KB", "MB", "GB", "TB"];
    let mut value = bytes as f64;
    let mut unit = 0;
    while value >= 1024.0 && unit < units.len() - 1 {
        value /= 1024.0;
        unit += 1;
    }
    if unit == 0 {
        return format!("{bytes}B");
    }
    format!("{value:.2}{}", units[unit])
}

#[test]
fn sizes_parse_as_in_double_precision() {
    let units = [("", 0u32), ("B", 0), ("K", 10), ("MiB", 20), ("gb", 30), ("tib", 40)];
    let mut state = 7;
    for round in 0..4000 {
        let whole = scramble(&mut state) >> (scramble(&mut state) % 64);
        let fraction = scramble(&mut state) >> (scramble(&mut state) % 64);
        let numeral = match round % 4 {
            0 => format!("{whole}"),
            1 => format!("{whole}.{fraction}"),
            2 => format!(".{fraction}"),
            _ => format!("{}.{}", whole % 4096, fraction % 1000),
        };
        for (unit, shift) in units {
            let text = format!("{numeral}{unit}");
            assert_eq!(
                parse_size(&text).ok(),
                size_in_doubles(&numeral, 1 << shift),
                "{text}"
            );
        }
    }
}

#[test]
fn odd_numerals_parse_as_in_double_precision() {
    for numeral in [
        "0", "00", "0.0", "007", "5.", ".5", "1.0000000000000001", "1.00000000000000011102230246251565",
        "1.00000000000000011102230246251566", "9007199254740993", "9007199254740992.9999",
        "9007199254740993.0000000000000001", "18446744073709551614", "18446744073709551615",
        "18446744073709551616", "18446744073709553664", "18446744073709553665",
        "18446744073709555712", "0.000000000000000000000000000000000000000000001",
        "123456789012345678901234567890",
    ] {
        for (unit, shift) in [("", 0u32), ("K", 10), ("M", 20), ("G", 30), ("T", 40)] {
            let text = format!("{numeral}{unit}");
            assert_eq!(parse_size(&text).ok(), size_in_doubles(numeral, 1 << shift), "{text}");
        }
    }
    let long = format!("0.{}1", "0".repeat(400));
    assert_eq!(parse_size(&long).unwrap(), 0);
    let huge = format!("1{}", "0".repeat(400));
    assert_eq!(parse_size(&huge).unwrap_err(), format!("size out of range: {huge:?}"));
}

#[test]
fn sizes_format_as_in_double_precision() {
    let mut state = 11;
    for _ in 0..20000 {
        let bytes = scramble(&mut state) >> (scramble(&mut state) % 64);
        assert_eq!(format_size(bytes), text_in_doubles(bytes), "{bytes}");
    }
    for shift in 0..64 {
        for near in 0..3u64 {
            let bytes = (1u64 << shift).wrapping_add(near).wrapping_sub(1);
            assert_eq!(format_size(bytes), text_in_doubles(bytes), "{bytes}");
        }
    }
}

#[test]
fn halves_of_a_hundredth_round_to_even() {
    // 1.125 KB and 1.375 KB lie exactly between two hundredths.
    assert_eq!(format_size(1152), "1.12KB");
    assert_eq!(format_size(1408), "1.38KB");
    // Just below a unit the hundredths may round up to 1024.
    assert_eq!(format_size((1 << 20) - 1), "1024.00KB");
    assert_eq!(format_size(u64::MAX), "16777216.00TB");
}

#[test]
fn size_errors_quote_the_text() {
    assert_eq!(parse_size("").unwrap_err(), "invalid size: \"\"");
    assert_eq!(parse_size(" abc ").unwrap_err(), "invalid size: \"abc\"");
    assert_eq!(parse_size("1.2.3").unwrap_err(), "invalid size: \"1.2.3\"");
    assert_eq!(parse_size(".").unwrap_err(), "invalid size: \".\"");
    assert_eq!(parse_size("-1").unwrap_err(), "invalid size: \"-1\"");
    assert_eq!(parse_size("10 xb").unwrap_err(), "unknown size unit \"XB\" in \"10 xb\"");
    assert_eq!(parse_size("1\"").unwrap_err(), "unknown size unit \"\\\"\" in \"1\\\"\"");
    assert_eq!(
        parse_size("99999999TB").unwrap_err(),
        "size out of range: \"99999999TB\""
    );
}

#[test]
fn units_ignore_case_and_space() {
    for text in ["2kb", "2KB", "2kB", " 2 K ", "2\u{a0}KiB", "\u{3000}2\tkib"] {
        assert_eq!(parse_size(text).unwrap(), 2048, "{text:?}");
    }
}

#[test]
fn only_case_and_space_make_no_difference() {
    for text in ["1.5 gib", "\t1.5GIB ", "1.5\u{2003}\u{2003}GiB", "1.5gIb"] {
        assert_eq!(parse_size(text).unwrap(), 3 << 29, "{text:?}");
    }
    for text in ["1.5 gi", " 1.5GI", "1 .5gib", "1.5 g b"] {
        assert!(parse_size(text).is_err(), "{text:?}");
    }
}

#[test]
fn sizes_below_a_kilobyte_read_back() {
    for bytes in 0..1024 {
        assert_eq!(parse_size(&format_size(bytes)).unwrap(), bytes);
    }
}

#[test]
fn sizes_read_back_within_a_hundredth() {
    let mut state = 13;
    for _ in 0..20000 {
        let bytes = scramble(&mut state) >> (scramble(&mut state) % 64);
        let back = parse_size(&format_size(bytes)).unwrap();
        let unit = match bytes {
            0..=0x3ff => 1u64,
            0x400..=0xf_ffff => 1 << 10,
            0x10_0000..=0x3fff_ffff => 1 << 20,
            0x4000_0000..=0xff_ffff_ffff => 1 << 30,
            _ => 1 << 40,
        };
        assert!(100 * back.abs_diff(bytes) as u128 <= unit as u128, "{bytes} {back}");
    }
    assert_eq!(parse_size(&format_size(u64::MAX)).unwrap(), u64::MAX);
    assert_eq!(parse_size("49.99MB").unwrap(), 52418314);
}

#[test]
fn whole_sizes_are_exact() {
    assert_eq!(parse_size("9007199254740992").unwrap(), 9007199254740992);
    assert_eq!(parse_size("8191TB").unwrap(), 8191 << 40);
    assert_eq!(parse_size("1023GB").unwrap(), 1023 << 30);
    // Beyond two to the power of 53 as well, as long as the numeral is not.
    assert_eq!(parse_size("16777215TB").unwrap(), 16777215 << 40);
    assert_eq!(parse_size("9007199254740991KB").unwrap(), 9007199254740991 << 10);
    assert_eq!(parse_size("9007199254740992KB").unwrap(), 9007199254740992 << 10);
    assert_eq!(parse_size("9007199254740993").unwrap(), 9007199254740992);
}

#[test]
fn byte_size_from_integer_or_text() {
    assert_eq!(ByteSize::from_signed(5).unwrap(), ByteSize(5));
    assert_eq!(ByteSize::from_signed(-1).unwrap_err(), "byte size cannot be negative");
    assert_eq!(ByteSize::from_text("1MB").unwrap(), ByteSize(1 << 20));
    assert_eq!(ByteSize::from_text("1QB").unwrap_err(), "unknown size unit \"QB\" in \"1QB\"");
}
