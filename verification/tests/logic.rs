use gst_bill::logic::{
    days_in_month, finance_month_index, finance_year, fmt_decimal, is_leap_year, month_name,
    percent_encode, previous_month_clamped, Ymd,
};
use gst_bill::text::is_whitespace_char;

/// The two-decimal rendering that the application hands to `fmt_decimal`:
/// the field read as a non-negative finite `f64`, printed with `{:.2}`.
fn two_decimals(s: &str) -> Option<String> {
    let value: f64 = s.trim().parse().ok()?;
    if value.is_finite() && value >= 0.0 {
        Some(format!("{value:.2}"))
    } else {
        None
    }
}

fn fmt_decimal_of(s: &str) -> String {
    fmt_decimal(s, two_decimals(s))
}

#[test]
fn fmt_decimal_rounds_to_two_places() {
    assert_eq!(fmt_decimal_of("9.6666"), "9.67");
    assert_eq!(fmt_decimal_of("1125.3333"), "1125.33");
    assert_eq!(fmt_decimal_of("5"), "5.00");
    assert_eq!(fmt_decimal_of("0"), "0.00");
    assert_eq!(fmt_decimal_of("2.5"), "2.50");
    assert_eq!(fmt_decimal_of(" 7 "), "7.00");
}

#[test]
fn fmt_decimal_leaves_unparseable_input_untouched() {
    assert_eq!(fmt_decimal_of(""), "");
    assert_eq!(fmt_decimal_of("9."), "9.");
    assert_eq!(fmt_decimal_of("1.5e"), "1.5e");
    assert_eq!(fmt_decimal_of("abc"), "abc");
    assert_eq!(fmt_decimal_of("-3"), "-3");
}

#[test]
fn fmt_decimal_is_stable() {
    for s in ["9.6666", "1125.3333", "5", " 7 ", "", "9.", "1.5e", "abc", "-3", "0.005", "1e3"] {
        let once = fmt_decimal_of(s);
        assert_eq!(fmt_decimal_of(&once), once, "input {s:?}");
    }
}

#[test]
fn fmt_decimal_keeps_pending_entry_even_with_a_rounding() {
    assert_eq!(fmt_decimal(" 9. ", Some("9.00".to_string())), " 9. ");
    assert_eq!(fmt_decimal("3E", Some("3.00".to_string())), "3E");
    assert_eq!(fmt_decimal("4", Some("4.00".to_string())), "4.00");
    assert_eq!(fmt_decimal(" x ", None), " x ");
}

#[test]
fn leap_years_follow_the_gregorian_rule() {
    assert!(is_leap_year(2024));
    assert!(!is_leap_year(2023));
    assert!(!is_leap_year(1900));
    assert!(is_leap_year(2000));
    assert!(is_leap_year(0));
    assert!(is_leap_year(-4));
    assert!(!is_leap_year(-100));
    assert!(is_leap_year(-400));
    for y in -1000..3000 {
        assert_eq!(is_leap_year(y), (y % 4 == 0 && y % 100 != 0) || y % 400 == 0);
    }
}

#[test]
fn month_lengths() {
    let expected = [31, 28, 31, 30, 31, 30, 31, 31, 30, 31, 30, 31];
    for (i, days) in expected.iter().enumerate() {
        assert_eq!(days_in_month(2023, i as u32 + 1), *days);
    }
    assert_eq!(days_in_month(2024, 2), 29);
    assert_eq!(days_in_month(1900, 2), 28);
    assert_eq!(days_in_month(2000, 2), 29);
    assert_eq!(days_in_month(2024, 0), 0);
    assert_eq!(days_in_month(2024, 13), 0);
}

#[test]
fn new_rejects_impossible_dates() {
    assert_eq!(Ymd::new(2024, 2, 29), Some(Ymd { year: 2024, month: 2, day: 29 }));
    assert_eq!(Ymd::new(2023, 2, 29), None);
    assert_eq!(Ymd::new(2023, 2, 31), None);
    assert_eq!(Ymd::new(2023, 0, 1), None);
    assert_eq!(Ymd::new(2023, 13, 1), None);
    assert_eq!(Ymd::new(2023, 4, 0), None);
    assert_eq!(Ymd::new(2023, 4, 30), Some(Ymd { year: 2023, month: 4, day: 30 }));
    assert_eq!(Ymd::new(2023, 4, 31), None);
}

#[test]
fn from_clock_counts_months_from_zero() {
    assert_eq!(Ymd::from_clock(2026, 2, 31), Some(Ymd { year: 2026, month: 3, day: 31 }));
    assert_eq!(Ymd::from_clock(2026, 1, 29), None);
    assert_eq!(Ymd::from_clock(2024, 1, 29), Some(Ymd { year: 2024, month: 2, day: 29 }));
    assert_eq!(Ymd::from_clock(2026, 12, 1), None);
    assert_eq!(Ymd::from_clock(2026, u32::MAX, 1), None);
    assert_eq!(Ymd::from_clock(u32::MAX, 0, 1), Some(Ymd { year: -1, month: 1, day: 1 }));
}

#[test]
fn fmt_pads_year_month_and_day() {
    assert_eq!(Ymd { year: 2026, month: 3, day: 5 }.fmt(), "2026-03-05");
    assert_eq!(Ymd { year: 5, month: 11, day: 25 }.fmt(), "0005-11-25");
    assert_eq!(Ymd { year: -5, month: 1, day: 1 }.fmt(), "-005-01-01");
    assert_eq!(Ymd { year: 12345, month: 12, day: 31 }.fmt(), "12345-12-31");
    for &(y, m, d) in &[(0, 1, 1), (-1234, 7, 9), (i32::MIN, 2, 3), (i32::MAX, 10, 10), (99, 100, 7)] {
        let date = Ymd { year: y, month: m, day: d };
        assert_eq!(date.fmt(), format!("{:04}-{:02}-{:02}", y, m, d));
    }
}

/// `Ymd::parse` as the standard library would do it.
fn parse_with_std(s: &str) -> Option<Ymd> {
    let parts: Vec<&str> = s.trim().split('-').collect();
    if parts.len() != 3 {
        return None;
    }
    let year = parts[0].parse::<i32>().ok()?;
    let month = parts[1].parse::<u32>().ok()?;
    let day = parts[2].parse::<u32>().ok()?;
    Ymd::new(year, month, day)
}

#[test]
fn parse_reads_dates() {
    assert_eq!(Ymd::parse("2026-03-05"), Some(Ymd { year: 2026, month: 3, day: 5 }));
    assert_eq!(Ymd::parse(" 2026-3-5\n"), Some(Ymd { year: 2026, month: 3, day: 5 }));
    assert_eq!(Ymd::parse("+2026-+3-+5"), Some(Ymd { year: 2026, month: 3, day: 5 }));
    assert_eq!(Ymd::parse("2026-02-30"), None);
    assert_eq!(Ymd::parse("2026-03"), None);
    assert_eq!(Ymd::parse("-2026-03-05"), None);
    assert_eq!(Ymd::parse("2026-03-05-"), None);
    assert_eq!(Ymd::parse("abc"), None);
    assert_eq!(Ymd::parse(""), None);
    assert_eq!(Ymd::parse("2026- 03-05"), None);
    assert_eq!(Ymd::parse("99999999999-01-01"), None);
    assert_eq!(Ymd::parse("2147483647-01-01"), Some(Ymd { year: i32::MAX, month: 1, day: 1 }));
}

#[test]
fn parse_agrees_with_std_parsing() {
    let samples = [
        "2026-03-05", " 2026-03-05 ", "\u{3000}2024-02-29\u{a0}", "2023-02-29", "0000-01-01",
        "+0-+1-+1", "++1-1-1", "1-+-1", "1--1", "--", "-", "", " ", "1-1-1", "2026-13-01",
        "2026-00-10", "2026-12-00", "2026-12-32", "4294967296-1-1", "2147483648-1-1",
        "2026-4294967295-1", "2026-4294967296-1", "12-1-1 x", "x12-1-1", "٣-1-1", "2026-1-1\u{85}",
        "2026-1-1\u{200b}", "0002147483647-001-001", "2026-06-15-", "2026-06-15 ",
    ];
    for s in samples {
        assert_eq!(Ymd::parse(s), parse_with_std(s), "input {s:?}");
    }
}

#[test]
fn parse_reads_back_fmt() {
    for &(y, m, d) in &[(2026, 3, 5), (0, 1, 1), (5, 2, 28), (2024, 2, 29), (99999, 12, 31), (i32::MAX, 6, 30)] {
        let date = Ymd::new(y, m, d).expect("a real date");
        assert_eq!(Ymd::parse(&date.fmt()), Some(date));
    }
    // a negative year does not come back: its sign reads as a separator
    let date = Ymd { year: -1, month: 1, day: 1 };
    assert_eq!(Ymd::parse(&date.fmt()), None);
}

#[test]
fn whitespace_matches_std() {
    for code in 0..=0x10FFFFu32 {
        if let Some(c) = char::from_u32(code) {
            assert_eq!(is_whitespace_char(c), c.is_whitespace(), "char {code:#x}");
        }
    }
}

#[test]
fn previous_month_is_clamped() {
    let step = |y, m, d| previous_month_clamped(Ymd { year: y, month: m, day: d });
    assert_eq!(step(2024, 3, 31), Ymd { year: 2024, month: 2, day: 29 });
    assert_eq!(step(2023, 3, 31), Ymd { year: 2023, month: 2, day: 28 });
    assert_eq!(step(2026, 5, 30), Ymd { year: 2026, month: 4, day: 30 });
    assert_eq!(step(2026, 5, 31), Ymd { year: 2026, month: 4, day: 30 });
    assert_eq!(step(2026, 1, 1), Ymd { year: 2025, month: 12, day: 1 });
    assert_eq!(step(2026, 7, 15), Ymd { year: 2026, month: 6, day: 15 });
    // an out-of-range month gives a month with no days
    assert_eq!(step(2026, 14, 3), Ymd { year: 2026, month: 13, day: 0 });
    // out of range the arithmetic wraps instead of failing
    assert_eq!(step(2026, 0, 1), Ymd { year: 2026, month: u32::MAX, day: 0 });
    assert_eq!(step(i32::MIN, 1, 31), Ymd { year: i32::MAX, month: 12, day: 31 });
}

#[test]
fn financial_year_runs_april_to_march() {
    assert_eq!(finance_month_index(4), Some(1));
    assert_eq!(finance_month_index(8), Some(5));
    assert_eq!(finance_month_index(12), Some(9));
    assert_eq!(finance_month_index(1), Some(10));
    assert_eq!(finance_month_index(3), Some(12));
    assert_eq!(finance_month_index(0), None);
    assert_eq!(finance_month_index(13), None);
    assert_eq!(finance_year(2026, 8), Some(2026));
    assert_eq!(finance_year(2026, 1), Some(2025));
    assert_eq!(finance_year(2026, 3), Some(2025));
    assert_eq!(finance_year(2026, 4), Some(2026));
    assert_eq!(finance_year(2026, 0), None);
    assert_eq!(finance_year(2026, 13), None);
    // January to March of the earliest year wrap instead of failing
    assert_eq!(finance_year(i32::MIN, 2), Some(i32::MAX));
    assert_eq!(finance_year(i32::MIN, 4), Some(i32::MIN));
}

#[test]
fn financial_position_is_the_calendar_shifted_by_three_months() {
    let mut seen = std::collections::HashSet::new();
    for year in 2020..2030i32 {
        for month in 1..=12u32 {
            let fy = finance_year(year, month).unwrap() as i64;
            let index = finance_month_index(month).unwrap() as i64;
            assert_eq!(fy * 12 + index - 1, year as i64 * 12 + month as i64 - 1 - 3);
            assert!(seen.insert((fy, index)));
        }
    }
}

#[test]
fn month_names() {
    assert_eq!(month_name(1), Some("January"));
    assert_eq!(month_name(5), Some("May"));
    assert_eq!(month_name(9), Some("September"));
    assert_eq!(month_name(12), Some("December"));
    assert_eq!(month_name(0), None);
    assert_eq!(month_name(13), None);
    assert_eq!(month_name(u32::MAX), None);
}

/// `percent_encode` as the standard library's formatting would do it.
fn percent_encode_with_std(input: &str) -> String {
    let mut out = String::new();
    for &byte in input.as_bytes() {
        match byte {
            b'A'..=b'Z' | b'a'..=b'z' | b'0'..=b'9' | b'-' | b'_' | b'.' | b'~' => out.push(byte as char),
            _ => out.push_str(&format!("%{byte:02X}")),
        }
    }
    out
}

/// A reader of percent-encoded text.
fn percent_decode(text: &str) -> Vec<u8> {
    let bytes = text.as_bytes();
    let mut out = Vec::new();
    let mut i = 0;
    while i < bytes.len() {
        if bytes[i] == b'%' {
            let hex = std::str::from_utf8(&bytes[i + 1..i + 3]).unwrap();
            out.push(u8::from_str_radix(hex, 16).unwrap());
            i += 3;
        } else {
            out.push(bytes[i]);
            i += 1;
        }
    }
    out
}

#[test]
fn percent_encoding() {
    assert_eq!(percent_encode("a b"), "a%20b");
    assert_eq!(percent_encode("AZaz09-_.~"), "AZaz09-_.~");
    assert_eq!(percent_encode("<p class=\"x\">"), "%3Cp%20class%3D%22x%22%3E");
    assert_eq!(percent_encode("\u{20b9}"), "%E2%82%B9");
    assert_eq!(percent_encode(""), "");
    for s in ["hello world", "100%", "\n\t", "₹ 1,000/-", "日本", "a+b=c&d"] {
        assert_eq!(percent_encode(s), percent_encode_with_std(s));
        assert_eq!(percent_decode(&percent_encode(s)), s.as_bytes());
    }
}
