use tabsbot::utils::{format_amount, parse_amount};

#[test]
fn parse_whole_units() {
    assert_eq!(parse_amount("12"), Some(1200));
    assert_eq!(parse_amount("0"), Some(0));
    assert_eq!(parse_amount("1"), Some(100));
}

#[test]
fn parse_one_fractional_digit_counts_tenths() {
    assert_eq!(parse_amount("12.5"), Some(1250));
    assert_eq!(parse_amount("0.1"), Some(10));
    assert_eq!(parse_amount("0.0"), Some(0));
}

#[test]
fn parse_two_fractional_digits() {
    assert_eq!(parse_amount("12.50"), Some(1250));
    assert_eq!(parse_amount("12.05"), Some(1205));
    assert_eq!(parse_amount("0.99"), Some(99));
}

#[test]
fn parse_rejects_three_fractional_digits() {
    assert_eq!(parse_amount("12.555"), None);
    assert_eq!(parse_amount("12.500"), None);
}

#[test]
fn parse_rejects_negative_units() {
    assert_eq!(parse_amount("-3"), None);
    assert_eq!(parse_amount("-3.50"), None);
    assert_eq!(parse_amount("-1.0"), None);
}

#[test]
fn parse_rejects_more_than_one_point() {
    assert_eq!(parse_amount("1.2.3"), None);
    assert_eq!(parse_amount("1..2"), None);
    assert_eq!(parse_amount("1.2."), None);
    assert_eq!(parse_amount(".."), None);
}

#[test]
fn parse_rejects_missing_parts() {
    assert_eq!(parse_amount(""), None);
    assert_eq!(parse_amount("."), None);
    assert_eq!(parse_amount("12."), None);
    assert_eq!(parse_amount(".5"), None);
    assert_eq!(parse_amount("+"), None);
    assert_eq!(parse_amount("-"), None);
    assert_eq!(parse_amount("+.5"), None);
}

#[test]
fn parse_rejects_what_is_no_number() {
    assert_eq!(parse_amount("abc"), None);
    assert_eq!(parse_amount("12a"), None);
    assert_eq!(parse_amount("a12"), None);
    assert_eq!(parse_amount("12.a"), None);
    assert_eq!(parse_amount("12.5a"), None);
    assert_eq!(parse_amount("1,5"), None);
    assert_eq!(parse_amount(" 12"), None);
    assert_eq!(parse_amount("12 "), None);
    assert_eq!(parse_amount("1 2"), None);
    assert_eq!(parse_amount("1_000"), None);
    assert_eq!(parse_amount("١٢"), None);
    assert_eq!(parse_amount("12€"), None);
}

#[test]
fn parse_rejects_a_sign_after_the_point() {
    assert_eq!(parse_amount("12.-5"), None);
    assert_eq!(parse_amount("12.+5"), None);
    assert_eq!(parse_amount("12.-"), None);
}

#[test]
fn parse_takes_a_sign_before_the_units() {
    assert_eq!(parse_amount("+12"), Some(1200));
    assert_eq!(parse_amount("+12.5"), Some(1250));
    assert_eq!(parse_amount("-0"), Some(0));
    assert_eq!(parse_amount("-0.50"), Some(50));
    assert_eq!(parse_amount("--1"), None);
    assert_eq!(parse_amount("+-1"), None);
}

#[test]
fn parse_takes_leading_zeros() {
    assert_eq!(parse_amount("007"), Some(700));
    assert_eq!(parse_amount("007.05"), Some(705));
    assert_eq!(parse_amount("000000000000000000000000000012"), Some(1200));
}

#[test]
fn parse_reads_the_largest_amount() {
    assert_eq!(parse_amount("21474836.47"), Some(i32::MAX));
    assert_eq!(parse_amount("21474836.4"), Some(2147483640));
    assert_eq!(parse_amount("21474836"), Some(2147483600));
}

#[test]
fn parse_rejects_what_is_too_large() {
    assert_eq!(parse_amount("21474836.48"), None);
    assert_eq!(parse_amount("21474836.5"), None);
    assert_eq!(parse_amount("21474837"), None);
    assert_eq!(parse_amount("2147483647"), None);
    assert_eq!(parse_amount("2147483648"), None);
    assert_eq!(parse_amount("99999999999999999999999999"), None);
    assert_eq!(parse_amount("99999999999999999999999999.99"), None);
}

#[test]
fn parse_units_as_the_standard_parser_does() {
    let samples: [&str; 14] = [
        "0", "7", "42", "+42", "-0", "-00", "0042", "2147483647", "21474836", "", "+", "4 2",
        "4x", "x4",
    ];
    for text in samples {
        let expected: Option<i32> = match text.parse::<i32>() {
            Ok(units) if units >= 0 => units.checked_mul(100),
            _ => None,
        };
        assert_eq!(parse_amount(text), expected, "{:?}", text);
    }
}

#[test]
fn format_pads_the_cents() {
    assert_eq!(format_amount(0), "0.00");
    assert_eq!(format_amount(5), "0.05");
    assert_eq!(format_amount(10), "0.10");
    assert_eq!(format_amount(99), "0.99");
    assert_eq!(format_amount(100), "1.00");
    assert_eq!(format_amount(1205), "12.05");
    assert_eq!(format_amount(1250), "12.50");
    assert_eq!(format_amount(1234567), "12345.67");
}

#[test]
fn format_signs_negative_amounts_only() {
    assert_eq!(format_amount(-1), "-0.01");
    assert_eq!(format_amount(-5), "-0.05");
    assert_eq!(format_amount(-99), "-0.99");
    assert_eq!(format_amount(-100), "-1.00");
    assert_eq!(format_amount(-1250), "-12.50");
}

#[test]
fn format_reaches_both_ends_of_the_range() {
    assert_eq!(format_amount(i32::MAX), "21474836.47");
    assert_eq!(format_amount(i32::MIN), "-21474836.48");
    assert_eq!(format_amount(i32::MIN + 1), "-21474836.47");
}

#[test]
fn format_writes_as_the_standard_formatter_does() {
    let samples: [i32; 12] =
        [0, 1, 9, 10, 11, 99, 100, 101, 999, 1000, 123456789, i32::MAX];
    for amount in samples {
        let expected: String = format!("{}.{:02}", amount / 100, amount % 100);
        assert_eq!(format_amount(amount), expected);
        if amount > 0 {
            assert_eq!(format_amount(-amount), format!("-{}", expected));
        }
    }
}

#[test]
fn parse_gives_back_what_format_wrote() {
    let mut amount: i32 = 0;
    while amount <= 20000 {
        assert_eq!(parse_amount(&format_amount(amount)), Some(amount));
        amount += 1;
    }
    let samples: [i32; 8] =
        [99999, 100000, 1234567, 99999999, 100000000, 2147483599, 2147483600, i32::MAX];
    for amount in samples {
        assert_eq!(parse_amount(&format_amount(amount)), Some(amount));
    }
}

#[test]
fn parse_rejects_the_text_of_a_negative_amount() {
    assert_eq!(parse_amount(&format_amount(-1250)), None);
    assert_eq!(parse_amount(&format_amount(i32::MIN)), None);
}

#[test]
fn parse_reads_negative_zero_units_as_zero() {
    assert_eq!(parse_amount("-0.05"), Some(5));
    assert_eq!(parse_amount("-000"), Some(0));
}
