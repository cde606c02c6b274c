use runtime::decimal::{parse_u32, push_decimal, to_decimal};

#[test]
fn decimal_text_of_small_and_large_numbers() {
    assert_eq!(to_decimal(0), "0");
    assert_eq!(to_decimal(7), "7");
    assert_eq!(to_decimal(9), "9");
    assert_eq!(to_decimal(10), "10");
    assert_eq!(to_decimal(101), "101");
    assert_eq!(to_decimal(1000), "1000");
    assert_eq!(to_decimal(4294967295), "4294967295");
}

#[test]
fn decimal_text_is_what_formatting_gives() {
    let mut n: u32 = 0;
    let mut step: u32 = 1;
    while n < u32::MAX - step {
        assert_eq!(to_decimal(n), format!("{}", n));
        n += step;
        step = step * 3 + 1;
    }
    for n in 0..1200u32 {
        assert_eq!(to_decimal(n), format!("{}", n));
    }
    for n in [99_999u32, 100_000, 999_999_999, 1_000_000_000, u32::MAX - 1, u32::MAX] {
        assert_eq!(to_decimal(n), format!("{}", n));
    }
}

#[test]
fn push_decimal_writes_behind_what_is_there() {
    let mut text = String::from("n = ");
    push_decimal(&mut text, 42);
    assert_eq!(text, "n = 42");
    push_decimal(&mut text, 0);
    assert_eq!(text, "n = 420");
}

#[test]
fn parse_takes_digits_with_an_optional_plus() {
    assert_eq!(parse_u32("0"), Some(0));
    assert_eq!(parse_u32("7"), Some(7));
    assert_eq!(parse_u32("42"), Some(42));
    assert_eq!(parse_u32("+7"), Some(7));
    assert_eq!(parse_u32("+0"), Some(0));
    assert_eq!(parse_u32("007"), Some(7));
    assert_eq!(parse_u32("0000000000000000000042"), Some(42));
    assert_eq!(parse_u32("4294967295"), Some(u32::MAX));
    assert_eq!(parse_u32("+4294967295"), Some(u32::MAX));
    assert_eq!(parse_u32("04294967295"), Some(u32::MAX));
}

#[test]
fn parse_refuses_what_spells_no_number() {
    assert_eq!(parse_u32(""), None);
    assert_eq!(parse_u32("+"), None);
    assert_eq!(parse_u32("-"), None);
    assert_eq!(parse_u32("-1"), None);
    assert_eq!(parse_u32("-0"), None);
    assert_eq!(parse_u32("++1"), None);
    assert_eq!(parse_u32("+-1"), None);
    assert_eq!(parse_u32("1+"), None);
    assert_eq!(parse_u32(" 1"), None);
    assert_eq!(parse_u32("1 "), None);
    assert_eq!(parse_u32("1\n"), None);
    assert_eq!(parse_u32("1 2"), None);
    assert_eq!(parse_u32("1_000"), None);
    assert_eq!(parse_u32("12a"), None);
    assert_eq!(parse_u32("a12"), None);
    assert_eq!(parse_u32("0x10"), None);
    assert_eq!(parse_u32("1.0"), None);
    assert_eq!(parse_u32("abc"), None);
    assert_eq!(parse_u32("\u{0663}"), None);
    assert_eq!(parse_u32("\u{ff11}"), None);
    assert_eq!(parse_u32("1\u{e9}"), None);
}

#[test]
fn parse_refuses_what_does_not_fit() {
    assert_eq!(parse_u32("4294967296"), None);
    assert_eq!(parse_u32("4294967300"), None);
    assert_eq!(parse_u32("5000000000"), None);
    assert_eq!(parse_u32("42949672950"), None);
    assert_eq!(parse_u32("99999999999999999999999999"), None);
    assert_eq!(parse_u32("4294967296x"), None);
}

#[test]
fn parse_agrees_with_the_standard_library() {
    let texts = [
        "", "0", "1", "9", "10", "+", "-", "+1", "-1", "+0", "-0", "00", "007", "+007", "++7",
        "4294967295", "4294967296", "4294967294", "429496729", "42949672950", "1 ", " 1", "1\n",
        "\t1", "1_0", "1e3", "0x1f", "٣", "１", "12ab", "ab12", "+a", "18446744073709551616",
        "000000000000000000004294967295", "000000000000000000004294967296", "3.14", ".", "+ 1",
    ];
    for text in texts {
        assert_eq!(parse_u32(text), text.parse::<u32>().ok(), "on {:?}", text);
    }
}

#[test]
fn parse_reads_back_the_decimal_text() {
    for n in [0u32, 1, 9, 10, 11, 99, 100, 12345, 67890, 1_000_000_000, u32::MAX - 1, u32::MAX] {
        assert_eq!(parse_u32(&to_decimal(n)), Some(n));
    }
}
