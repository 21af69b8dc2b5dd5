use klaptik_cli::number::parse_number;

#[test]
fn parses_hex_and_decimal() {
    assert_eq!(parse_number("0x2a"), Some(42));
    assert_eq!(parse_number("0x2B"), Some(43));
    assert_eq!(parse_number("42"), Some(42));
    assert_eq!(parse_number("0"), Some(0));
    assert_eq!(parse_number("007"), Some(7));
}

#[test]
fn parses_extremes() {
    assert_eq!(parse_number("4294967295"), Some(u32::MAX));
    assert_eq!(parse_number("0xFFFFFFFF"), Some(u32::MAX));
    assert_eq!(parse_number("4294967296"), None);
    assert_eq!(parse_number("0x100000000"), None);
}

#[test]
fn drops_every_hex_prefix_and_accepts_plus() {
    assert_eq!(parse_number("0x0x10"), Some(16));
    assert_eq!(parse_number("+7"), Some(7));
    assert_eq!(parse_number("0x+1f"), Some(31));
}

#[test]
fn rejects_invalid_numbers() {
    assert_eq!(parse_number(""), None);
    assert_eq!(parse_number("0x"), None);
    assert_eq!(parse_number("+"), None);
    assert_eq!(parse_number("-1"), None);
    assert_eq!(parse_number("0xZZ"), None);
    assert_eq!(parse_number("12a"), None);
    assert_eq!(parse_number("0X10"), None);
    assert_eq!(parse_number(" 1"), None);
    assert_eq!(parse_number("1é"), None);
}
