use token_visualizer::format::fmt_int;
use token_visualizer::number::parse_number;
use token_visualizer::parser::{parse, parse_checked};

fn chars(s: &str) -> Vec<char> {
    s.chars().collect()
}

#[test]
fn number_plain_and_suffixed() {
    assert_eq!(parse_number(&chars("300")), Some(300));
    assert_eq!(parse_number(&chars("12k")), Some(12_000));
    assert_eq!(parse_number(&chars("1.5k")), Some(1_500));
    assert_eq!(parse_number(&chars("2M")), Some(2_000_000));
    assert_eq!(parse_number(&chars("300tokens")), Some(300));
    assert_eq!(parse_number(&chars("4ktokens")), Some(4_000));
}

#[test]
fn number_rounds_half_away_from_zero() {
    assert_eq!(parse_number(&chars("2.5")), Some(3));
    assert_eq!(parse_number(&chars("0.4")), Some(0));
    assert_eq!(parse_number(&chars("1.25k")), Some(1_250));
}

#[test]
fn number_refused() {
    assert_eq!(parse_number(&chars("k")), None);
    assert_eq!(parse_number(&chars("abc")), None);
    assert_eq!(parse_number(&chars("1.2.3")), None);
}

#[test]
fn thousands_separators() {
    assert_eq!(fmt_int(0), "0");
    assert_eq!(fmt_int(999), "999");
    assert_eq!(fmt_int(1_000), "1,000");
    assert_eq!(fmt_int(1_234_567), "1,234,567");
    assert_eq!(fmt_int(u64::MAX), "18,446,744,073,709,551,615");
    // The grouping keeps the digits: dropping the commas gives them back.
    assert_eq!(fmt_int(9_876_543_210).replace(',', ""), "9876543210");
}

#[test]
fn repeat_zero_counts_once() {
    let p = parse("100 in, repeat 0").unwrap();
    assert_eq!(p.repeat, 1);
    assert_eq!(p.input, 100);
}

#[test]
fn repeat_alone_is_no_turn() {
    assert!(parse("repeat 5").is_none());
    assert!(parse("").is_none());
}

#[test]
fn cached_segments_add_up() {
    let p = parse("cached 100, 50 cache, 10 in").unwrap();
    assert_eq!(p.cached_override, Some(150));
    assert_eq!(p.input, 10);
}

#[test]
fn totals_out_of_range_are_refused() {
    assert!(parse_checked("18446744073709551615 in, 1 prompt").is_err());
    assert!(parse_checked("18446744073709551615 in").is_ok());
}
