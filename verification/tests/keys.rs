use std::cmp::Ordering;
use symbol_rank::decimal::Decimal;
use symbol_rank::key::split_numeric_alpha;
use symbol_rank::symbol::{base_of, make_symbol, RankError};
use symbol_rank::text::{char_is_digit, chars_of, compare_text};

fn number(text: &str) -> Decimal {
    Decimal::parse(text).unwrap()
}

#[test]
fn digits_only_base_has_an_empty_suffix() {
    let key = split_numeric_alpha("5");
    assert_eq!(key.numeric_prefix.unwrap().compare(&number("5.0")), Ordering::Equal);
    assert_eq!(key.alpha_suffix, "");
}

#[test]
fn mixed_base_splits_behind_the_number() {
    let key = split_numeric_alpha("1000PEPE");
    assert_eq!(key.numeric_prefix.unwrap().compare(&number("1000")), Ordering::Equal);
    assert_eq!(key.alpha_suffix, "PEPE");
}

#[test]
fn letters_only_base_has_no_number() {
    let key = split_numeric_alpha("BTC");
    assert!(key.numeric_prefix.is_none());
    assert_eq!(key.alpha_suffix, "BTC");
}

#[test]
fn empty_base_has_neither() {
    let key = split_numeric_alpha("");
    assert!(key.numeric_prefix.is_none());
    assert_eq!(key.alpha_suffix, "");
}

#[test]
fn lone_point_is_no_number() {
    let key = split_numeric_alpha(".");
    assert!(key.numeric_prefix.is_none());
    assert_eq!(key.alpha_suffix, "");
    let key = split_numeric_alpha(".ABC");
    assert!(key.numeric_prefix.is_none());
    assert_eq!(key.alpha_suffix, "ABC");
}

#[test]
fn two_points_are_no_number_and_the_run_is_still_taken_off() {
    let key = split_numeric_alpha("1.2.3ABC");
    assert!(key.numeric_prefix.is_none());
    assert_eq!(key.alpha_suffix, "ABC");
    let key = split_numeric_alpha("..5");
    assert!(key.numeric_prefix.is_none());
    assert_eq!(key.alpha_suffix, "");
}

#[test]
fn digits_behind_letters_stay_in_the_suffix() {
    let key = split_numeric_alpha("10A20.5");
    assert_eq!(key.numeric_prefix.unwrap().compare(&number("10")), Ordering::Equal);
    assert_eq!(key.alpha_suffix, "A20.5");
}

#[test]
fn decimal_point_at_either_end_is_read() {
    let key = split_numeric_alpha("1.X");
    assert_eq!(key.numeric_prefix.unwrap().compare(&number("1")), Ordering::Equal);
    assert_eq!(key.alpha_suffix, "X");
    let key = split_numeric_alpha(".5X");
    assert_eq!(key.numeric_prefix.unwrap().compare(&number("0.5")), Ordering::Equal);
    assert_eq!(key.alpha_suffix, "X");
}

#[test]
fn other_digits_than_ascii_are_text() {
    let key = split_numeric_alpha("\u{661}\u{662}A");
    assert!(key.numeric_prefix.is_none());
    assert_eq!(key.alpha_suffix, "\u{661}\u{662}A");
}

#[test]
fn suffix_keeps_characters_beyond_ascii() {
    let key = split_numeric_alpha("10\u{e9}\u{4e2d}");
    assert_eq!(key.numeric_prefix.unwrap().compare(&number("10")), Ordering::Equal);
    assert_eq!(key.alpha_suffix, "\u{e9}\u{4e2d}");
}

#[test]
fn parse_accepts_plain_numerals_only() {
    for good in ["0", "5", "007", "1000", "1.5", "1.", ".5", "0.000", "123456789012345678901234567890"] {
        assert!(Decimal::parse(good).is_some(), "{}", good);
    }
    for bad in ["", ".", "..", "1.2.3", "1..", "..1", "1a", "a1", "+1", "-1", "1e5", " 1", "1 ", "inf", "NaN", "1,5"] {
        assert!(Decimal::parse(bad).is_none(), "{}", bad);
    }
}

#[test]
fn numbers_compare_by_value() {
    assert_eq!(number("10").compare(&number("9")), Ordering::Greater);
    assert_eq!(number("9").compare(&number("10")), Ordering::Less);
    assert_eq!(number("5").compare(&number("5.0")), Ordering::Equal);
    assert_eq!(number("005").compare(&number("5")), Ordering::Equal);
    assert_eq!(number("5").compare(&number("5.1")), Ordering::Less);
    assert_eq!(number("4.9").compare(&number("5")), Ordering::Less);
    assert_eq!(number("0.25").compare(&number(".3")), Ordering::Less);
    assert_eq!(number("0.30").compare(&number(".3")), Ordering::Equal);
    assert_eq!(number("0").compare(&number("0.0")), Ordering::Equal);
    assert_eq!(number("0").compare(&number(".001")), Ordering::Less);
    assert_eq!(number("12.5").compare(&number("9.75")), Ordering::Greater);
    assert_eq!(number("1.05").compare(&number("1.5")), Ordering::Less);
    assert_eq!(number("100").compare(&number("99.999")), Ordering::Greater);
}

#[test]
fn long_numbers_compare_exactly() {
    let a = number("9007199254740993");
    let b = number("9007199254740992");
    assert_eq!(a.compare(&b), Ordering::Greater);
    let c = number("0.10000000000000000000000000001");
    let d = number("0.1");
    assert_eq!(c.compare(&d), Ordering::Greater);
    assert_eq!(d.compare(&c), Ordering::Less);
}

#[test]
fn text_compares_lexicographically() {
    assert_eq!(compare_text("", ""), Ordering::Equal);
    assert_eq!(compare_text("", "A"), Ordering::Less);
    assert_eq!(compare_text("A", ""), Ordering::Greater);
    assert_eq!(compare_text("ABC", "ABD"), Ordering::Less);
    assert_eq!(compare_text("ABC", "AB"), Ordering::Greater);
    assert_eq!(compare_text("B", "ABC"), Ordering::Greater);
    assert_eq!(compare_text("PEPE", "PEPE"), Ordering::Equal);
}

#[test]
fn text_compares_as_strings_do() {
    let samples = ["", "A", "AB", "B", "a", "\u{e9}", "\u{4e2d}", "\u{1f600}", "Z\u{e9}", "ZZ"];
    for a in samples {
        for b in samples {
            assert_eq!(compare_text(a, b), a.cmp(b));
        }
    }
}

#[test]
fn chars_of_gives_the_characters() {
    assert_eq!(chars_of("1.5\u{e9}"), vec!['1', '.', '5', '\u{e9}']);
    assert_eq!(chars_of(""), Vec::<char>::new());
}

#[test]
fn only_ascii_digits_are_digits() {
    assert!(char_is_digit('0'));
    assert!(char_is_digit('9'));
    assert!(!char_is_digit('/'));
    assert!(!char_is_digit(':'));
    assert!(!char_is_digit('a'));
    assert!(!char_is_digit('\u{661}'));
}

#[test]
fn base_stands_between_separator_and_quote() {
    assert_eq!(base_of("X:1000PEPEUSDT"), Ok("1000PEPE"));
    assert_eq!(base_of("GATEIO:BTCUSDT"), Ok("BTC"));
    assert_eq!(base_of("X:USDT"), Ok(""));
    assert_eq!(base_of(":USDT"), Ok(""));
    assert_eq!(base_of("X:USDTUSDT"), Ok("USDT"));
    assert_eq!(base_of("\u{e9}:\u{4e2d}USDT"), Ok("\u{4e2d}"));
}

#[test]
fn malformed_symbols_have_no_base() {
    for bad in ["", "X", "X:", "XUSDT", "X:NOQUOTESUFFIX", "X:USD", "X:A:BUSDT", "A:B:USDT", "X:BTCUSDT:", "X:BTCUSDT "] {
        assert_eq!(base_of(bad), Err(RankError::MalformedSymbol), "{}", bad);
    }
}

#[test]
fn made_symbol_reads_back() {
    let symbol = make_symbol("GATEIO", "1000PEPE");
    assert_eq!(symbol, "GATEIO:1000PEPEUSDT");
    assert_eq!(base_of(&symbol), Ok("1000PEPE"));
    assert_eq!(make_symbol("", ""), ":USDT");
}

#[test]
fn symbol_of_a_base_with_a_separator_is_malformed() {
    let symbol = make_symbol("X", "A:B");
    assert_eq!(symbol, "X:A:BUSDT");
    assert_eq!(base_of(&symbol), Err(RankError::MalformedSymbol));
}
