use std::cmp::Ordering;
use symbol_rank::ranking::{custom_sort, key_of};
use symbol_rank::symbol::RankError;

fn sym(base: &str) -> String {
    format!("X:{}USDT", base)
}

fn order(a: &str, b: &str) -> Ordering {
    custom_sort(&sym(a), &sym(b)).unwrap()
}

#[test]
fn larger_number_ranks_first() {
    assert_eq!(order("1000PEPE", "10DOGE"), Ordering::Less);
    assert_eq!(order("10DOGE", "1000PEPE"), Ordering::Greater);
    assert_eq!(order("2A", "10A"), Ordering::Greater);
    assert_eq!(order("1000000Z", "1000A"), Ordering::Less);
}

#[test]
fn larger_number_ranks_first_whatever_the_text() {
    assert_eq!(order("1000ZZZ", "10AAA"), Ordering::Less);
    assert_eq!(order("10AAA", "1000ZZZ"), Ordering::Greater);
}

#[test]
fn same_number_ranks_by_text() {
    assert_eq!(order("100A", "100B"), Ordering::Less);
    assert_eq!(order("100B", "100A"), Ordering::Greater);
    assert_eq!(order("100A", "100A"), Ordering::Equal);
    assert_eq!(order("100", "100A"), Ordering::Less);
}

#[test]
fn same_number_in_another_spelling_ranks_by_text() {
    assert_eq!(order("1.0B", "1A"), Ordering::Greater);
    assert_eq!(order("1.0A", "1B"), Ordering::Less);
    assert_eq!(order("01X", "1.00X"), Ordering::Equal);
    assert_eq!(order("1.X", "1X"), Ordering::Equal);
}

#[test]
fn numbered_ranks_before_plain() {
    assert_eq!(order("100XYZ", "ABC"), Ordering::Less);
    assert_eq!(order("ABC", "100XYZ"), Ordering::Greater);
    assert_eq!(order("0", "A"), Ordering::Less);
    assert_eq!(order("0.001ZZZZ", "AAAA"), Ordering::Less);
}

#[test]
fn plain_ranks_by_text() {
    assert_eq!(order("APPLE", "MANGO"), Ordering::Less);
    assert_eq!(order("ZEBRA", "MANGO"), Ordering::Greater);
    assert_eq!(order("BTC", "BTC"), Ordering::Equal);
    assert_eq!(order("BT", "BTC"), Ordering::Less);
    assert_eq!(order("BTC", "BT"), Ordering::Greater);
    assert_eq!(order("", "A"), Ordering::Less);
    assert_eq!(order("a", "B"), Ordering::Greater);
}

#[test]
fn text_ranks_by_code_point() {
    assert_eq!(order("Z", "\u{e9}"), Ordering::Less);
    assert_eq!(order("\u{e9}", "\u{4e2d}"), Ordering::Less);
    assert_eq!(order("\u{1f600}", "\u{4e2d}"), Ordering::Greater);
}

#[test]
fn fractions_rank_by_value() {
    assert_eq!(order("1.5X", "1.25X"), Ordering::Less);
    assert_eq!(order("0.5X", "0.50X"), Ordering::Equal);
    assert_eq!(order(".5A", "0.25A"), Ordering::Less);
    assert_eq!(order("2.A", "1.99A"), Ordering::Less);
}

#[test]
fn numbers_beyond_machine_words_rank_exactly() {
    let big = "100000000000000000000000000000000000000001";
    let bigger = "100000000000000000000000000000000000000002";
    assert_eq!(order(&format!("{}A", bigger), &format!("{}A", big)), Ordering::Less);
    assert_eq!(order(&format!("{}A", big), &format!("{}A", bigger)), Ordering::Greater);
    assert_eq!(order(&format!("{}B", big), &format!("{}A", big)), Ordering::Greater);
}

#[test]
fn a_run_that_is_no_numeral_counts_as_no_number() {
    assert_eq!(order("1.2.3ABC", "ABD"), Ordering::Less);
    assert_eq!(order("1.2.3ABD", "ABC"), Ordering::Greater);
    assert_eq!(order(".A", "A"), Ordering::Equal);
    assert_eq!(order("9A", "1.2.3A"), Ordering::Less);
}

#[test]
fn the_exchange_does_not_rank() {
    assert_eq!(custom_sort("ZZZ:BTCUSDT", "AAA:ETHUSDT"), Ok(Ordering::Less));
    assert_eq!(custom_sort(":BTCUSDT", "GATEIO:BTCUSDT"), Ok(Ordering::Equal));
}

#[test]
fn only_one_quote_suffix_is_taken_off() {
    assert_eq!(custom_sort("X:AUSDTUSDT", "X:AUSDT"), Ok(Ordering::Greater));
    assert_eq!(custom_sort("X:USDT", "X:AUSDT"), Ok(Ordering::Less));
}

#[test]
fn missing_quote_suffix_is_an_error() {
    assert_eq!(custom_sort("X:NOQUOTESUFFIX", "X:BTCUSDT"), Err(RankError::MalformedSymbol));
    assert_eq!(custom_sort("X:BTCUSDT", "X:NOQUOTESUFFIX"), Err(RankError::MalformedSymbol));
    assert_eq!(custom_sort("X:BTCUSD", "X:BTCUSDT"), Err(RankError::MalformedSymbol));
    assert_eq!(custom_sort("X:SDT", "X:BTCUSDT"), Err(RankError::MalformedSymbol));
    assert_eq!(custom_sort("X:BTCusdt", "X:BTCUSDT"), Err(RankError::MalformedSymbol));
}

#[test]
fn missing_separator_is_an_error() {
    assert_eq!(custom_sort("BTCUSDT", "X:BTCUSDT"), Err(RankError::MalformedSymbol));
    assert_eq!(custom_sort("X:BTCUSDT", ""), Err(RankError::MalformedSymbol));
}

#[test]
fn second_separator_is_an_error() {
    assert_eq!(custom_sort("X:Y:BTCUSDT", "X:BTCUSDT"), Err(RankError::MalformedSymbol));
    assert_eq!(custom_sort("X:BTCUSDT", "X:BTC:USDT"), Err(RankError::MalformedSymbol));
    assert_eq!(custom_sort("X:BTCUSDT:", "X:BTCUSDT"), Err(RankError::MalformedSymbol));
}

#[test]
fn key_of_reads_the_base() {
    let key = key_of("GATEIO:1000PEPEUSDT").unwrap();
    assert!(key.numeric_prefix.is_some());
    assert_eq!(key.alpha_suffix, "PEPE");
    let plain = key_of("GATEIO:BTCUSDT").unwrap();
    assert!(plain.numeric_prefix.is_none());
    assert_eq!(plain.alpha_suffix, "BTC");
    assert!(matches!(key_of("GATEIO-BTCUSDT"), Err(RankError::MalformedSymbol)));
}

#[test]
fn comparison_is_antisymmetric_on_samples() {
    let bases = ["BTC", "ETH", "1000PEPE", "10DOGE", "1.5X", "1.50X", "", "5", ".", "1.2.3A"];
    for a in bases {
        for b in bases {
            assert_eq!(order(a, b), order(b, a).reverse());
        }
    }
}

#[test]
fn comparison_is_transitive_on_samples() {
    let bases = ["BTC", "ETH", "1000PEPE", "10DOGE", "1.5X", "1.50X", "", "5", "05A", "5A"];
    for a in bases {
        for b in bases {
            for c in bases {
                if order(a, b) != Ordering::Greater && order(b, c) != Ordering::Greater {
                    assert_ne!(order(a, c), Ordering::Greater);
                }
            }
        }
    }
}
