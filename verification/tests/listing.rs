use symbol_rank::listing::{
    decode_listing, rank_listing, rank_pairs, render_lines, select_symbols, ListingError,
    PairRecord,
};

fn pair(base: Option<&str>, quote: Option<&str>) -> PairRecord {
    PairRecord { base: base.map(String::from), quote: quote.map(String::from) }
}

const LISTING: &str = r#"[
    {"id": "BTC_USDT", "base": "BTC", "quote": "USDT", "fee": "0.2"},
    {"id": "ETH_BTC", "base": "ETH", "quote": "BTC"},
    {"id": "1000PEPE_USDT", "base": "1000PEPE", "quote": "USDT"},
    {"id": "10DOGE_USDT", "quote": "USDT", "base": "10DOGE"},
    {"id": "ETH_USDT", "base": "ETH", "quote": "USDT"}
]"#;

#[test]
fn listing_decodes_to_its_pairs() {
    let pairs = decode_listing(LISTING).unwrap();
    assert_eq!(pairs.len(), 5);
    assert_eq!(pairs[0].base.as_deref(), Some("BTC"));
    assert_eq!(pairs[0].quote.as_deref(), Some("USDT"));
    assert_eq!(pairs[1].base.as_deref(), Some("ETH"));
    assert_eq!(pairs[1].quote.as_deref(), Some("BTC"));
    assert_eq!(pairs[3].base.as_deref(), Some("10DOGE"));
    assert_eq!(pairs[3].quote.as_deref(), Some("USDT"));
}

#[test]
fn members_that_are_missing_or_no_text_are_absent() {
    let pairs = decode_listing(r#"[{"base": "A"}, {"quote": 5, "base": null}, 7, "USDT", [], {}]"#)
        .unwrap();
    assert_eq!(pairs.len(), 6);
    assert_eq!(pairs[0].base.as_deref(), Some("A"));
    assert_eq!(pairs[0].quote, None);
    for pair in &pairs[1..] {
        assert_eq!(pair.base, None);
        assert_eq!(pair.quote, None);
    }
}

#[test]
fn escapes_in_the_listing_are_decoded() {
    let pairs = decode_listing(r#"[{"base": "Aé\"", "quote": "USDT"}]"#).unwrap();
    assert_eq!(pairs[0].base.as_deref(), Some("A\u{e9}\""));
    assert_eq!(pairs[0].quote.as_deref(), Some("USDT"));
}

#[test]
fn empty_listing_decodes_to_no_pairs() {
    assert_eq!(decode_listing("[]").unwrap().len(), 0);
    assert_eq!(decode_listing(" [ ] ").unwrap().len(), 0);
}

#[test]
fn text_that_is_no_array_is_undecodable() {
    for bad in ["", "{}", "[", "[{]", "null", "\"USDT\"", "[1,]", "[] []", "{\"base\": \"A\"}"] {
        assert!(matches!(decode_listing(bad), Err(ListingError::Undecodable)), "{}", bad);
        assert_eq!(rank_listing(bad, "X"), Err(ListingError::Undecodable), "{}", bad);
    }
}

#[test]
fn only_pairs_in_the_quote_currency_are_selected() {
    let pairs = vec![
        pair(Some("BTC"), Some("USDT")),
        pair(Some("ETH"), Some("BTC")),
        pair(Some("XRP"), None),
        pair(Some("DOT"), Some("usdt")),
        pair(Some("ADA"), Some("USDT ")),
        pair(Some("SOL"), Some("")),
        pair(Some("1000PEPE"), Some("USDT")),
    ];
    assert_eq!(
        select_symbols(&pairs, "GATEIO"),
        Ok(vec!["GATEIO:BTCUSDT".to_string(), "GATEIO:1000PEPEUSDT".to_string()])
    );
}

#[test]
fn selected_pair_without_base_is_an_error() {
    let pairs = vec![pair(Some("BTC"), Some("USDT")), pair(None, Some("USDT"))];
    assert_eq!(select_symbols(&pairs, "X"), Err(ListingError::MissingBase));
    assert_eq!(rank_pairs(&pairs, "X"), Err(ListingError::MissingBase));
    assert_eq!(
        rank_listing(r#"[{"base": 5, "quote": "USDT"}]"#, "X"),
        Err(ListingError::MissingBase)
    );
}

#[test]
fn other_pair_without_base_is_passed_over() {
    let pairs = vec![pair(None, Some("BTC")), pair(None, None), pair(Some("ETH"), Some("USDT"))];
    assert_eq!(select_symbols(&pairs, "X"), Ok(vec!["X:ETHUSDT".to_string()]));
}

#[test]
fn pairs_rank_as_their_symbols_do() {
    let pairs = vec![
        pair(Some("BTC"), Some("USDT")),
        pair(Some("ETH"), Some("USDT")),
        pair(Some("LTC"), Some("BTC")),
        pair(Some("1000PEPE"), Some("USDT")),
        pair(Some("10DOGE"), Some("USDT")),
    ];
    assert_eq!(
        rank_pairs(&pairs, "X"),
        Ok(vec![
            "X:1000PEPEUSDT".to_string(),
            "X:10DOGEUSDT".to_string(),
            "X:BTCUSDT".to_string(),
            "X:ETHUSDT".to_string(),
        ])
    );
}

#[test]
fn base_with_a_separator_fails_the_ranking() {
    let pairs = vec![pair(Some("BTC"), Some("USDT")), pair(Some("A:B"), Some("USDT"))];
    assert_eq!(rank_pairs(&pairs, "X"), Err(ListingError::MalformedSymbol));
}

#[test]
fn exchange_with_a_separator_fails_the_ranking() {
    let pairs = vec![pair(Some("BTC"), Some("USDT"))];
    assert_eq!(rank_pairs(&pairs, "X:Y"), Err(ListingError::MalformedSymbol));
    assert_eq!(rank_pairs(&Vec::new(), "X:Y"), Ok(Vec::new()));
}

#[test]
fn listing_ranks_from_text_to_symbols() {
    assert_eq!(
        rank_listing(LISTING, "GATEIO"),
        Ok(vec![
            "GATEIO:1000PEPEUSDT".to_string(),
            "GATEIO:10DOGEUSDT".to_string(),
            "GATEIO:BTCUSDT".to_string(),
            "GATEIO:ETHUSDT".to_string(),
        ])
    );
    assert_eq!(rank_listing("[]", "GATEIO"), Ok(Vec::new()));
}

#[test]
fn lines_end_with_a_line_feed_each() {
    let symbols = vec!["X:1000PEPEUSDT".to_string(), "X:BTCUSDT".to_string()];
    assert_eq!(render_lines(&symbols), "X:1000PEPEUSDT\nX:BTCUSDT\n");
    assert_eq!(render_lines(&vec!["".to_string()]), "\n");
    assert_eq!(render_lines(&Vec::new()), "");
}
