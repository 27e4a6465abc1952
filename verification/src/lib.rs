//! Ranking of the trading symbols of an exchange.
//!
//! A symbol names an exchange and, behind a separator, a pair: a base ticker
//! followed by the quote currency. Symbols rank by their base. A base that
//! starts with a number ranks before one that does not, a larger number
//! before a smaller one, and text in lexicographic order where the numbers
//! do not decide.
//!
//! [`ranking::custom_sort`] compares two symbols, [`sort::rank_symbols`] puts
//! a list of them in order, and [`listing`] gets from the text of an
//! exchange's listing to the ranked symbols and to the lines that hold them.

pub mod decimal;
pub mod json;
pub mod key;
pub mod listing;
pub mod ranking;
pub mod sort;
pub mod symbol;
pub mod text;

pub use crate::decimal::Decimal;
pub use crate::key::{split_numeric_alpha, RankKey};
pub use crate::listing::{rank_listing, render_lines, ListingError, PairRecord};
pub use crate::ranking::custom_sort;
pub use crate::sort::rank_symbols;
pub use crate::symbol::{make_symbol, RankError};
