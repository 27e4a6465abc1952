//! From the text of an exchange's listing of currency pairs to the ranked
//! symbols of the pairs in the quote currency, and to the lines that hold them.

use crate::json::{decoded_array, member, member_text, members_of, parse_array};
use crate::sort::{all_well_formed, is_ranking_of, rank_symbols, texts};
use crate::symbol::{make_symbol, quote_suffix, symbol_text, RankError, QUOTE};
use vstd::prelude::*;

verus! {

/// One currency pair of an exchange's listing, as far as ranking reads it:
/// the texts of its members `base` and `quote`, each absent where the
/// listing has no such member or one that is no text.
#[derive(Debug)]
pub struct PairRecord {
    pub base: Option<String>,
    pub quote: Option<String>,
}

/// What a pair record says.
pub struct PairView {
    pub base: Option<Seq<char>>,
    pub quote: Option<Seq<char>>,
}

impl View for PairRecord {
    type V = PairView;

    open spec fn view(&self) -> PairView {
        PairView {
            base: match self.base {
                Some(text) => Some(text@),
                None => None,
            },
            quote: match self.quote {
                Some(text) => Some(text@),
                None => None,
            },
        }
    }
}

/// What the pair records `pairs` say.
pub open spec fn pair_views(pairs: Seq<PairRecord>) -> Seq<PairView> {
    pairs.map_values(|pair: PairRecord| pair@)
}

/// The name of the member that holds a pair's base ticker.
pub const BASE_MEMBER: &'static str = "base";

/// The name of the member that holds a pair's quote currency.
pub const QUOTE_MEMBER: &'static str = "quote";

/// The pair that an element of a listing with the text members `members` stands for.
pub open spec fn pair_of(members: Map<Seq<char>, Seq<char>>) -> PairView {
    PairView { base: member(members, BASE_MEMBER@), quote: member(members, QUOTE_MEMBER@) }
}

/// The pairs of the listing `text`, in its order. Nothing where `text` does
/// not write a JSON array.
pub open spec fn listed_pairs(text: Seq<char>) -> Option<Seq<PairView>> {
    match decoded_array(text) {
        Some(elements) => Some(
            elements.map_values(|members: Map<Seq<char>, Seq<char>>| pair_of(members)),
        ),
        None => None,
    }
}

/// Why a listing could not be ranked.
#[derive(Clone, Copy, Debug, PartialEq, Eq, Structural)]
pub enum ListingError {
    /// The text is no JSON array.
    Undecodable,
    /// A pair in the quote currency names no base.
    MissingBase,
    /// A pair in the quote currency gives a malformed symbol.
    MalformedSymbol,
}

/// The pair is quoted in the quote currency.
pub open spec fn is_quoted(pair: PairView) -> bool {
    pair.quote == Some(quote_suffix())
}

/// Every pair of `pairs` in the quote currency names its base.
pub open spec fn bases_present(pairs: Seq<PairView>) -> bool {
    forall|i: int| 0 <= i < pairs.len() && is_quoted(#[trigger] pairs[i]) ==> pairs[i].base is Some
}

/// The test that a pair is quoted in the quote currency.
pub open spec fn quoted() -> spec_fn(PairView) -> bool {
    |pair: PairView| is_quoted(pair)
}

/// The making of a pair's symbol on `exchange`.
pub open spec fn symbol_on(exchange: Seq<char>) -> spec_fn(PairView) -> Seq<char> {
    |pair: PairView| symbol_text(exchange, pair.base->0)
}

/// The symbols on `exchange` of the pairs of `pairs` in the quote currency,
/// in the order of the listing.
pub open spec fn listed_symbols(pairs: Seq<PairView>, exchange: Seq<char>) -> Seq<Seq<char>> {
    pairs.filter(quoted()).map_values(symbol_on(exchange))
}

/// Makes the symbols on `exchange` of the pairs in the quote currency, in the
/// order of the listing. Fails where one of those pairs names no base.
pub fn select_symbols(pairs: &[PairRecord], exchange: &str) -> (r: Result<
    Vec<String>,
    ListingError,
>)
    ensures
        bases_present(pair_views(pairs@)) ==> (r matches Ok(symbols) && texts(symbols@)
            == listed_symbols(pair_views(pairs@), exchange@)),
        !bases_present(pair_views(pairs@)) ==> r == Err::<Vec<String>, ListingError>(
            ListingError::MissingBase,
        ),
{
    let quote = String::from_str(QUOTE);
    proof {
        reveal_strlit("USDT");
        assert(quote@ =~= quote_suffix());
    }
    let ghost all = pair_views(pairs@);
    let mut symbols: Vec<String> = Vec::new();
    let mut i: usize = 0;
    proof {
        assert(all.take(0) =~= Seq::<PairView>::empty());
        assert(Seq::<PairView>::empty().filter(quoted()) =~= Seq::<PairView>::empty()) by {
            reveal(Seq::filter);
        }
        assert(texts(symbols@) =~= listed_symbols(all.take(0), exchange@));
    }
    while i < pairs.len()
        invariant
            i <= pairs.len(),
            all == pair_views(pairs@),
            quote@ == quote_suffix(),
            bases_present(all.take(i as int)),
            texts(symbols@) == listed_symbols(all.take(i as int), exchange@),
        decreases pairs.len() - i,
    {
        let pair = &pairs[i];
        let ghost seen = all.take(i as int);
        proof {
            assert(all[i as int] == pair@);
            assert(all.take(i + 1) =~= seen.push(pair@));
            seen.lemma_filter_push(pair@, quoted());
        }
        let is_listed = match &pair.quote {
            Some(text) => *text == quote,
            None => false,
        };
        assert(is_listed == is_quoted(pair@)) by {
            if let Some(text) = pair.quote {
                assert(text@ == quote@ <==> pair@.quote == Some(quote_suffix()));
            }
        }
        if is_listed {
            match &pair.base {
                Some(base) => {
                    let symbol = make_symbol(exchange, base.as_str());
                    proof {
                        let chosen = seen.filter(quoted());
                        chosen.lemma_push_map_commute(symbol_on(exchange@), pair@);
                        assert(texts(symbols@.push(symbol)) =~= texts(symbols@).push(symbol@));
                    }
                    symbols.push(symbol);
                },
                None => {
                    return Err(ListingError::MissingBase);
                },
            }
        }
        i = i + 1;
    }
    proof {
        assert(all.take(i as int) =~= all);
    }
    Ok(symbols)
}

/// Whether `r` is what ranking the pairs `pairs` on `exchange` owes: the
/// ranking of the symbols of the pairs in the quote currency, or the error
/// that stands in its way.
pub open spec fn is_listing_outcome(
    pairs: Seq<PairView>,
    exchange: Seq<char>,
    r: Result<Vec<String>, ListingError>,
) -> bool {
    if !bases_present(pairs) {
        r == Err::<Vec<String>, ListingError>(ListingError::MissingBase)
    } else if !all_well_formed(listed_symbols(pairs, exchange)) {
        r == Err::<Vec<String>, ListingError>(ListingError::MalformedSymbol)
    } else {
        r matches Ok(ranked) && is_ranking_of(texts(ranked@), listed_symbols(pairs, exchange))
    }
}

/// Ranks the symbols on `exchange` of the pairs in the quote currency.
pub fn rank_pairs(pairs: &[PairRecord], exchange: &str) -> (r: Result<Vec<String>, ListingError>)
    ensures
        is_listing_outcome(pair_views(pairs@), exchange@, r),
{
    let symbols = match select_symbols(pairs, exchange) {
        Ok(symbols) => symbols,
        Err(e) => {
            return Err(e);
        },
    };
    match rank_symbols(&symbols) {
        Ok(ranked) => Ok(ranked),
        Err(RankError::MalformedSymbol) => Err(ListingError::MalformedSymbol),
    }
}

/// Decodes an exchange's listing of currency pairs: a JSON array whose
/// elements name their base and quote in the members `base` and `quote`.
pub fn decode_listing(text: &str) -> (r: Result<Vec<PairRecord>, ListingError>)
    ensures
        match listed_pairs(text@) {
            Some(pairs) => r matches Ok(decoded) && pair_views(decoded@) == pairs,
            None => r == Err::<Vec<PairRecord>, ListingError>(ListingError::Undecodable),
        },
{
    let values = match parse_array(text) {
        Ok(values) => values,
        Err(_) => {
            return Err(ListingError::Undecodable);
        },
    };
    let ghost elements = members_of(values@);
    let mut pairs: Vec<PairRecord> = Vec::new();
    let mut i: usize = 0;
    while i < values.len()
        invariant
            i <= values.len(),
            elements == members_of(values@),
            pairs.len() == i,
            forall|k: int| 0 <= k < i ==> (#[trigger] pairs@[k])@ == pair_of(elements[k]),
        decreases values.len() - i,
    {
        let base = member_text(&values[i], BASE_MEMBER);
        let quote = member_text(&values[i], QUOTE_MEMBER);
        pairs.push(PairRecord { base, quote });
        i = i + 1;
    }
    proof {
        assert(pair_views(pairs@) =~= listed_pairs(text@)->0);
    }
    Ok(pairs)
}

/// Ranks the symbols on `exchange` of the pairs in the quote currency that
/// the listing `text` holds.
pub fn rank_listing(text: &str, exchange: &str) -> (r: Result<Vec<String>, ListingError>)
    ensures
        match listed_pairs(text@) {
            Some(pairs) => is_listing_outcome(pairs, exchange@, r),
            None => r == Err::<Vec<String>, ListingError>(ListingError::Undecodable),
        },
{
    match decode_listing(text) {
        Ok(pairs) => rank_pairs(&pairs, exchange),
        Err(e) => Err(e),
    }
}

/// The text that holds each of `lines` followed by a line feed.
pub open spec fn lines_text(lines: Seq<Seq<char>>) -> Seq<char>
    decreases lines.len(),
{
    if lines.len() == 0 {
        Seq::empty()
    } else {
        lines_text(lines.drop_last()) + lines.last() + seq!['\n']
    }
}

/// Writes the symbols out one to a line, each line ended by a line feed.
pub fn render_lines(symbols: &[String]) -> (out: String)
    ensures
        out@ == lines_text(texts(symbols@)),
{
    proof {
        reveal_strlit("\n");
        assert("\n"@ =~= seq!['\n']);
    }
    let mut out = String::new();
    let mut i: usize = 0;
    proof {
        assert(texts(symbols@).take(0) =~= Seq::<Seq<char>>::empty());
    }
    while i < symbols.len()
        invariant
            i <= symbols.len(),
            "\n"@ == seq!['\n'],
            out@ == lines_text(texts(symbols@).take(i as int)),
        decreases symbols.len() - i,
    {
        proof {
            let next = texts(symbols@).take(i + 1);
            assert(next.drop_last() =~= texts(symbols@).take(i as int));
            assert(next.last() == symbols@[i as int]@);
        }
        out.append(symbols[i].as_str());
        out.append("\n");
        i = i + 1;
    }
    proof {
        assert(texts(symbols@).take(i as int) =~= texts(symbols@));
    }
    out
}

} // verus!
