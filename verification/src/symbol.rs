//! The shape of a symbol: exchange, separator, base ticker, quote currency.

use crate::text::{chars_of, first_index_of, lemma_first_index_is, lemma_first_index_of};
use vstd::prelude::*;

verus! {

/// The character that parts the exchange from the pair.
pub const SEPARATOR: char = ':';

/// The quote currency that every ranked symbol ends with.
pub const QUOTE: &'static str = "USDT";

/// The characters of the quote currency.
pub open spec fn quote_suffix() -> Seq<char> {
    seq!['U', 'S', 'D', 'T']
}

/// Why a symbol could not be ranked.
#[derive(Clone, Copy, Debug, PartialEq, Eq, Structural)]
pub enum RankError {
    /// The symbol has no separator or more than one, or what follows the
    /// separator does not end with the quote currency.
    MalformedSymbol,
}

/// Where the separator of `symbol` stands, or its length if it has none.
pub open spec fn separator_index(symbol: Seq<char>) -> int {
    first_index_of(symbol, SEPARATOR)
}

/// What follows the separator of `symbol`: the base ticker and the quote currency.
pub open spec fn symbol_pair(symbol: Seq<char>) -> Seq<char> {
    symbol.skip(separator_index(symbol) + 1)
}

/// `symbol` has the shape exchange, separator, base ticker, quote currency,
/// with exactly one separator in it.
pub open spec fn well_formed(symbol: Seq<char>) -> bool {
    &&& separator_index(symbol) < symbol.len()
    &&& !symbol_pair(symbol).contains(SEPARATOR)
    &&& quote_suffix().is_suffix_of(symbol_pair(symbol))
}

/// The base ticker of a well-formed `symbol`.
pub open spec fn symbol_base(symbol: Seq<char>) -> Seq<char> {
    symbol.subrange(separator_index(symbol) + 1, symbol.len() - quote_suffix().len())
}

/// The symbol of the pair of `base` and the quote currency on `exchange`.
pub open spec fn symbol_text(exchange: Seq<char>, base: Seq<char>) -> Seq<char> {
    exchange + seq![SEPARATOR] + base + quote_suffix()
}

/// A symbol made of an exchange and a base ticker that hold no separator is
/// well formed, and its base ticker is the one it was made of.
pub proof fn lemma_symbol_reads_back(exchange: Seq<char>, base: Seq<char>)
    requires
        !exchange.contains(SEPARATOR),
        !base.contains(SEPARATOR),
    ensures
        well_formed(symbol_text(exchange, base)),
        symbol_base(symbol_text(exchange, base)) == base,
{
    let symbol = symbol_text(exchange, base);
    let at = exchange.len() as int;
    assert forall|i: int| 0 <= i < at implies symbol[i] != SEPARATOR by {
        assert(symbol[i] == exchange[i]);
        assert(exchange.contains(exchange[i]));
    }
    lemma_first_index_is(symbol, SEPARATOR, at);
    let pair = symbol_pair(symbol);
    assert(pair =~= base + quote_suffix());
    if pair.contains(SEPARATOR) {
        let i = choose|i: int| 0 <= i < pair.len() && pair[i] == SEPARATOR;
        if i < base.len() {
            assert(base.contains(base[i]));
        }
    }
    assert(quote_suffix() =~= pair.subrange(pair.len() - quote_suffix().len(), pair.len() as int));
    assert(symbol_base(symbol) =~= base);
}

/// A well-formed symbol is made of what stands before its separator and of
/// its base ticker, and neither holds a separator.
pub proof fn lemma_well_formed_shape(symbol: Seq<char>)
    requires
        well_formed(symbol),
    ensures
        symbol == symbol_text(symbol.take(separator_index(symbol)), symbol_base(symbol)),
        !symbol.take(separator_index(symbol)).contains(SEPARATOR),
        !symbol_base(symbol).contains(SEPARATOR),
{
    lemma_first_index_of(symbol, SEPARATOR);
    let at = separator_index(symbol);
    let exchange = symbol.take(at);
    let base = symbol_base(symbol);
    let pair = symbol_pair(symbol);
    assert(symbol =~= symbol_text(exchange, base)) by {
        assert(quote_suffix() =~= pair.subrange(
            pair.len() - quote_suffix().len(),
            pair.len() as int,
        ));
        assert forall|i: int| 0 <= i < symbol.len() implies symbol[i] == symbol_text(
            exchange,
            base,
        )[i] by {
            if i >= symbol.len() - 4 {
                assert(symbol[i] == pair[i - at - 1]);
            }
        }
    }
    if base.contains(SEPARATOR) {
        let i = choose|i: int| 0 <= i < base.len() && base[i] == SEPARATOR;
        assert(pair[i] == SEPARATOR);
    }
}

/// Makes the symbol of the pair of `base` and the quote currency on `exchange`.
pub fn make_symbol(exchange: &str, base: &str) -> (symbol: String)
    ensures
        symbol@ == symbol_text(exchange@, base@),
{
    proof {
        reveal_strlit(":");
        reveal_strlit("USDT");
        assert(":"@ =~= seq![SEPARATOR]);
        assert(QUOTE@ =~= quote_suffix());
    }
    let mut symbol = String::from_str(exchange);
    symbol.append(":");
    symbol.append(base);
    symbol.append(QUOTE);
    symbol
}

/// The base ticker of `symbol`, or the error where the symbol is malformed.
pub fn base_of(symbol: &str) -> (r: Result<&str, RankError>)
    ensures
        well_formed(symbol@) ==> (r matches Ok(base) && base@ == symbol_base(symbol@)),
        !well_formed(symbol@) ==> r == Err::<&str, RankError>(RankError::MalformedSymbol),
{
    let cs = chars_of(symbol);
    let quote = chars_of(QUOTE);
    proof {
        reveal_strlit("USDT");
        assert(quote@ =~= quote_suffix());
        lemma_first_index_of(symbol@, SEPARATOR);
    }
    let len = cs.len();
    let mut at: usize = 0;
    while at < len && cs[at] != SEPARATOR
        invariant
            at <= len == cs.len(),
            forall|i: int| 0 <= i < at ==> cs@[i] != SEPARATOR,
        decreases len - at,
    {
        at = at + 1;
    }
    proof {
        lemma_first_index_is(symbol@, SEPARATOR, at as int);
    }
    if at == len {
        return Err(RankError::MalformedSymbol);
    }
    let start = at + 1;
    let ghost pair = symbol_pair(symbol@);
    let mut k: usize = start;
    while k < len
        invariant
            start <= k <= len == cs.len(),
            cs@ == symbol@,
            pair == symbol_pair(symbol@),
            pair == symbol@.skip(start as int),
            forall|i: int| 0 <= i < k - start ==> pair[i] != SEPARATOR,
        decreases len - k,
    {
        if cs[k] == SEPARATOR {
            proof {
                assert(pair[k - start] == SEPARATOR);
                assert(pair.contains(SEPARATOR));
            }
            return Err(RankError::MalformedSymbol);
        }
        k = k + 1;
    }
    if len - start < quote.len() {
        return Err(RankError::MalformedSymbol);
    }
    let end = len - quote.len();
    let mut q: usize = 0;
    while q < quote.len()
        invariant
            q <= quote.len(),
            start <= end,
            end + quote.len() == len == cs.len(),
            cs@ == symbol@,
            quote@ == quote_suffix(),
            pair == symbol_pair(symbol@),
            pair == symbol@.skip(start as int),
            forall|i: int| 0 <= i < q ==> cs@[end + i] == quote@[i],
        decreases quote.len() - q,
    {
        if cs[end + q] != quote[q] {
            proof {
                let tail = pair.subrange(pair.len() - quote@.len(), pair.len() as int);
                assert(tail[q as int] == cs@[end + q]);
                assert(tail[q as int] != quote_suffix()[q as int]);
            }
            return Err(RankError::MalformedSymbol);
        }
        q = q + 1;
    }
    proof {
        assert(quote_suffix() =~= pair.subrange(pair.len() - quote@.len(), pair.len() as int));
    }
    Ok(symbol.substring_char(start, end))
}

} // verus!
