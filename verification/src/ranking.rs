//! The comparison of two symbols, and what holds of it.

use crate::key::{
    numeric_run_len, rank_key, rank_ordering, split_numeric_alpha, RankKey, RankKeyView,
};
use crate::symbol::{
    base_of, lemma_well_formed_shape, separator_index, symbol_base, well_formed, RankError,
};
use crate::text::text_ordering;
use std::cmp::Ordering;
use vstd::prelude::*;

verus! {

/// The key by which `symbol` is ranked: that of its base ticker.
pub open spec fn symbol_key(symbol: Seq<char>) -> RankKeyView {
    rank_key(symbol_base(symbol))
}

/// The ranking key of `symbol`, or the error where the symbol is malformed.
pub fn key_of(symbol: &str) -> (r: Result<RankKey, RankError>)
    ensures
        well_formed(symbol@) ==> (r matches Ok(key) && key@ == symbol_key(symbol@)),
        !well_formed(symbol@) ==> r == Err::<RankKey, RankError>(RankError::MalformedSymbol),
{
    match base_of(symbol) {
        Ok(base) => Ok(split_numeric_alpha(base)),
        Err(e) => Err(e),
    }
}

/// Compares two symbols for ranking: `Less` where `a` ranks before `b`.
/// Fails where either symbol is malformed.
pub fn custom_sort(a: &str, b: &str) -> (r: Result<Ordering, RankError>)
    ensures
        well_formed(a@) && well_formed(b@) ==> r == Ok::<Ordering, RankError>(
            rank_ordering(symbol_key(a@), symbol_key(b@)),
        ),
        !(well_formed(a@) && well_formed(b@)) ==> r == Err::<Ordering, RankError>(
            RankError::MalformedSymbol,
        ),
{
    let key_a = match key_of(a) {
        Ok(key) => key,
        Err(e) => {
            return Err(e);
        },
    };
    let key_b = match key_of(b) {
        Ok(key) => key,
        Err(e) => {
            return Err(e);
        },
    };
    Ok(key_a.compare(&key_b))
}

/// Of two symbols whose bases both start with a number, the one with the
/// larger number ranks first.
pub proof fn lemma_larger_number_ranks_first(a: Seq<char>, b: Seq<char>)
    requires
        symbol_key(a).numeric_prefix is Some,
        symbol_key(b).numeric_prefix is Some,
        symbol_key(a).numeric_prefix->0 > symbol_key(b).numeric_prefix->0,
    ensures
        rank_ordering(symbol_key(a), symbol_key(b)) == Ordering::Less,
        rank_ordering(symbol_key(b), symbol_key(a)) == Ordering::Greater,
{
    crate::key::lemma_precedes_asymmetric(symbol_key(a), symbol_key(b));
}

/// Two symbols whose bases start with the same number rank as the texts
/// behind the number do, in ascending lexicographic order.
pub proof fn lemma_same_number_ranks_by_text(a: Seq<char>, b: Seq<char>)
    requires
        symbol_key(a).numeric_prefix is Some,
        symbol_key(b).numeric_prefix is Some,
        symbol_key(a).numeric_prefix->0 == symbol_key(b).numeric_prefix->0,
    ensures
        rank_ordering(symbol_key(a), symbol_key(b)) == text_ordering(
            symbol_key(a).alpha_suffix,
            symbol_key(b).alpha_suffix,
        ),
{
}

/// A symbol whose base starts with a number ranks strictly before any
/// symbol whose base does not, whatever their texts.
pub proof fn lemma_numbered_ranks_before_plain(a: Seq<char>, b: Seq<char>)
    requires
        symbol_key(a).numeric_prefix is Some,
        symbol_key(b).numeric_prefix is None,
    ensures
        rank_ordering(symbol_key(a), symbol_key(b)) == Ordering::Less,
        rank_ordering(symbol_key(b), symbol_key(a)) == Ordering::Greater,
{
}

/// Two symbols whose bases start with no number rank as their texts do, in
/// ascending lexicographic order.
pub proof fn lemma_plain_ranks_by_text(a: Seq<char>, b: Seq<char>)
    requires
        symbol_key(a).numeric_prefix is None,
        symbol_key(b).numeric_prefix is None,
    ensures
        rank_ordering(symbol_key(a), symbol_key(b)) == text_ordering(
            symbol_key(a).alpha_suffix,
            symbol_key(b).alpha_suffix,
        ),
{
}

/// Two well-formed symbols of one exchange whose bases start with the same
/// run of digits and decimal points tie only where they are one symbol.
pub proof fn lemma_like_symbols_tie_only_if_same(a: Seq<char>, b: Seq<char>)
    requires
        well_formed(a),
        well_formed(b),
        a.take(separator_index(a)) == b.take(separator_index(b)),
        symbol_base(a).take(numeric_run_len(symbol_base(a))) == symbol_base(b).take(
            numeric_run_len(symbol_base(b)),
        ),
        symbol_key(a).ties(symbol_key(b)),
    ensures
        a == b,
{
    let base_a = symbol_base(a);
    let base_b = symbol_base(b);
    crate::key::lemma_ties_means_same(symbol_key(a), symbol_key(b));
    crate::key::lemma_numeric_run(base_a);
    crate::key::lemma_numeric_run(base_b);
    assert(base_a =~= base_a.take(numeric_run_len(base_a)) + base_a.skip(numeric_run_len(base_a)));
    assert(base_b =~= base_b.take(numeric_run_len(base_b)) + base_b.skip(numeric_run_len(base_b)));
    lemma_well_formed_shape(a);
    lemma_well_formed_shape(b);
}

} // verus!
