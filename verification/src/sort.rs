//! Putting symbols in ranking order, and what holds of every ranking.

use crate::key::{
    lemma_precedes_asymmetric, lemma_rank_transitive, rank_ordering, RankKey, RankKeyView,
};
use crate::ranking::{key_of, symbol_key};
use crate::symbol::{well_formed, RankError};
use std::cmp::Ordering;
use vstd::prelude::*;
use vstd::seq_lib::{to_multiset_build, to_multiset_insert};

verus! {

/// Every symbol of `symbols` is well formed.
pub open spec fn all_well_formed(symbols: Seq<Seq<char>>) -> bool {
    forall|i: int| 0 <= i < symbols.len() ==> well_formed(#[trigger] symbols[i])
}

/// No symbol of `symbols` ranks before one that stands earlier.
pub open spec fn is_ranked(symbols: Seq<Seq<char>>) -> bool {
    forall|i: int, j: int|
        0 <= i < j < symbols.len() ==> !symbol_key(#[trigger] symbols[j]).precedes(
            symbol_key(#[trigger] symbols[i]),
        )
}

/// The test that a symbol ties with `key`.
pub open spec fn ties_with(key: RankKeyView) -> spec_fn(Seq<char>) -> bool {
    |s: Seq<char>| symbol_key(s).ties(key)
}

/// The symbols of `symbols` that tie with `key`, in the order in which they stand.
pub open spec fn tied_with(symbols: Seq<Seq<char>>, key: RankKeyView) -> Seq<Seq<char>> {
    symbols.filter(ties_with(key))
}

/// `ranked` is `symbols` in ranking order: it holds the same symbols, as
/// often, none of them before one that ranks earlier, and those that tie in
/// the order in which `symbols` has them.
pub open spec fn is_ranking_of(ranked: Seq<Seq<char>>, symbols: Seq<Seq<char>>) -> bool {
    &&& ranked.to_multiset() == symbols.to_multiset()
    &&& is_ranked(ranked)
    &&& forall|key: RankKeyView| #[trigger] tied_with(ranked, key) == tied_with(symbols, key)
}

/// The texts of `symbols`.
pub open spec fn texts(symbols: Seq<String>) -> Seq<Seq<char>> {
    symbols.map_values(|s: String| s@)
}

spec fn keys_match(keys: Seq<RankKey>, symbols: Seq<Seq<char>>) -> bool {
    &&& keys.len() == symbols.len()
    &&& forall|i: int| 0 <= i < keys.len() ==> (#[trigger] keys[i])@ == symbol_key(symbols[i])
}

/// Where `key` goes among the keys of the ranked `symbols`: behind every key
/// that it does not rank before, and before every key that it ranks before.
fn insertion_point(keys: &Vec<RankKey>, key: &RankKey, Ghost(symbols): Ghost<Seq<Seq<char>>>) -> (pos:
    usize)
    requires
        keys_match(keys@, symbols),
        is_ranked(symbols),
    ensures
        pos <= keys.len(),
        forall|j: int| 0 <= j < pos ==> !key@.precedes(symbol_key(#[trigger] symbols[j])),
        forall|j: int|
            pos <= j < keys.len() ==> key@.precedes(symbol_key(#[trigger] symbols[j])),
{
    let mut low: usize = 0;
    let mut high: usize = keys.len();
    while low < high
        invariant
            low <= high <= keys.len(),
            keys_match(keys@, symbols),
            is_ranked(symbols),
            forall|j: int| 0 <= j < low ==> !key@.precedes(symbol_key(#[trigger] symbols[j])),
            forall|j: int|
                high <= j < keys.len() ==> key@.precedes(symbol_key(#[trigger] symbols[j])),
        decreases high - low,
    {
        let mid = low + (high - low) / 2;
        if key.ranks_before(&keys[mid]) {
            proof {
                let at = symbol_key(symbols[mid as int]);
                assert forall|j: int| mid <= j < keys.len() implies key@.precedes(
                    symbol_key(#[trigger] symbols[j]),
                ) by {
                    if j > mid {
                        lemma_precedes_asymmetric(key@, at);
                        lemma_rank_transitive(key@, at, symbol_key(symbols[j]));
                    }
                }
            }
            high = mid;
        } else {
            proof {
                let at = symbol_key(symbols[mid as int]);
                assert forall|j: int| 0 <= j < mid + 1 implies !key@.precedes(
                    symbol_key(#[trigger] symbols[j]),
                ) by {
                    if j < mid {
                        lemma_rank_transitive(symbol_key(symbols[j]), at, key@);
                    }
                }
            }
            low = mid + 1;
        }
    }
    low
}

proof fn lemma_filter_none<A>(s: Seq<A>, pred: spec_fn(A) -> bool)
    requires
        forall|i: int| 0 <= i < s.len() ==> !pred(#[trigger] s[i]),
    ensures
        s.filter(pred) =~= Seq::<A>::empty(),
    decreases s.len(),
{
    reveal(Seq::filter);
    if s.len() > 0 {
        lemma_filter_none(s.drop_last(), pred);
    }
}

/// Putting `x` at `pos` into a ranking of `symbols`, behind all that it does
/// not rank before and before all that it ranks before, gives a ranking of
/// `symbols` with `x` added at its end.
proof fn lemma_insert_keeps_ranking(
    ranked: Seq<Seq<char>>,
    symbols: Seq<Seq<char>>,
    x: Seq<char>,
    pos: int,
)
    requires
        is_ranking_of(ranked, symbols),
        0 <= pos <= ranked.len(),
        forall|j: int| 0 <= j < pos ==> !symbol_key(x).precedes(symbol_key(#[trigger] ranked[j])),
        forall|j: int|
            pos <= j < ranked.len() ==> symbol_key(x).precedes(symbol_key(#[trigger] ranked[j])),
    ensures
        is_ranking_of(ranked.insert(pos, x), symbols.push(x)),
{
    let after = ranked.insert(pos, x);
    to_multiset_insert(ranked, pos, x);
    to_multiset_build(symbols, x);
    assert forall|i: int, j: int| 0 <= i < j < after.len() implies !symbol_key(
        #[trigger] after[j],
    ).precedes(symbol_key(#[trigger] after[i])) by {
        if j == pos {
            assert(after[i] == ranked[i]);
        } else if i == pos {
            assert(after[j] == ranked[j - 1]);
            lemma_precedes_asymmetric(symbol_key(x), symbol_key(ranked[j - 1]));
        } else {
            let i0 = if i < pos { i } else { i - 1 };
            let j0 = if j < pos { j } else { j - 1 };
            assert(after[i] == ranked[i0]);
            assert(after[j] == ranked[j0]);
        }
    }
    assert forall|key: RankKeyView| #[trigger]
        tied_with(after, key) == tied_with(symbols.push(x), key) by {
        let pred = ties_with(key);
        let front = ranked.take(pos);
        let back = ranked.skip(pos);
        assert(after =~= front.push(x) + back);
        assert(ranked =~= front + back);
        Seq::filter_distributes_over_add(front.push(x), back, pred);
        Seq::filter_distributes_over_add(front, back, pred);
        front.lemma_filter_push(x, pred);
        symbols.lemma_filter_push(x, pred);
        assert(tied_with(ranked, key) == tied_with(symbols, key));
        if pred(x) {
            assert forall|i: int| 0 <= i < back.len() implies !pred(#[trigger] back[i]) by {
                let y = symbol_key(back[i]);
                assert(back[i] == ranked[pos + i]);
                lemma_precedes_asymmetric(symbol_key(x), y);
                if y.ties(key) {
                    lemma_rank_transitive(symbol_key(x), y, key);
                }
            }
            lemma_filter_none(back, pred);
            assert(front.filter(pred) + Seq::<Seq<char>>::empty() =~= front.filter(pred));
            assert(front.filter(pred).push(x) + Seq::<Seq<char>>::empty() =~= front.filter(
                pred,
            ).push(x));
        }
    }
}

/// Puts `symbols` in ranking order. Symbols that tie keep the order in which
/// they came. Fails, and ranks nothing, where a symbol is malformed.
pub fn rank_symbols(symbols: &[String]) -> (r: Result<Vec<String>, RankError>)
    ensures
        all_well_formed(texts(symbols@)) ==> (r matches Ok(ranked) && is_ranking_of(
            texts(ranked@),
            texts(symbols@),
        )),
        !all_well_formed(texts(symbols@)) ==> r == Err::<Vec<String>, RankError>(
            RankError::MalformedSymbol,
        ),
{
    let mut keys: Vec<RankKey> = Vec::new();
    let mut ranked: Vec<String> = Vec::new();
    let mut i: usize = 0;
    proof {
        assert(texts(ranked@) =~= texts(symbols@).take(0));
    }
    while i < symbols.len()
        invariant
            i <= symbols.len(),
            keys_match(keys@, texts(ranked@)),
            all_well_formed(texts(symbols@).take(i as int)),
            is_ranking_of(texts(ranked@), texts(symbols@).take(i as int)),
        decreases symbols.len() - i,
    {
        let symbol = &symbols[i];
        let ghost before = texts(symbols@).take(i as int);
        proof {
            assert(texts(symbols@)[i as int] == symbol@);
            assert(texts(symbols@).take(i + 1) =~= before.push(symbol@));
        }
        let key = match key_of(symbol.as_str()) {
            Ok(key) => key,
            Err(e) => {
                return Err(e);
            },
        };
        let pos = insertion_point(&keys, &key, Ghost(texts(ranked@)));
        proof {
            lemma_insert_keeps_ranking(texts(ranked@), before, symbol@, pos as int);
            assert(texts(ranked@.insert(pos as int, *symbol)) =~= texts(ranked@).insert(
                pos as int,
                symbol@,
            ));
        }
        keys.insert(pos, key);
        ranked.insert(pos, symbol.clone());
        i = i + 1;
    }
    proof {
        assert(texts(symbols@).take(i as int) =~= texts(symbols@));
    }
    Ok(ranked)
}

proof fn lemma_ties_transitive(a: RankKeyView, b: RankKeyView, c: RankKeyView)
    requires
        a.ties(b),
        b.ties(c),
    ensures
        a.ties(c),
{
    lemma_rank_transitive(a, b, c);
    lemma_rank_transitive(c, b, a);
}

proof fn lemma_filter_first<A>(s: Seq<A>, pred: spec_fn(A) -> bool)
    requires
        s.len() > 0,
    ensures
        s.filter(pred) =~= if pred(s[0]) {
            seq![s[0]] + s.drop_first().filter(pred)
        } else {
            s.drop_first().filter(pred)
        },
{
    let head = Seq::<A>::empty().push(s[0]);
    assert(s =~= head + s.drop_first());
    Seq::filter_distributes_over_add(head, s.drop_first(), pred);
    Seq::<A>::empty().lemma_filter_push(s[0], pred);
    lemma_filter_none(Seq::<A>::empty(), pred);
    assert(head =~= seq![s[0]]);
}

proof fn lemma_tail_is_ranked(symbols: Seq<Seq<char>>, at: int)
    requires
        is_ranked(symbols),
        0 <= at < symbols.len(),
    ensures
        is_ranked(symbols.remove(at)),
        symbols.remove(at).to_multiset() == symbols.to_multiset().remove(symbols[at]),
{
    let rest = symbols.remove(at);
    vstd::seq_lib::to_multiset_remove(symbols, at);
    assert forall|i: int, j: int| 0 <= i < j < rest.len() implies !symbol_key(
        #[trigger] rest[j],
    ).precedes(symbol_key(#[trigger] rest[i])) by {
        let i0 = if i < at { i } else { i + 1 };
        let j0 = if j < at { j } else { j + 1 };
        assert(rest[i] == symbols[i0]);
        assert(rest[j] == symbols[j0]);
    }
}

/// A symbol of `b` stands somewhere in `a` when both hold the same symbols.
proof fn lemma_find_in(a: Seq<Seq<char>>, b: Seq<Seq<char>>, x: Seq<char>) -> (at: int)
    requires
        a.to_multiset() == b.to_multiset(),
        b.contains(x),
    ensures
        0 <= at < a.len(),
        a[at] == x,
{
    vstd::seq_lib::to_multiset_contains(a, x);
    vstd::seq_lib::to_multiset_contains(b, x);
    choose|at: int| 0 <= at < a.len() && a[at] == x
}

/// In two ranked sequences of the same symbols, every symbol of the one
/// that stands no later than the first symbol of the other ties with it.
proof fn lemma_heads_tie(a: Seq<Seq<char>>, b: Seq<Seq<char>>, n: int, j: int)
    requires
        is_ranked(a),
        is_ranked(b),
        a.to_multiset() == b.to_multiset(),
        0 <= j <= n < b.len(),
        a.len() > 0,
        b[n] == a[0],
    ensures
        symbol_key(b[j]).ties(symbol_key(a[0])),
{
    assert(b.contains(b[j]));
    let m = lemma_find_in(a, b, b[j]);
    lemma_precedes_asymmetric(symbol_key(a[0]), symbol_key(a[0]));
    if m > 0 {
        assert(!symbol_key(a[m]).precedes(symbol_key(a[0])));
    }
    if j < n {
        assert(!symbol_key(b[n]).precedes(symbol_key(b[j])));
    }
}

proof fn lemma_ranked_equal(a: Seq<Seq<char>>, b: Seq<Seq<char>>)
    requires
        is_ranked(a),
        is_ranked(b),
        a.to_multiset() == b.to_multiset(),
        forall|key: RankKeyView| #[trigger] tied_with(a, key) == tied_with(b, key),
    ensures
        a == b,
    decreases a.len(),
{
    vstd::seq_lib::to_multiset_len(a);
    vstd::seq_lib::to_multiset_len(b);
    if a.len() == 0 {
        assert(a =~= b);
    } else {
        let x = a[0];
        let kx = symbol_key(x);
        assert(a.contains(x));
        let n = lemma_find_in(b, a, x);
        lemma_heads_tie(a, b, n, 0);
        lemma_precedes_asymmetric(kx, kx);
        lemma_filter_first(a, ties_with(kx));
        lemma_filter_first(b, ties_with(kx));
        assert(tied_with(a, kx) == tied_with(b, kx));
        assert(tied_with(a, kx)[0] == x);
        assert(tied_with(b, kx)[0] == b[0]);
        assert(b[0] == x);
        let a1 = a.drop_first();
        let b1 = b.drop_first();
        assert(a1 =~= a.remove(0));
        assert(b1 =~= b.remove(0));
        lemma_tail_is_ranked(a, 0);
        lemma_tail_is_ranked(b, 0);
        assert forall|key: RankKeyView| #[trigger] tied_with(a1, key) == tied_with(b1, key) by {
            lemma_filter_first(a, ties_with(key));
            lemma_filter_first(b, ties_with(key));
            assert(tied_with(a, key) == tied_with(b, key));
            let fa = a1.filter(ties_with(key));
            let fb = b1.filter(ties_with(key));
            if ties_with(key)(x) {
                assert(fa =~= (seq![x] + fa).skip(1));
                assert(fb =~= (seq![x] + fb).skip(1));
            }
        }
        lemma_ranked_equal(a1, b1);
        assert(a =~= seq![x] + a1);
        assert(b =~= seq![x] + b1);
    }
}

/// In a ranking, a symbol that ranks before another stands before it.
pub proof fn lemma_ranked_places(ranked: Seq<Seq<char>>, i: int, j: int)
    requires
        is_ranked(ranked),
        0 <= i < ranked.len(),
        0 <= j < ranked.len(),
        symbol_key(ranked[i]).precedes(symbol_key(ranked[j])),
    ensures
        i < j,
{
    lemma_precedes_asymmetric(symbol_key(ranked[i]), symbol_key(ranked[j]));
}

/// In a ranking, no comparison of a symbol with one that stands later says `Greater`.
pub proof fn lemma_ranked_by_comparison(ranked: Seq<Seq<char>>, i: int, j: int)
    requires
        is_ranked(ranked),
        0 <= i <= j < ranked.len(),
    ensures
        rank_ordering(symbol_key(ranked[i]), symbol_key(ranked[j])) != Ordering::Greater,
{
    lemma_precedes_asymmetric(symbol_key(ranked[i]), symbol_key(ranked[j]));
}

/// There is one ranking of given symbols, and no other.
pub proof fn lemma_ranking_unique(
    first: Seq<Seq<char>>,
    second: Seq<Seq<char>>,
    symbols: Seq<Seq<char>>,
)
    requires
        is_ranking_of(first, symbols),
        is_ranking_of(second, symbols),
    ensures
        first == second,
{
    assert forall|key: RankKeyView| #[trigger] tied_with(first, key) == tied_with(second, key) by {
        assert(tied_with(first, key) == tied_with(symbols, key));
        assert(tied_with(second, key) == tied_with(symbols, key));
    }
    lemma_ranked_equal(first, second);
}

/// Ranking symbols that already stand in ranking order gives them back unchanged.
pub proof fn lemma_ranking_idempotent(symbols: Seq<Seq<char>>, ranked: Seq<Seq<char>>)
    requires
        is_ranked(symbols),
        is_ranking_of(ranked, symbols),
    ensures
        ranked == symbols,
{
    lemma_ranking_unique(ranked, symbols, symbols);
}

proof fn lemma_ranked_tie_pointwise(a: Seq<Seq<char>>, b: Seq<Seq<char>>)
    requires
        is_ranked(a),
        is_ranked(b),
        a.to_multiset() == b.to_multiset(),
    ensures
        a.len() == b.len(),
        forall|i: int|
            0 <= i < a.len() ==> symbol_key(#[trigger] a[i]).ties(symbol_key(#[trigger] b[i])),
    decreases a.len(),
{
    vstd::seq_lib::to_multiset_len(a);
    vstd::seq_lib::to_multiset_len(b);
    if a.len() > 0 {
        let x = a[0];
        let kx = symbol_key(x);
        assert(a.contains(x));
        let n = lemma_find_in(b, a, x);
        let a1 = a.remove(0);
        let b1 = b.remove(n);
        lemma_tail_is_ranked(a, 0);
        lemma_tail_is_ranked(b, n);
        lemma_ranked_tie_pointwise(a1, b1);
        assert forall|i: int| 0 <= i < a.len() implies symbol_key(#[trigger] a[i]).ties(
            symbol_key(#[trigger] b[i]),
        ) by {
            if i == 0 {
                lemma_heads_tie(a, b, n, 0);
            } else {
                assert(a[i] == a1[i - 1]);
                assert(symbol_key(a1[i - 1]).ties(symbol_key(b1[i - 1])));
                if i - 1 < n {
                    assert(b1[i - 1] == b[i - 1]);
                    lemma_heads_tie(a, b, n, i - 1);
                    lemma_heads_tie(a, b, n, i);
                    lemma_ties_transitive(symbol_key(a[i]), symbol_key(b[i - 1]), kx);
                    lemma_ties_transitive(symbol_key(a[i]), kx, symbol_key(b[i]));
                } else {
                    assert(b1[i - 1] == b[i]);
                }
            }
        }
    }
}

/// No two different symbols of `symbols` tie.
pub open spec fn ties_are_repeats(symbols: Seq<Seq<char>>) -> bool {
    forall|i: int, j: int|
        0 <= i < symbols.len() && 0 <= j < symbols.len() && symbol_key(
            #[trigger] symbols[i],
        ).ties(symbol_key(#[trigger] symbols[j])) ==> symbols[i] == symbols[j]
}

/// The ranking does not depend on the order in which the symbols come. Two
/// rankings of the same symbols, each as often, hold at every place symbols
/// that tie; and they are the same sequence where only repeats of one symbol tie.
pub proof fn lemma_ranking_ignores_input_order(
    symbols: Seq<Seq<char>>,
    reordered: Seq<Seq<char>>,
    ranked: Seq<Seq<char>>,
    reranked: Seq<Seq<char>>,
)
    requires
        symbols.to_multiset() == reordered.to_multiset(),
        is_ranking_of(ranked, symbols),
        is_ranking_of(reranked, reordered),
    ensures
        ranked.len() == reranked.len(),
        forall|i: int|
            0 <= i < ranked.len() ==> symbol_key(#[trigger] ranked[i]).ties(
                symbol_key(#[trigger] reranked[i]),
            ),
        ties_are_repeats(symbols) ==> ranked == reranked,
{
    lemma_ranked_tie_pointwise(ranked, reranked);
    if ties_are_repeats(symbols) {
        assert forall|i: int| 0 <= i < ranked.len() implies ranked[i] == reranked[i] by {
            assert(ranked.contains(ranked[i]));
            assert(reranked.contains(reranked[i]));
            let m = lemma_find_in(symbols, ranked, ranked[i]);
            let n = lemma_find_in(symbols, reranked, reranked[i]);
            assert(symbol_key(symbols[m]).ties(symbol_key(symbols[n])));
        }
        assert(ranked =~= reranked);
    }
}

} // verus!
