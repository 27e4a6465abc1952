//! Ranking keys: what a base ticker is ranked by, and the order of keys.

use crate::decimal::{
    fraction_part, is_numeral, lemma_scaled_whole, numeral_value, scaled, text_value, whole_part,
    Decimal,
};
use crate::text::{
    all_digits, char_is_digit, chars_of, compare_text, is_numeric_char, lemma_first_index_is,
    lemma_text_le_transitive, lemma_text_lt_asymmetric, lemma_text_lt_irreflexive,
    lemma_text_lt_total, text_lt,
};
use std::cmp::Ordering;
use vstd::prelude::*;

verus! {

/// What a ranking key says: the number that the base starts with, if it
/// starts with one, and the text behind it.
pub struct RankKeyView {
    pub numeric_prefix: Option<real>,
    pub alpha_suffix: Seq<char>,
}

/// The key by which a base ticker is ranked.
#[derive(Debug)]
pub struct RankKey {
    pub numeric_prefix: Option<Decimal>,
    pub alpha_suffix: String,
}

impl View for RankKey {
    type V = RankKeyView;

    open spec fn view(&self) -> RankKeyView {
        RankKeyView {
            numeric_prefix: match self.numeric_prefix {
                Some(d) => Some(d@),
                None => None,
            },
            alpha_suffix: self.alpha_suffix@,
        }
    }
}

impl RankKeyView {
    /// `self` ranks strictly before `other`: a key with a number before one
    /// without, the larger number before the smaller, and text in
    /// lexicographic order where that does not decide.
    pub open spec fn precedes(self, other: RankKeyView) -> bool {
        match (self.numeric_prefix, other.numeric_prefix) {
            (Some(x), Some(y)) => x > y || (x == y && text_lt(
                self.alpha_suffix,
                other.alpha_suffix,
            )),
            (Some(_), None) => true,
            (None, Some(_)) => false,
            (None, None) => text_lt(self.alpha_suffix, other.alpha_suffix),
        }
    }

    /// Neither key ranks before the other.
    pub open spec fn ties(self, other: RankKeyView) -> bool {
        !self.precedes(other) && !other.precedes(self)
    }
}

/// Three-way comparison of two keys; `Less` where `a` ranks before `b`.
pub open spec fn rank_ordering(a: RankKeyView, b: RankKeyView) -> Ordering {
    if a.precedes(b) {
        Ordering::Less
    } else if b.precedes(a) {
        Ordering::Greater
    } else {
        Ordering::Equal
    }
}

/// How many characters at the start of `base` are digits or decimal points.
pub open spec fn numeric_run_len(base: Seq<char>) -> int
    decreases base.len(),
{
    if base.len() == 0 || !is_numeric_char(base[0]) {
        0
    } else {
        1 + numeric_run_len(base.drop_first())
    }
}

/// The key of the base ticker `base`: its longest run of leading digits and
/// decimal points, read as a number where it is a numeral, and what follows
/// that run.
pub open spec fn rank_key(base: Seq<char>) -> RankKeyView {
    let run = base.take(numeric_run_len(base));
    RankKeyView {
        numeric_prefix: if is_numeral(run) {
            Some(numeral_value(run))
        } else {
            None
        },
        alpha_suffix: base.skip(numeric_run_len(base)),
    }
}

/// The numeric run is the longest prefix made of digits and decimal points:
/// it holds nothing else, and what follows it, if anything, is neither.
pub proof fn lemma_numeric_run(base: Seq<char>)
    ensures
        0 <= numeric_run_len(base) <= base.len(),
        forall|i: int| 0 <= i < numeric_run_len(base) ==> is_numeric_char(#[trigger] base[i]),
        numeric_run_len(base) < base.len() ==> !is_numeric_char(base[numeric_run_len(base)]),
    decreases base.len(),
{
    if base.len() == 0 || !is_numeric_char(base[0]) {
    } else {
        let rest = base.drop_first();
        lemma_numeric_run(rest);
        assert forall|i: int| 0 <= i < numeric_run_len(base) implies is_numeric_char(
            #[trigger] base[i],
        ) by {
            if i > 0 {
                assert(base[i] == rest[i - 1]);
            }
        }
        if numeric_run_len(base) < base.len() {
            assert(base[numeric_run_len(base)] == rest[numeric_run_len(rest)]);
        }
    }
}

proof fn lemma_numeric_run_is(base: Seq<char>, n: int)
    requires
        0 <= n <= base.len(),
        forall|i: int| 0 <= i < n ==> is_numeric_char(#[trigger] base[i]),
        n < base.len() ==> !is_numeric_char(base[n]),
    ensures
        numeric_run_len(base) == n,
{
    lemma_numeric_run(base);
}

/// A base made of digits and, behind them, of text that starts with neither
/// a digit nor a decimal point has the number that the digits write for its
/// numeric prefix, or none where it has no digit, and that text for its
/// suffix. So a base of digits alone has an empty suffix, a base that starts
/// with a letter has no number and is its own suffix, and the empty base has
/// neither.
pub proof fn lemma_key_of_digits_then_text(digits: Seq<char>, rest: Seq<char>)
    requires
        all_digits(digits),
        rest.len() > 0 ==> !is_numeric_char(rest[0]),
    ensures
        rank_key(digits + rest) == (RankKeyView {
            numeric_prefix: if digits.len() > 0 {
                Some(text_value(digits) as real)
            } else {
                None
            },
            alpha_suffix: rest,
        }),
{
    let base = digits + rest;
    let n = digits.len() as int;
    lemma_numeric_run_is(base, n);
    assert(base.take(n) =~= digits);
    assert(base.skip(n) =~= rest);
    lemma_first_index_is(digits, '.', n);
    assert(whole_part(digits) =~= digits);
    assert(whole_part(digits) + fraction_part(digits) =~= digits);
    lemma_scaled_whole(text_value(digits));
}

/// A base made of digits, a decimal point, more digits and, behind them, of
/// text that starts with neither a digit nor a decimal point has for its
/// numeric prefix the number that the digits write with the point where it
/// stands, or none where it has no digit at all, and that text for its suffix.
pub proof fn lemma_key_of_numeral_then_text(
    whole: Seq<char>,
    fraction: Seq<char>,
    rest: Seq<char>,
)
    requires
        all_digits(whole),
        all_digits(fraction),
        rest.len() > 0 ==> !is_numeric_char(rest[0]),
    ensures
        rank_key(whole + seq!['.'] + fraction + rest) == (RankKeyView {
            numeric_prefix: if whole.len() + fraction.len() > 0 {
                Some(scaled(text_value(whole + fraction), fraction.len()))
            } else {
                None
            },
            alpha_suffix: rest,
        }),
{
    let run = whole + seq!['.'] + fraction;
    let base = run + rest;
    let n = run.len() as int;
    let p = whole.len() as int;
    lemma_numeric_run_is(base, n);
    assert(base.take(n) =~= run);
    assert(base.skip(n) =~= rest);
    lemma_first_index_is(run, '.', p);
    assert(whole_part(run) =~= whole);
    assert(fraction_part(run) =~= fraction);
}

/// Splits a base ticker into its numeric prefix and the text behind it.
pub fn split_numeric_alpha(s: &str) -> (key: RankKey)
    ensures
        key@ == rank_key(s@),
{
    let cs = chars_of(s);
    let mut n: usize = 0;
    while n < cs.len() && (char_is_digit(cs[n]) || cs[n] == '.')
        invariant
            n <= cs.len(),
            forall|i: int| 0 <= i < n ==> is_numeric_char(#[trigger] cs@[i]),
        decreases cs.len() - n,
    {
        n = n + 1;
    }
    proof {
        lemma_numeric_run_is(s@, n as int);
    }
    let numeric_prefix = Decimal::parse_prefix(&cs, n);
    let rest = s.substring_char(n, cs.len());
    RankKey { numeric_prefix, alpha_suffix: String::from_str(rest) }
}

impl RankKey {
    /// Compares two keys: `Less` where `self` ranks before `other`.
    pub fn compare(&self, other: &RankKey) -> (r: Ordering)
        ensures
            r == rank_ordering(self@, other@),
    {
        proof {
            lemma_precedes_asymmetric(self@, other@);
        }
        match (&self.numeric_prefix, &other.numeric_prefix) {
            (Some(x), Some(y)) => {
                match y.compare(x) {
                    Ordering::Equal => compare_text(
                        self.alpha_suffix.as_str(),
                        other.alpha_suffix.as_str(),
                    ),
                    decided => decided,
                }
            },
            (Some(_), None) => Ordering::Less,
            (None, Some(_)) => Ordering::Greater,
            (None, None) => compare_text(self.alpha_suffix.as_str(), other.alpha_suffix.as_str()),
        }
    }

    /// Whether `self` ranks strictly before `other`.
    pub fn ranks_before(&self, other: &RankKey) -> (r: bool)
        ensures
            r == self@.precedes(other@),
    {
        proof {
            lemma_precedes_asymmetric(self@, other@);
        }
        match self.compare(other) {
            Ordering::Less => true,
            _ => false,
        }
    }
}

/// No key ranks before itself, and no two keys rank before each other.
pub proof fn lemma_precedes_asymmetric(a: RankKeyView, b: RankKeyView)
    ensures
        !a.precedes(a),
        !(a.precedes(b) && b.precedes(a)),
{
    lemma_text_lt_irreflexive(a.alpha_suffix);
    if text_lt(a.alpha_suffix, b.alpha_suffix) {
        lemma_text_lt_asymmetric(a.alpha_suffix, b.alpha_suffix);
    }
}

/// Ranking before is transitive.
pub proof fn lemma_precedes_transitive(a: RankKeyView, b: RankKeyView, c: RankKeyView)
    requires
        a.precedes(b),
        b.precedes(c),
    ensures
        a.precedes(c),
{
    lemma_precedes_asymmetric(a, b);
    lemma_precedes_asymmetric(b, c);
    lemma_rank_transitive(a, b, c);
}

/// Turning a comparison round turns its outcome round.
pub proof fn lemma_rank_ordering_antisymmetric(a: RankKeyView, b: RankKeyView)
    ensures
        rank_ordering(a, b) == Ordering::Less <==> rank_ordering(b, a) == Ordering::Greater,
        rank_ordering(a, b) == Ordering::Equal <==> rank_ordering(b, a) == Ordering::Equal,
        rank_ordering(a, a) == Ordering::Equal,
{
    lemma_precedes_asymmetric(a, b);
    lemma_precedes_asymmetric(b, a);
}

/// Ranking no later is transitive, and strict as soon as one step is.
pub proof fn lemma_rank_transitive(a: RankKeyView, b: RankKeyView, c: RankKeyView)
    requires
        !b.precedes(a),
        !c.precedes(b),
    ensures
        !c.precedes(a),
        a.precedes(b) || b.precedes(c) ==> a.precedes(c),
{
    match (a.numeric_prefix, b.numeric_prefix, c.numeric_prefix) {
        (Some(x), Some(y), Some(z)) => {
            if x == z {
                lemma_text_le_transitive(a.alpha_suffix, b.alpha_suffix, c.alpha_suffix);
            }
        },
        (None, None, None) => {
            lemma_text_le_transitive(a.alpha_suffix, b.alpha_suffix, c.alpha_suffix);
        },
        _ => {},
    }
}

/// Two keys tie exactly when they are the same key: both with the same
/// number or both with none, and with the same text.
pub proof fn lemma_ties_means_same(a: RankKeyView, b: RankKeyView)
    ensures
        a.ties(b) <==> a == b,
{
    lemma_text_lt_total(a.alpha_suffix, b.alpha_suffix);
    lemma_text_lt_irreflexive(a.alpha_suffix);
}

} // verus!
