//! Text as sequences of characters: the classes of characters that the
//! ranking tells apart, and the lexicographic order.

use std::cmp::Ordering;
use vstd::prelude::*;
use vstd::std_specs::iter::IteratorSpec;

verus! {

/// Whether `c` is one of the ten ASCII decimal digits.
pub open spec fn is_digit(c: char) -> bool {
    '0' <= c && c <= '9'
}

/// Whether `c` may stand in a numeric prefix: a decimal digit or the decimal point.
pub open spec fn is_numeric_char(c: char) -> bool {
    is_digit(c) || c == '.'
}

/// Every character of `t` is a decimal digit.
pub open spec fn all_digits(t: Seq<char>) -> bool {
    forall|i: int| 0 <= i < t.len() ==> is_digit(#[trigger] t[i])
}

/// Where `c` first stands in `t`, or the length of `t` if it stands nowhere.
pub open spec fn first_index_of(t: Seq<char>, c: char) -> int
    decreases t.len(),
{
    if t.len() == 0 || t[0] == c {
        0
    } else {
        1 + first_index_of(t.drop_first(), c)
    }
}

/// `first_index_of` lies within `t`, `c` stands there unless `t` has no `c`,
/// and `c` stands nowhere before.
pub proof fn lemma_first_index_of(t: Seq<char>, c: char)
    ensures
        0 <= first_index_of(t, c) <= t.len(),
        forall|i: int| 0 <= i < first_index_of(t, c) ==> t[i] != c,
        first_index_of(t, c) < t.len() ==> t[first_index_of(t, c)] == c,
    decreases t.len(),
{
    if t.len() == 0 || t[0] == c {
    } else {
        let rest = t.drop_first();
        lemma_first_index_of(rest, c);
        assert forall|i: int| 0 <= i < first_index_of(t, c) implies t[i] != c by {
            if i > 0 {
                assert(t[i] == rest[i - 1]);
            }
        }
        if first_index_of(t, c) < t.len() {
            assert(t[first_index_of(t, c)] == rest[first_index_of(rest, c)]);
        }
    }
}

/// The place where `c` stands with no `c` before it is the first.
pub proof fn lemma_first_index_is(t: Seq<char>, c: char, p: int)
    requires
        0 <= p <= t.len(),
        forall|i: int| 0 <= i < p ==> t[i] != c,
        p == t.len() || t[p] == c,
    ensures
        first_index_of(t, c) == p,
{
    lemma_first_index_of(t, c);
}

/// Decides whether `c` is an ASCII decimal digit.
pub fn char_is_digit(c: char) -> (r: bool)
    ensures
        r == is_digit(c),
{
    '0' <= c && c <= '9'
}

/// The characters of `s`, one by one.
pub fn chars_of(s: &str) -> (v: Vec<char>)
    ensures
        v@ == s@,
{
    let mut v: Vec<char> = Vec::new();
    for c in it: s.chars()
        invariant
            it.seq() == s@,
            v@ == s@.take(it.index()),
    {
        v.push(c);
    }
    assert(v@ == s@.take(s@.len() as int));
    v
}

/// `a` and `b` agree on their first `k` characters, `b` goes on, and `a`
/// either ends there or goes on with a smaller character.
pub open spec fn precedes_at(a: Seq<char>, b: Seq<char>, k: int) -> bool {
    &&& 0 <= k <= a.len()
    &&& k < b.len()
    &&& a.take(k) =~= b.take(k)
    &&& (k == a.len() || a[k] < b[k])
}

/// Strict lexicographic order on text, character by character.
pub open spec fn text_lt(a: Seq<char>, b: Seq<char>) -> bool {
    exists|k: int| precedes_at(a, b, k)
}

/// Three-way lexicographic comparison of two texts.
pub open spec fn text_ordering(a: Seq<char>, b: Seq<char>) -> Ordering {
    if text_lt(a, b) {
        Ordering::Less
    } else if text_lt(b, a) {
        Ordering::Greater
    } else {
        Ordering::Equal
    }
}

/// No text sorts before itself.
pub proof fn lemma_text_lt_irreflexive(a: Seq<char>)
    ensures
        !text_lt(a, a),
{
}

/// Two texts never sort before each other.
pub proof fn lemma_text_lt_asymmetric(a: Seq<char>, b: Seq<char>)
    requires
        text_lt(a, b),
    ensures
        !text_lt(b, a),
{
    let k = choose|k: int| precedes_at(a, b, k);
    if text_lt(b, a) {
        let j = choose|j: int| precedes_at(b, a, j);
        if k < j {
            assert(a[k] == a.take(j)[k]);
            assert(b[k] == b.take(j)[k]);
        } else if j < k {
            assert(a[j] == a.take(k)[j]);
            assert(b[j] == b.take(k)[j]);
        }
    }
}

/// The lexicographic order is transitive.
pub proof fn lemma_text_lt_transitive(a: Seq<char>, b: Seq<char>, c: Seq<char>)
    requires
        text_lt(a, b),
        text_lt(b, c),
    ensures
        text_lt(a, c),
{
    let k = choose|k: int| precedes_at(a, b, k);
    let j = choose|j: int| precedes_at(b, c, j);
    let m = if k <= j { k } else { j };
    assert(a.take(m) =~= c.take(m)) by {
        assert forall|i: int| 0 <= i < m implies a[i] == c[i] by {
            assert(a[i] == a.take(k)[i]);
            assert(b[i] == b.take(k)[i]);
            assert(b[i] == b.take(j)[i]);
            assert(c[i] == c.take(j)[i]);
        }
    }
    if k < j {
        assert(b[k] == b.take(j)[k]);
        assert(c[k] == c.take(j)[k]);
    } else if j < k {
        assert(a[j] == a.take(k)[j]);
        assert(b[j] == b.take(k)[j]);
    }
    assert(precedes_at(a, c, m));
}

proof fn lemma_text_total_from(a: Seq<char>, b: Seq<char>, k: int)
    requires
        0 <= k <= a.len(),
        k <= b.len(),
        a.take(k) =~= b.take(k),
    ensures
        a == b || text_lt(a, b) || text_lt(b, a),
    decreases a.len() - k,
{
    if k == a.len() && k == b.len() {
        assert(a.take(k) =~= a);
        assert(b.take(k) =~= b);
    } else if k == a.len() {
        assert(precedes_at(a, b, k));
    } else if k == b.len() {
        assert(precedes_at(b, a, k));
    } else if a[k] < b[k] {
        assert(precedes_at(a, b, k));
    } else if b[k] < a[k] {
        assert(precedes_at(b, a, k));
    } else {
        assert(a.take(k + 1) =~= a.take(k).push(a[k]));
        assert(b.take(k + 1) =~= b.take(k).push(b[k]));
        lemma_text_total_from(a, b, k + 1);
    }
}

/// Two different texts are always ordered one way or the other.
pub proof fn lemma_text_lt_total(a: Seq<char>, b: Seq<char>)
    ensures
        a == b || text_lt(a, b) || text_lt(b, a),
{
    lemma_text_total_from(a, b, 0);
}

/// Being at most as large is transitive, and strict as soon as one step is.
pub proof fn lemma_text_le_transitive(a: Seq<char>, b: Seq<char>, c: Seq<char>)
    requires
        !text_lt(b, a),
        !text_lt(c, b),
    ensures
        !text_lt(c, a),
        text_lt(a, b) || text_lt(b, c) ==> text_lt(a, c),
{
    lemma_text_lt_total(a, b);
    lemma_text_lt_total(b, c);
    if a != b && b != c {
        lemma_text_lt_transitive(a, b, c);
        lemma_text_lt_asymmetric(a, c);
    }
}

/// Compares two strings lexicographically, character by character.
pub fn compare_text(a: &str, b: &str) -> (r: Ordering)
    ensures
        r == text_ordering(a@, b@),
{
    let mut rest_a = a.chars();
    let mut rest_b = b.chars();
    let ghost mut k: int = 0;
    loop
        invariant
            0 <= k <= a@.len(),
            k <= b@.len(),
            a@.take(k) =~= b@.take(k),
            rest_a.remaining() == a@.skip(k),
            rest_b.remaining() == b@.skip(k),
            rest_a.obeys_prophetic_iter_laws(),
            rest_b.obeys_prophetic_iter_laws(),
        decreases a@.len() - k,
    {
        let next_a = rest_a.next();
        let next_b = rest_b.next();
        match (next_a, next_b) {
            (None, None) => {
                proof {
                    assert(a@.take(k) =~= a@);
                    assert(b@.take(k) =~= b@);
                    lemma_text_lt_irreflexive(a@);
                }
                return Ordering::Equal;
            },
            (None, Some(_)) => {
                proof {
                    assert(precedes_at(a@, b@, k));
                    lemma_text_lt_asymmetric(a@, b@);
                }
                return Ordering::Less;
            },
            (Some(_), None) => {
                proof {
                    assert(precedes_at(b@, a@, k));
                    lemma_text_lt_asymmetric(b@, a@);
                }
                return Ordering::Greater;
            },
            (Some(x), Some(y)) => {
                if x < y {
                    proof {
                        assert(precedes_at(a@, b@, k));
                        lemma_text_lt_asymmetric(a@, b@);
                    }
                    return Ordering::Less;
                }
                if y < x {
                    proof {
                        assert(precedes_at(b@, a@, k));
                        lemma_text_lt_asymmetric(b@, a@);
                    }
                    return Ordering::Greater;
                }
                proof {
                    assert(a@.take(k + 1) =~= a@.take(k).push(a@[k]));
                    assert(b@.take(k + 1) =~= b@.take(k).push(b@[k]));
                    assert(a@.skip(k).drop_first() =~= a@.skip(k + 1));
                    assert(b@.skip(k).drop_first() =~= b@.skip(k + 1));
                    k = k + 1;
                }
            },
        }
    }
}

} // verus!
