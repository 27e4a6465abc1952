//! Decimal numerals and the numbers they denote.
//!
//! A numeric prefix may be longer than any machine number, so a numeral is
//! kept as its digits and two numerals are compared digit by digit. The
//! contracts speak of the real number that a numeral denotes.

use std::cmp::Ordering;
use vstd::arithmetic::power::{lemma_pow0, lemma_pow_adds, lemma_pow_positive, pow};
use vstd::prelude::*;
use crate::text::{
    all_digits, char_is_digit, chars_of, first_index_of, is_digit, lemma_first_index_is,
    lemma_first_index_of,
};

verus! {

/// The number `mantissa / 10^scale`: the digits of `mantissa` with the
/// decimal point set `scale` places from their end.
pub open spec fn scaled(mantissa: nat, scale: nat) -> real {
    mantissa as real / pow(10, scale) as real
}

/// Three-way comparison of two numbers.
pub open spec fn number_ordering(a: real, b: real) -> Ordering {
    if a < b {
        Ordering::Less
    } else if b < a {
        Ordering::Greater
    } else {
        Ordering::Equal
    }
}

/// With no place behind the decimal point, the number is the mantissa.
pub proof fn lemma_scaled_whole(mantissa: nat)
    ensures
        scaled(mantissa, 0) == mantissa as real,
{
    lemma_pow0(10);
    let m = mantissa as real;
    assert(m / 1real == m) by (nonlinear_arith);
}

/// Two scaled numbers compare as their mantissas do once each is multiplied
/// by the other's power of ten.
pub proof fn lemma_scaled_order(ma: nat, sa: nat, mb: nat, sb: nat)
    ensures
        scaled(ma, sa) < scaled(mb, sb) <==> ma * pow(10, sb) < mb * pow(10, sa),
        scaled(ma, sa) == scaled(mb, sb) <==> ma * pow(10, sb) == mb * pow(10, sa),
{
    lemma_pow_positive(10, sa);
    lemma_pow_positive(10, sb);
    let x = ma as int;
    let y = mb as int;
    let p = pow(10, sa);
    let q = pow(10, sb);
    let xr = x as real;
    let yr = y as real;
    let pr = p as real;
    let qr = q as real;
    assert((xr / pr < yr / qr) == (xr * qr < yr * pr)) by (nonlinear_arith)
        requires
            pr > 0real,
            qr > 0real,
    ;
    assert((xr / pr == yr / qr) == (xr * qr == yr * pr)) by (nonlinear_arith)
        requires
            pr > 0real,
            qr > 0real,
    ;
    assert((x * q) as real == xr * qr) by (nonlinear_arith)
        requires
            xr == x as real,
            qr == q as real,
    ;
    assert((y * p) as real == yr * pr) by (nonlinear_arith)
        requires
            yr == y as real,
            pr == p as real,
    ;
    assert((x * q < y * p) == (((x * q) as real) < ((y * p) as real)));
    assert((x * q == y * p) == (((x * q) as real) == ((y * p) as real)));
}

/// The digit that the character `c` writes.
pub open spec fn digit_of(c: char) -> nat {
    (c as int - '0' as int) as nat
}

/// The natural number that the digit characters of `t` write, most significant first.
pub open spec fn text_value(t: Seq<char>) -> nat
    decreases t.len(),
{
    if t.len() == 0 {
        0
    } else {
        10 * text_value(t.drop_last()) + digit_of(t.last())
    }
}

/// Where the first decimal point of `t` stands, or the length of `t` if it has none.
pub open spec fn point_index(t: Seq<char>) -> int {
    first_index_of(t, '.')
}

/// What `t` holds before its first decimal point.
pub open spec fn whole_part(t: Seq<char>) -> Seq<char> {
    t.take(point_index(t))
}

/// What `t` holds behind its first decimal point; nothing if it has none.
pub open spec fn fraction_part(t: Seq<char>) -> Seq<char> {
    if point_index(t) < t.len() {
        t.skip(point_index(t) + 1)
    } else {
        Seq::empty()
    }
}

/// `t` is a plain decimal numeral: digits with at most one decimal point among
/// them, and at least one digit.
pub open spec fn is_numeral(t: Seq<char>) -> bool {
    &&& all_digits(whole_part(t))
    &&& all_digits(fraction_part(t))
    &&& whole_part(t).len() + fraction_part(t).len() > 0
}

/// The number that the numeral `t` denotes: what its digits write, with the
/// decimal point as many places from their end as digits stand behind it.
pub open spec fn numeral_value(t: Seq<char>) -> real {
    scaled(text_value(whole_part(t) + fraction_part(t)), fraction_part(t).len())
}

/// A decimal numeral, held digit by digit so that it is exact at any length.
#[derive(Debug)]
pub struct Decimal {
    digits: Vec<u8>,
    scale: usize,
}

impl View for Decimal {
    type V = real;

    /// The number that the numeral denotes.
    closed spec fn view(&self) -> real {
        scaled(digits_value(self.digits@), self.scale as nat)
    }
}

impl Decimal {
    #[verifier::type_invariant]
    spec fn well_formed(&self) -> bool {
        &&& all_decimal(self.digits@)
        &&& self.scale <= self.digits.len()
    }

    /// Reads the first `n` characters of `cs` as a decimal numeral.
    pub(crate) fn parse_prefix(cs: &Vec<char>, n: usize) -> (r: Option<Decimal>)
        requires
            n <= cs.len(),
        ensures
            r is Some <==> is_numeral(cs@.take(n as int)),
            r matches Some(d) ==> d@ == numeral_value(cs@.take(n as int)),
    {
        let ghost t = cs@.take(n as int);
        let mut digits: Vec<u8> = Vec::new();
        let mut i: usize = 0;
        while i < n && char_is_digit(cs[i])
            invariant
                i <= n <= cs.len(),
                t == cs@.take(n as int),
                all_digits(t.take(i as int)),
                digits.len() == i,
                all_decimal(digits@),
                digits_value(digits@) == text_value(t.take(i as int)),
            decreases n - i,
        {
            let d = digit_value(cs[i]);
            proof {
                lemma_value_push(digits@, d);
                lemma_text_value_push(t.take(i as int), t[i as int]);
                assert(t.take(i + 1) =~= t.take(i as int).push(t[i as int]));
            }
            digits.push(d);
            i = i + 1;
        }
        proof {
            lemma_first_index_of(t, '.');
        }
        if i == n {
            proof {
                assert(t.take(n as int) =~= t);
                lemma_first_index_is(t, '.', n as int);
                assert(whole_part(t) + fraction_part(t) =~= t);
            }
            if n == 0 {
                return None;
            }
            return Some(Decimal { digits, scale: 0 });
        }
        if cs[i] != '.' {
            proof {
                let p = point_index(t);
                if p <= i {
                    assert(is_digit(t.take(i as int)[p]) || p == i);
                }
                assert(whole_part(t)[i as int] == t[i as int]);
            }
            return None;
        }
        let point = i;
        let ghost whole = t.take(point as int);
        let ghost fraction = t.skip(point + 1);
        proof {
            assert forall|k: int| 0 <= k < point implies t[k] != '.' by {
                assert(is_digit(t.take(point as int)[k]));
            }
            lemma_first_index_is(t, '.', point as int);
            assert(whole + fraction.take(0) =~= t.take(point as int));
        }
        let mut j: usize = point + 1;
        while j < n && char_is_digit(cs[j])
            invariant
                point < j <= n <= cs.len(),
                t == cs@.take(n as int),
                whole == whole_part(t),
                fraction == fraction_part(t),
                fraction == t.skip(point + 1),
                all_digits(whole),
                all_digits(fraction.take(j - point - 1)),
                digits.len() == j - 1,
                all_decimal(digits@),
                digits_value(digits@) == text_value(whole + fraction.take(j - point - 1)),
            decreases n - j,
        {
            let d = digit_value(cs[j]);
            proof {
                let k = j - point - 1;
                assert(fraction[k] == t[j as int]);
                lemma_value_push(digits@, d);
                lemma_text_value_push(whole + fraction.take(k), fraction[k]);
                assert(whole + fraction.take(k + 1) =~= (whole + fraction.take(k)).push(
                    fraction[k],
                ));
                assert(fraction.take(k + 1) =~= fraction.take(k).push(fraction[k]));
            }
            digits.push(d);
            j = j + 1;
        }
        if j < n {
            proof {
                assert(fraction[j - point - 1] == t[j as int]);
            }
            return None;
        }
        proof {
            assert(fraction.take(n - point - 1) =~= fraction);
        }
        if digits.len() == 0 {
            return None;
        }
        Some(Decimal { digits, scale: n - point - 1 })
    }

    /// Reads `text` as a decimal numeral: digits with at most one decimal point
    /// among them. Any other text, the empty one and a lone point too, is no numeral.
    pub fn parse(text: &str) -> (r: Option<Decimal>)
        ensures
            r is Some <==> is_numeral(text@),
            r matches Some(d) ==> d@ == numeral_value(text@),
    {
        let cs = chars_of(text);
        assert(cs@.take(cs.len() as int) =~= text@);
        Decimal::parse_prefix(&cs, cs.len())
    }

    /// Compares the two numbers, exactly.
    pub fn compare(&self, other: &Decimal) -> (r: Ordering)
        ensures
            r == number_ordering(self@, other@),
    {
        let (x, y) = self.first_difference(other);
        if x < y {
            Ordering::Less
        } else if x > y {
            Ordering::Greater
        } else {
            Ordering::Equal
        }
    }

    /// The digits of `self` and of `other` at the most significant decimal
    /// place where the two numbers differ, or a pair of zeros where they do not.
    fn first_difference(&self, other: &Decimal) -> (r: (u8, u8))
        ensures
            r.0 < r.1 <==> self@ < other@,
            r.0 > r.1 <==> self@ > other@,
            r.0 == r.1 <==> self@ == other@,
    {
        proof {
            use_type_invariant(self);
            use_type_invariant(other);
        }
        let whole_a = self.digits.len() - self.scale;
        let whole_b = other.digits.len() - other.scale;
        let whole = if whole_a >= whole_b { whole_a } else { whole_b };
        let frac = if self.scale >= other.scale { self.scale } else { other.scale };
        let lead_a = whole - whole_a;
        let lead_b = whole - whole_b;
        let ghost width = whole + frac;
        let ghost xs = aligned(self.digits@, lead_a as int, width);
        let ghost ys = aligned(other.digits@, lead_b as int, width);
        proof {
            lemma_aligned_value(self.digits@, lead_a as int, width);
            lemma_aligned_value(other.digits@, lead_b as int, width);
            lemma_rescale(
                digits_value(self.digits@),
                self.scale as nat,
                digits_value(other.digits@),
                other.scale as nat,
                frac as nat,
            );
            lemma_scaled_order(
                digits_value(self.digits@),
                self.scale as nat,
                digits_value(other.digits@),
                other.scale as nat,
            );
            lemma_scaled_order(
                digits_value(other.digits@),
                other.scale as nat,
                digits_value(self.digits@),
                self.scale as nat,
            );
        }
        let mut pos: usize = 0;
        while pos < whole
            invariant
                pos <= whole,
                whole + frac == width,
                xs.len() == width,
                ys.len() == width,
                xs == aligned(self.digits@, lead_a as int, width),
                ys == aligned(other.digits@, lead_b as int, width),
                lead_a + whole_a == whole,
                lead_b + whole_b == whole,
                whole_a + self.scale == self.digits.len(),
                whole_b + other.scale == other.digits.len(),
                all_decimal(xs),
                all_decimal(ys),
                xs.take(pos as int) =~= ys.take(pos as int),
                digits_value(xs) < digits_value(ys) <==> self@ < other@,
                digits_value(xs) > digits_value(ys) <==> self@ > other@,
                digits_value(xs) == digits_value(ys) <==> self@ == other@,
            decreases whole - pos,
        {
            let x: u8 = if pos < lead_a { 0 } else { self.digits[pos - lead_a] };
            let y: u8 = if pos < lead_b { 0 } else { other.digits[pos - lead_b] };
            assert(x == xs[pos as int]);
            assert(y == ys[pos as int]);
            if x != y {
                proof {
                    if x < y {
                        lemma_first_difference_decides(xs, ys, pos as int);
                    } else {
                        lemma_first_difference_decides(ys, xs, pos as int);
                    }
                }
                return (x, y);
            }
            assert(xs.take(pos + 1) =~= xs.take(pos as int).push(x));
            assert(ys.take(pos + 1) =~= ys.take(pos as int).push(y));
            pos = pos + 1;
        }
        let mut place: usize = 0;
        while place < frac
            invariant
                place <= frac,
                whole + frac == width,
                xs.len() == width,
                ys.len() == width,
                xs == aligned(self.digits@, lead_a as int, width),
                ys == aligned(other.digits@, lead_b as int, width),
                lead_a + whole_a == whole,
                lead_b + whole_b == whole,
                whole_a + self.scale == self.digits.len(),
                whole_b + other.scale == other.digits.len(),
                self.scale <= frac,
                other.scale <= frac,
                all_decimal(xs),
                all_decimal(ys),
                xs.take(whole + place) =~= ys.take(whole + place),
                digits_value(xs) < digits_value(ys) <==> self@ < other@,
                digits_value(xs) > digits_value(ys) <==> self@ > other@,
                digits_value(xs) == digits_value(ys) <==> self@ == other@,
            decreases frac - place,
        {
            let x: u8 = if place < self.scale { self.digits[whole_a + place] } else { 0 };
            let y: u8 = if place < other.scale { other.digits[whole_b + place] } else { 0 };
            assert(x == xs[whole + place]);
            assert(y == ys[whole + place]);
            if x != y {
                proof {
                    if x < y {
                        lemma_first_difference_decides(xs, ys, whole + place);
                    } else {
                        lemma_first_difference_decides(ys, xs, whole + place);
                    }
                }
                return (x, y);
            }
            assert(xs.take(whole + place + 1) =~= xs.take(whole + place).push(x));
            assert(ys.take(whole + place + 1) =~= ys.take(whole + place).push(y));
            place = place + 1;
        }
        proof {
            assert(xs.take(width) =~= xs);
            assert(ys.take(width) =~= ys);
        }
        (0, 0)
    }
}

proof fn lemma_text_value_push(t: Seq<char>, c: char)
    ensures
        text_value(t.push(c)) == 10 * text_value(t) + digit_of(c),
{
    assert(t.push(c).drop_last() =~= t);
}

/// The digit that the digit character `c` writes.
fn digit_value(c: char) -> (r: u8)
    requires
        is_digit(c),
    ensures
        r == digit_of(c),
        r < 10,
{
    let code: u32 = c as u32;
    (code - 48) as u8
}

/// The natural number that the decimal digits `ds` write, most significant first.
spec fn digits_value(ds: Seq<u8>) -> nat
    decreases ds.len(),
{
    if ds.len() == 0 {
        0
    } else {
        10 * digits_value(ds.drop_last()) + ds.last() as nat
    }
}

/// Every element of `ds` is a decimal digit, 0 to 9.
spec fn all_decimal(ds: Seq<u8>) -> bool {
    forall|i: int| 0 <= i < ds.len() ==> #[trigger] ds[i] < 10
}

spec fn zeros(n: nat) -> Seq<u8> {
    Seq::new(n, |i: int| 0u8)
}

proof fn lemma_value_push(ds: Seq<u8>, d: u8)
    ensures
        digits_value(ds.push(d)) == 10 * digits_value(ds) + d,
{
    assert(ds.push(d).drop_last() =~= ds);
}

proof fn lemma_value_concat(a: Seq<u8>, b: Seq<u8>)
    ensures
        digits_value(a + b) == digits_value(a) * pow(10, b.len()) + digits_value(b),
    decreases b.len(),
{
    if b.len() == 0 {
        assert(a + b =~= a);
        lemma_pow0(10);
    } else {
        let front = b.drop_last();
        assert((a + b).drop_last() =~= a + front);
        lemma_value_concat(a, front);
        lemma_pow_adds(10, front.len(), 1);
        vstd::arithmetic::power::lemma_pow1(10);
        assert(pow(10, b.len()) == pow(10, front.len()) * 10);
        assert(10 * (digits_value(a) * pow(10, front.len())) == digits_value(a) * (pow(
            10,
            front.len(),
        ) * 10)) by (nonlinear_arith);
    }
}

proof fn lemma_value_zeros(n: nat)
    ensures
        digits_value(zeros(n)) == 0,
    decreases n,
{
    if n > 0 {
        assert(zeros(n).drop_last() =~= zeros((n - 1) as nat));
        lemma_value_zeros((n - 1) as nat);
    }
}

proof fn lemma_value_bound(ds: Seq<u8>)
    requires
        all_decimal(ds),
    ensures
        digits_value(ds) < pow(10, ds.len()),
    decreases ds.len(),
{
    if ds.len() == 0 {
        lemma_pow0(10);
    } else {
        let front = ds.drop_last();
        lemma_value_bound(front);
        lemma_pow_adds(10, front.len(), 1);
        vstd::arithmetic::power::lemma_pow1(10);
        assert(pow(10, ds.len()) == pow(10, front.len()) * 10);
    }
}

/// The value of `ds` written with `lead` zeros before it and `trail` zeros after it.
proof fn lemma_value_padded(ds: Seq<u8>, lead: nat, trail: nat)
    ensures
        digits_value(zeros(lead) + ds + zeros(trail)) == digits_value(ds) * pow(10, trail),
{
    lemma_value_concat(zeros(lead) + ds, zeros(trail));
    lemma_value_concat(zeros(lead), ds);
    lemma_value_zeros(lead);
    lemma_value_zeros(trail);
    assert(0 * pow(10, ds.len()) == 0) by (nonlinear_arith);
}

/// Of two digit strings of one length, the one with the smaller digit at the
/// first place where they differ writes the smaller number.
proof fn lemma_first_difference_decides(x: Seq<u8>, y: Seq<u8>, k: int)
    requires
        x.len() == y.len(),
        all_decimal(x),
        all_decimal(y),
        0 <= k < x.len(),
        x.take(k) =~= y.take(k),
        x[k] < y[k],
    ensures
        digits_value(x) < digits_value(y),
{
    let n = x.len();
    let rest = (n - k - 1) as nat;
    let xt = x.skip(k + 1);
    let yt = y.skip(k + 1);
    assert(x =~= x.take(k).push(x[k]) + xt);
    assert(y =~= y.take(k).push(y[k]) + yt);
    lemma_value_concat(x.take(k).push(x[k]), xt);
    lemma_value_concat(y.take(k).push(y[k]), yt);
    lemma_value_push(x.take(k), x[k]);
    lemma_value_push(y.take(k), y[k]);
    assert(all_decimal(xt)) by {
        assert forall|i: int| 0 <= i < xt.len() implies #[trigger] xt[i] < 10 by {
            assert(xt[i] == x[k + 1 + i]);
        }
    }
    lemma_value_bound(xt);
    lemma_pow_positive(10, rest);
    let p = pow(10, rest);
    let hx = digits_value(x.take(k).push(x[k])) as int;
    let hy = digits_value(y.take(k).push(y[k])) as int;
    assert(hx + 1 <= hy);
    assert(hx * p + p <= hy * p) by (nonlinear_arith)
        requires
            hx + 1 <= hy,
            0 < p,
    ;
}

/// Comparing two numbers is the same as comparing them once both are scaled
/// to `frac` decimal places.
proof fn lemma_rescale(ma: nat, sa: nat, mb: nat, sb: nat, frac: nat)
    requires
        sa <= frac,
        sb <= frac,
    ensures
        ma * pow(10, (frac - sa) as nat) < mb * pow(10, (frac - sb) as nat) <==> ma * pow(10, sb)
            < mb * pow(10, sa),
        ma * pow(10, (frac - sa) as nat) == mb * pow(10, (frac - sb) as nat) <==> ma * pow(10, sb)
            == mb * pow(10, sa),
{
    let pa = pow(10, sa);
    let pb = pow(10, sb);
    let qa = pow(10, (frac - sa) as nat);
    let qb = pow(10, (frac - sb) as nat);
    let f = pow(10, frac);
    lemma_pow_positive(10, sa);
    lemma_pow_positive(10, sb);
    lemma_pow_positive(10, (frac - sa) as nat);
    lemma_pow_positive(10, (frac - sb) as nat);
    lemma_pow_positive(10, frac);
    lemma_pow_adds(10, (frac - sa) as nat, sa);
    lemma_pow_adds(10, (frac - sb) as nat, sb);
    assert(qa * pa == f);
    assert(qb * pb == f);
    let u = ma * qa;
    let v = mb * qb;
    let c = pa * pb;
    assert(0 < c) by (nonlinear_arith)
        requires
            0 < pa,
            0 < pb,
            c == pa * pb,
    ;
    assert(u * c == (ma * pb) * f) by (nonlinear_arith)
        requires
            u == ma * qa,
            c == pa * pb,
            qa * pa == f,
    ;
    assert(v * c == (mb * pa) * f) by (nonlinear_arith)
        requires
            v == mb * qb,
            c == pa * pb,
            qb * pb == f,
    ;
    let l = ma * pb;
    let r = mb * pa;
    assert((u < v) == (u * c < v * c)) by (nonlinear_arith)
        requires
            0 < c,
    ;
    assert((u == v) == (u * c == v * c)) by (nonlinear_arith)
        requires
            0 < c,
    ;
    assert((l < r) == (l * f < r * f)) by (nonlinear_arith)
        requires
            0 < f,
    ;
    assert((l == r) == (l * f == r * f)) by (nonlinear_arith)
        requires
            0 < f,
    ;
}

/// The digits `ds` set into a row of `width` places, behind `lead` zeros and
/// followed by zeros to the end.
spec fn aligned(ds: Seq<u8>, lead: int, width: int) -> Seq<u8> {
    Seq::new(
        width as nat,
        |j: int|
            if lead <= j < lead + ds.len() {
                ds[j - lead]
            } else {
                0u8
            },
    )
}

proof fn lemma_aligned_value(ds: Seq<u8>, lead: int, width: int)
    requires
        0 <= lead,
        lead + ds.len() <= width,
        all_decimal(ds),
    ensures
        all_decimal(aligned(ds, lead, width)),
        digits_value(aligned(ds, lead, width)) == digits_value(ds) * pow(
            10,
            (width - lead - ds.len()) as nat,
        ),
{
    let trail = (width - lead - ds.len()) as nat;
    assert(aligned(ds, lead, width) =~= zeros(lead as nat) + ds + zeros(trail));
    lemma_value_padded(ds, lead as nat, trail);
}

} // verus!
