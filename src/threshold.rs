use vstd::prelude::*;

use crate::measure::Measurement;
use vstd::arithmetic::div_mod::{lemma_fundamental_div_mod, lemma_mod_bound};

verus! {

/// Ten to the power `n`.
pub open spec fn pow10(n: nat) -> int
    decreases n,
{
    if n == 0 {
        1
    } else {
        10 * pow10((n - 1) as nat)
    }
}

/// The number written by a run of decimal digits, most significant first.
pub open spec fn digits_value(s: Seq<u8>) -> int
    decreases s.len(),
{
    if s.len() == 0 {
        0
    } else {
        digits_value(s.drop_last()) * 10 + s.last()
    }
}

/// Every entry is a decimal digit.
pub open spec fn are_digits(s: Seq<u8>) -> bool {
    forall|i: int| 0 <= i < s.len() ==> s[i] < 10
}

/// The decimal `whole.frac` scaled by `10^k`, `k` the number of fraction
/// digits: `whole * 10^k + frac`.
pub open spec fn scaled_value(whole: Seq<u8>, frac: Seq<u8>) -> int {
    digits_value(whole) * pow10(frac.len()) + digits_value(frac)
}

/// The ratio of `m` is strictly greater than the decimal `whole.frac`,
/// negated when `negative`: `bits / pixels > ±(whole * 10^k + frac) / 10^k`.
pub open spec fn above_spec(m: Measurement, negative: bool, whole: Seq<u8>, frac: Seq<u8>) -> bool {
    m.bits_spec() * pow10(frac.len()) > signed_value(negative, whole, frac) * m.pixels_spec()
}

/// The decimal scaled by `10^k`, with its sign.
pub open spec fn signed_value(negative: bool, whole: Seq<u8>, frac: Seq<u8>) -> int {
    if negative {
        -scaled_value(whole, frac)
    } else {
        scaled_value(whole, frac)
    }
}

proof fn lemma_pow10_positive(n: nat)
    ensures
        pow10(n) > 0,
    decreases n,
{
    if n > 0 {
        lemma_pow10_positive((n - 1) as nat);
    }
}

proof fn lemma_digits_bounded(s: Seq<u8>)
    requires
        are_digits(s),
    ensures
        0 <= digits_value(s) < pow10(s.len()),
    decreases s.len(),
{
    if s.len() > 0 {
        lemma_digits_bounded(s.drop_last());
    }
}

proof fn lemma_digits_prefix(s: Seq<u8>, j: int)
    requires
        are_digits(s),
        0 <= j <= s.len(),
    ensures
        digits_value(s.subrange(0, j)) <= digits_value(s),
    decreases s.len(),
{
    if j < s.len() {
        lemma_digits_prefix(s.drop_last(), j);
        assert(s.drop_last().subrange(0, j) =~= s.subrange(0, j));
        lemma_digits_bounded(s.drop_last());
    } else {
        assert(s.subrange(0, j) =~= s);
    }
}

proof fn lemma_digits_step(s: Seq<u8>, i: int)
    requires
        0 <= i < s.len(),
    ensures
        digits_value(s.subrange(0, i + 1)) == digits_value(s.subrange(0, i)) * 10 + s[i],
{
    assert(s.subrange(0, i + 1).drop_last() =~= s.subrange(0, i));
}

/// Whether the ratio of `m` is strictly greater than the decimal whose
/// integer digits are `whole` and whose fraction digits are `frac`.
///
/// The ratio's integer part is compared first, then its decimal expansion
/// digit by digit, so the comparison is exact for any number of digits.
pub fn ratio_above(m: &Measurement, whole: &Vec<u8>, frac: &Vec<u8>) -> (r: bool)
    requires
        m.wf(),
        are_digits(whole@),
        are_digits(frac@),
    ensures
        r == above_spec(*m, false, whole@, frac@),
{
    let x = m.bits();
    let p64 = m.pixels();
    let p = p64 as u128;
    let ghost xi = x as int;
    let ghost pi = p as int;
    let ghost k = frac@.len();
    let ghost f = digits_value(frac@);
    proof {
        assert(pi > 0) by (nonlinear_arith)
            requires
                pi == m.width * m.height,
                m.width > 0,
                m.height > 0,
        ;
        lemma_pow10_positive(k);
        lemma_digits_bounded(frac@);
    }
    let q = x / p;
    let r0 = x % p;
    proof {
        lemma_fundamental_div_mod(xi, pi);
        lemma_mod_bound(xi, pi);
    }
    // integer part
    let mut v: u128 = 0;
    let mut j: usize = 0;
    while j < whole.len()
        invariant
            are_digits(whole@),
            0 <= j <= whole@.len(),
            v == digits_value(whole@.subrange(0, j as int)),
            v <= q,
            q <= x,
            x <= 8 * 0xffff_ffff_ffff_ffffu128,
            xi == x,
            xi == m.bits_spec(),
            pi == m.pixels_spec(),
            k == frac@.len(),
            f == digits_value(frac@),
            pow10(k) > 0,
            0 <= f < pow10(k),
            pi == p,
            pi > 0,
            xi == q * pi + r0,
            0 <= r0 < pi,
        decreases whole@.len() - j,
    {
        proof {
            lemma_digits_step(whole@, j as int);
        }
        let nv = v * 10 + whole[j] as u128;
        if nv > q {
            proof {
                lemma_digits_prefix(whole@, j + 1);
                let w = digits_value(whole@);
                assert(w >= q + 1);
                assert((w * pow10(k) + f) * pi >= (q + 1) * pow10(k) * pi) by (nonlinear_arith)
                    requires
                        w >= q + 1,
                        pow10(k) > 0,
                        f >= 0,
                        pi > 0,
                ;
                assert((q + 1) * pow10(k) * pi > xi * pow10(k)) by (nonlinear_arith)
                    requires
                        xi == q * pi + r0,
                        r0 < pi,
                        pow10(k) > 0,
                ;
                assert(m.bits_spec() == xi);
                assert(m.pixels_spec() == pi);
                assert(!above_spec(*m, false, whole@, frac@));
            }
            return false;
        }
        v = nv;
        j = j + 1;
    }
    proof {
        assert(whole@.subrange(0, whole@.len() as int) =~= whole@);
    }
    if v < q {
        proof {
            let w = v as int;
            assert(xi * pow10(k) >= (w + 1) * pi * pow10(k)) by (nonlinear_arith)
                requires
                    xi == q * pi + r0,
                    r0 >= 0,
                    w + 1 <= q,
                    pi > 0,
                    pow10(k) > 0,
            ;
            assert((w + 1) * pi * pow10(k) > (w * pow10(k) + f) * pi) by (nonlinear_arith)
                requires
                    f < pow10(k),
                    pi > 0,
            ;
        }
        return true;
    }
    // equal integer parts: compare the fraction digits
    let mut rem: u128 = r0;
    let mut above = false;
    let mut below = false;
    let mut i: usize = 0;
    let ghost mut s: int = r0 as int;
    while i < frac.len()
        invariant
            are_digits(frac@),
            0 <= i <= frac@.len(),
            k == frac@.len(),
            pi > 0,
            pi <= 0xffff_ffff_ffff_ffffu128,
            p == pi,
            q == v,
            xi == x,
            s == xi * pow10(i as nat) - (q * pow10(i as nat) + digits_value(
                frac@.subrange(0, i as int),
            )) * pi,
            !(above && below),
            above ==> s >= pi,
            below ==> s < 0,
            !above && !below ==> s == rem && rem < pi,
            rem < pi,
        decreases frac@.len() - i,
    {
        let d = frac[i] as u128;
        proof {
            lemma_digits_step(frac@, i as int);
            let fi = digits_value(frac@.subrange(0, i as int));
            let pw = pow10(i as nat);
            assert(pow10((i + 1) as nat) == 10 * pw);
            assert(xi * (10 * pw) - (q * (10 * pw) + (fi * 10 + d)) * pi == 10 * (xi * pw - (q
                * pw + fi) * pi) - d * pi) by (nonlinear_arith);
        }
        let ghost ns = 10 * s - d * pi;
        if !above && !below {
            let t = rem * 10;
            let e = t / p;
            let nrem = t % p;
            proof {
                lemma_fundamental_div_mod(t as int, pi);
                lemma_mod_bound(t as int, pi);
                assert(e < 10) by (nonlinear_arith)
                    requires
                        t == e * pi + nrem,
                        nrem >= 0,
                        t < 10 * pi,
                        pi > 0,
                ;
            }
            if e > d {
                above = true;
                assert(ns >= pi) by (nonlinear_arith)
                    requires
                        ns == 10 * s - d * pi,
                        10 * s == e * pi + nrem,
                        e >= d + 1,
                        nrem >= 0,
                        pi > 0,
                ;
            } else if e < d {
                below = true;
                assert(ns < 0) by (nonlinear_arith)
                    requires
                        ns == 10 * s - d * pi,
                        10 * s == e * pi + nrem,
                        e + 1 <= d,
                        nrem < pi,
                        pi > 0,
                ;
            } else {
                assert(ns == nrem) by (nonlinear_arith)
                    requires
                        ns == 10 * s - d * pi,
                        10 * s == e * pi + nrem,
                        e == d,
                ;
                rem = nrem;
            }
        } else if above {
            assert(ns >= pi) by (nonlinear_arith)
                requires
                    ns == 10 * s - d * pi,
                    s >= pi,
                    d <= 9,
                    pi > 0,
            ;
        } else {
            assert(ns < 0) by (nonlinear_arith)
                requires
                    ns == 10 * s - d * pi,
                    s < 0,
                    d >= 0,
                    pi > 0,
            ;
        }
        proof {
            s = ns;
        }
        i = i + 1;
    }
    proof {
        assert(frac@.subrange(0, k as int) =~= frac@);
        assert(xi * pow10(k) - (q * pow10(k) + f) * pi == s);
        assert((q * pow10(k) + f) * pi == (v * pow10(k) + f) * pi);
        assert(m.bits_spec() == xi);
    }
    above || (!below && rem > 0)
}

/// A decimal digit character.
pub open spec fn is_digit_char(c: char) -> bool {
    '0' <= c && c <= '9'
}

/// A non-empty run of decimal digit characters.
pub open spec fn is_digit_run(s: Seq<char>) -> bool {
    s.len() > 0 && forall|i: int| 0 <= i < s.len() ==> is_digit_char(#[trigger] s[i])
}

/// The digits that a run of digit characters stands for.
pub open spec fn digit_values(s: Seq<char>) -> Seq<u8> {
    Seq::new(s.len(), |i: int| (s[i] as u32 - '0' as u32) as u8)
}

/// `s` is a run of digits, a point at `d`, and another run of digits.
pub open spec fn splits_at_point(s: Seq<char>, d: int) -> bool {
    &&& 0 <= d < s.len()
    &&& s[d] == '.'
    &&& is_digit_run(s.subrange(0, d))
    &&& is_digit_run(s.subrange(d + 1, s.len() as int))
}

/// `s` is an unsigned decimal: digits, optionally followed by a point and
/// more digits.
pub open spec fn is_unsigned_decimal(s: Seq<char>) -> bool {
    is_digit_run(s) || exists|d: int| splits_at_point(s, d)
}

/// Reads the digit characters of `s` from `start` up to the first other
/// character; returns their values and where they stop.
fn read_digits(s: &str, start: usize) -> (r: (Vec<u8>, usize))
    requires
        start <= s@.len(),
    ensures
        start <= r.1 <= s@.len(),
        forall|i: int| start <= i < r.1 ==> is_digit_char(#[trigger] s@[i]),
        r.1 < s@.len() ==> !is_digit_char(s@[r.1 as int]),
        r.0@ == digit_values(s@.subrange(start as int, r.1 as int)),
        are_digits(r.0@),
{
    let n = s.unicode_len();
    let mut out: Vec<u8> = Vec::new();
    let mut i = start;
    let mut more = i < n;
    while more
        invariant
            n == s@.len(),
            start <= i <= n,
            more ==> i < n,
            !more ==> (i == n || !is_digit_char(s@[i as int])),
            forall|k: int| start <= k < i ==> is_digit_char(#[trigger] s@[k]),
            out@ == digit_values(s@.subrange(start as int, i as int)),
            are_digits(out@),
        decreases n - i + (if more { 1int } else { 0int }),
    {
        let c = s.get_char(i);
        if '0' <= c && c <= '9' {
            out.push((c as u32 - '0' as u32) as u8);
            i = i + 1;
            more = i < n;
            assert(out@ =~= digit_values(s@.subrange(start as int, i as int)));
        } else {
            more = false;
        }
    }
    (out, i)
}

/// Reads an unsigned decimal: its integer digits and its fraction digits
/// (none when there is no point). Any other text gives `None`.
pub fn parse_unsigned(s: &str) -> (r: Option<(Vec<u8>, Vec<u8>)>)
    ensures
        r is Some <==> is_unsigned_decimal(s@),
        is_digit_run(s@) ==> (r matches Some((w, f)) && w@ == digit_values(s@) && f@.len() == 0),
        forall|d: int|
            splits_at_point(s@, d) ==> (r matches Some((w, f)) && w@ == digit_values(
                s@.subrange(0, d),
            ) && f@ == digit_values(s@.subrange(d + 1, s@.len() as int))),
        r matches Some((w, f)) ==> are_digits(w@) && are_digits(f@),
{
    let n = s.unicode_len();
    let (whole, d) = read_digits(s, 0);
    if d == 0 {
        proof {
            assert(!is_digit_run(s@)) by {
                if s@.len() > 0 {
                    assert(!is_digit_char(s@[0]));
                }
            }
            assert forall|e: int| !splits_at_point(s@, e) by {
                if splits_at_point(s@, e) && e > 0 {
                    assert(is_digit_char(s@.subrange(0, e)[0]));
                }
            }
        }
        return None;
    }
    if d == n {
        proof {
            assert(s@.subrange(0, n as int) =~= s@);
            assert forall|e: int| !splits_at_point(s@, e) by {
                if 0 <= e < s@.len() {
                    assert(is_digit_char(s@[e]));
                }
            }
        }
        return Some((whole, Vec::new()));
    }
    proof {
        assert(!is_digit_run(s@)) by {
            assert(!is_digit_char(s@[d as int]));
        }
        assert forall|e: int| splits_at_point(s@, e) implies e == d by {
            if e < d {
                assert(is_digit_char(s@[e]));
            } else if e > d {
                assert(s@.subrange(0, e)[d as int] == s@[d as int]);
            }
        }
    }
    if s.get_char(d) != '.' || d + 1 == n {
        proof {
            assert forall|e: int| !splits_at_point(s@, e) by {
                if splits_at_point(s@, e) {
                    assert(e == d);
                }
            }
        }
        return None;
    }
    let (frac, end) = read_digits(s, d + 1);
    if end != n || end == d + 1 {
        proof {
            assert forall|e: int| !splits_at_point(s@, e) by {
                if splits_at_point(s@, e) {
                    assert(e == d);
                    let t = s@.subrange(d + 1, s@.len() as int);
                    if end == d + 1 {
                        assert(t[0] == s@[end as int]);
                    } else {
                        assert(t[end - d - 1] == s@[end as int]);
                    }
                }
            }
        }
        return None;
    }
    proof {
        assert(splits_at_point(s@, d as int)) by {
            assert forall|k: int| 0 <= k < d implies is_digit_char(#[trigger] s@.subrange(0, d as int)[k]) by {
                assert(s@.subrange(0, d as int)[k] == s@[k]);
            }
            assert forall|k: int| 0 <= k < n - d - 1 implies is_digit_char(#[trigger] s@.subrange(d + 1, n as int)[k]) by {
                assert(s@.subrange(d + 1, n as int)[k] == s@[d + 1 + k]);
            }
        }
    }
    Some((whole, frac))
}

/// The integer and fraction digits of an unsigned decimal.
pub open spec fn decimal_parts(s: Seq<char>) -> (Seq<u8>, Seq<u8>) {
    if is_digit_run(s) {
        (digit_values(s), Seq::empty())
    } else {
        let d = choose|d: int| splits_at_point(s, d);
        (digit_values(s.subrange(0, d)), digit_values(s.subrange(d + 1, s.len() as int)))
    }
}

/// The ratios that are reported.
pub enum Threshold {
    /// Every ratio: no threshold, a negative infinite one, or one that is not a number.
    Everything,
    /// No ratio: a positive infinite threshold.
    Nothing,
    /// Ratios strictly greater than the decimal `whole.frac`, negated when `negative`.
    Above { negative: bool, whole: Vec<u8>, frac: Vec<u8> },
}

impl Threshold {
    /// A decimal threshold holds decimal digits only.
    pub open spec fn wf(&self) -> bool {
        match self {
            Threshold::Above { whole, frac, .. } => are_digits(whole@) && are_digits(frac@),
            _ => true,
        }
    }

    /// Whether a measurement with this ratio is reported.
    pub open spec fn passes_spec(&self, m: Measurement) -> bool {
        match self {
            Threshold::Everything => true,
            Threshold::Nothing => false,
            Threshold::Above { negative, whole, frac } => above_spec(m, *negative, whole@, frac@),
        }
    }

    /// Whether a measurement is reported: its ratio is strictly greater
    /// than the threshold, compared exactly.
    pub fn passes(&self, m: &Measurement) -> (r: bool)
        requires
            self.wf(),
            m.wf(),
        ensures
            r == self.passes_spec(*m),
    {
        match self {
            Threshold::Everything => true,
            Threshold::Nothing => false,
            Threshold::Above { negative, whole, frac } => {
                if *negative {
                    let r = m.file_size > 0 || !is_zero(whole) || !is_zero(frac);
                    proof {
                        lemma_negative_threshold(*m, whole@, frac@);
                    }
                    r
                } else {
                    ratio_above(m, whole, frac)
                }
            },
        }
    }
}

/// A threshold leaves out a ratio exactly equal to it and lets through
/// every ratio above it, however little above.
pub proof fn lemma_threshold_is_strict(m: Measurement, negative: bool, whole: Seq<u8>, frac: Seq<u8>)
    ensures
        m.bits_spec() * pow10(frac.len()) == signed_value(negative, whole, frac) * m.pixels_spec()
            ==> !above_spec(m, negative, whole, frac),
        m.bits_spec() * pow10(frac.len()) > signed_value(negative, whole, frac) * m.pixels_spec()
            ==> above_spec(m, negative, whole, frac),
{
}

proof fn lemma_negative_threshold(m: Measurement, whole: Seq<u8>, frac: Seq<u8>)
    requires
        m.wf(),
        are_digits(whole),
        are_digits(frac),
    ensures
        above_spec(m, true, whole, frac) == (m.file_size > 0 || digits_value(whole) != 0
            || digits_value(frac) != 0),
{
    let k = frac.len();
    let x = m.bits_spec();
    let p = m.pixels_spec();
    let w = digits_value(whole);
    let f = digits_value(frac);
    lemma_pow10_positive(k);
    lemma_digits_bounded(whole);
    lemma_digits_bounded(frac);
    let pk = pow10(k);
    assert(p > 0) by (nonlinear_arith)
        requires
            p == m.width * m.height,
            m.width > 0,
            m.height > 0,
    ;
    assert((x * pk > -(w * pk + f) * p) == (x > 0 || w != 0 || f != 0)) by (nonlinear_arith)
        requires
            x >= 0,
            w >= 0,
            f >= 0,
            pk > 0,
            p > 0,
            x == 8 * m.file_size,
    ;
}

/// Whether a run of digits stands for zero.
fn is_zero(s: &Vec<u8>) -> (r: bool)
    requires
        are_digits(s@),
    ensures
        r == (digits_value(s@) == 0),
{
    let mut i: usize = 0;
    while i < s.len()
        invariant
            are_digits(s@),
            i <= s@.len(),
            digits_value(s@.subrange(0, i as int)) == 0,
        decreases s@.len() - i,
    {
        proof {
            lemma_digits_step(s@, i as int);
        }
        if s[i] != 0 {
            proof {
                lemma_digits_prefix(s@, i + 1);
                assert(s@.subrange(0, i + 1).subrange(0, i as int) =~= s@.subrange(0, i as int));
            }
            return false;
        }
        i = i + 1;
    }
    proof {
        assert(s@.subrange(0, s@.len() as int) =~= s@);
    }
    true
}

proof fn lemma_not_decimal(s: Seq<char>)
    requires
        s.len() > 0,
        !is_digit_char(s[0]),
    ensures
        !is_unsigned_decimal(s),
{
    assert forall|d: int| !splits_at_point(s, d) by {
        if splits_at_point(s, d) && d > 0 {
            assert(s.subrange(0, d)[0] == s[0]);
        }
    }
}

/// Reads a threshold as a number is written in full: `NaN`, `inf`, `-inf`,
/// or decimal digits with an optional point and fraction, after an
/// optional minus sign. Any other text gives `None`.
pub fn parse_threshold(text: &str) -> (r: Option<Threshold>)
    ensures
        r is Some <==> (text@ == "NaN"@ || text@ == "inf"@ || text@ == "-inf"@
            || is_unsigned_decimal(text@) || (text@.len() > 0 && text@[0] == '-'
            && is_unsigned_decimal(text@.drop_first()))),
        r matches Some(t) ==> t.wf(),
        text@ == "NaN"@ ==> r == Some(Threshold::Everything),
        text@ == "inf"@ ==> r == Some(Threshold::Nothing),
        text@ == "-inf"@ ==> r == Some(Threshold::Everything),
        is_unsigned_decimal(text@) ==> (r matches Some(Threshold::Above { negative, whole, frac })
            && !negative && (whole@, frac@) == decimal_parts(text@)),
        text@.len() > 0 && text@[0] == '-' && is_unsigned_decimal(text@.drop_first()) ==> (r matches Some(
            Threshold::Above { negative, whole, frac },
        ) && negative && (whole@, frac@) == decimal_parts(text@.drop_first())),
{
    proof {
        reveal_strlit("NaN");
        reveal_strlit("inf");
        reveal_strlit("-inf");
        if text@ == "NaN"@ || text@ == "inf"@ {
            lemma_not_decimal(text@);
        }
        if text@ == "-inf"@ {
            lemma_not_decimal(text@);
            lemma_not_decimal(text@.drop_first());
        }
    }
    if crate::filter::same_text(text, "NaN") || crate::filter::same_text(text, "-inf") {
        return Some(Threshold::Everything);
    }
    if crate::filter::same_text(text, "inf") {
        return Some(Threshold::Nothing);
    }
    let n = text.unicode_len();
    let negative = n > 0 && text.get_char(0) == '-';
    let digits = if negative {
        text.substring_char(1, n)
    } else {
        text
    };
    proof {
        if negative {
            assert(digits@ =~= text@.drop_first());
            lemma_not_decimal(text@);
        } else if text@.len() > 0 {
            assert(text@[0] != '-');
        }
    }
    match parse_unsigned(digits) {
        Some((whole, frac)) => {
            proof {
                lemma_parts(digits@, whole@, frac@);
            }
            Some(Threshold::Above { negative, whole, frac })
        },
        None => None,
    }
}

proof fn lemma_parts(s: Seq<char>, w: Seq<u8>, f: Seq<u8>)
    requires
        is_unsigned_decimal(s),
        is_digit_run(s) ==> w == digit_values(s) && f.len() == 0,
        forall|d: int|
            splits_at_point(s, d) ==> w == digit_values(s.subrange(0, d)) && f == digit_values(
                s.subrange(d + 1, s.len() as int),
            ),
    ensures
        (w, f) == decimal_parts(s),
{
    if is_digit_run(s) {
        assert(f =~= Seq::<u8>::empty());
    } else {
        let d = choose|d: int| splits_at_point(s, d);
        assert(splits_at_point(s, d));
    }
}

} // verus!
