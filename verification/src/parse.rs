//! Verified parsing of the four numeric text inputs.
//!
//! The accepted numeral grammar is an optional sign, then a mantissa of
//! decimal digits with at most one point and at least one digit, then an
//! optional exponent: `e` or `E`, an optional sign, and digits (`"1"`,
//! `"1."`, `".5"`, `"-1.2050"`, `"1e5"`, `"1.5E-2"`). Fractional digits
//! beyond the canonical eleven places are ignored. Surrounding Unicode
//! whitespace is trimmed first.
//!
//! Each input has its own fallback rule: an edit of a pattern level that
//! does not parse keeps the previous value (and an empty edit clears it),
//! while an edit of the spread or of the pip decimal places that does not
//! parse, or falls outside the accepted range, resets that field to its
//! default.

use vstd::prelude::*;
use vstd::string::*;

use crate::engine::{in_level_range, DEFAULT_PIP_DECIMAL_PLACES, DEFAULT_SPREAD_TENTH_PIPS, SPREAD_LIMIT};
use crate::fixed::{lemma_ten_pow_add, lemma_ten_pow_mono, lemma_ten_pow_pos, pow10, ten_pow};

verus! {

/// The Unicode `White_Space` set, which standard trimming removes.
pub open spec fn is_space_char(c: char) -> bool {
    let v = c as u32;
    ||| v == 0x20
    ||| (0x09 <= v && v <= 0x0D)
    ||| v == 0x85
    ||| v == 0xA0
    ||| v == 0x1680
    ||| (0x2000 <= v && v <= 0x200A)
    ||| v == 0x2028
    ||| v == 0x2029
    ||| v == 0x202F
    ||| v == 0x205F
    ||| v == 0x3000
}

pub open spec fn drop_leading_spaces(s: Seq<char>) -> Seq<char>
    decreases s.len(),
{
    if s.len() > 0 && is_space_char(s[0]) {
        drop_leading_spaces(s.subrange(1, s.len() as int))
    } else {
        s
    }
}

pub open spec fn drop_trailing_spaces(s: Seq<char>) -> Seq<char>
    decreases s.len(),
{
    if s.len() > 0 && is_space_char(s[s.len() - 1]) {
        drop_trailing_spaces(s.subrange(0, s.len() - 1))
    } else {
        s
    }
}

/// The input with surrounding whitespace removed.
pub open spec fn spec_trim(s: Seq<char>) -> Seq<char> {
    drop_trailing_spaces(drop_leading_spaces(s))
}

pub open spec fn is_digit_char(c: char) -> bool {
    48 <= c as int <= 57
}

pub open spec fn digit_val(c: char) -> int {
    c as int - 48
}

pub open spec fn has_sign(t: Seq<char>) -> bool {
    t.len() > 0 && (t[0] == '+' || t[0] == '-')
}

pub open spec fn is_negative(t: Seq<char>) -> bool {
    t.len() > 0 && t[0] == '-'
}

/// The numeral with its sign character, if any, removed.
pub open spec fn number_body(t: Seq<char>) -> Seq<char> {
    if has_sign(t) {
        t.subrange(1, t.len() as int)
    } else {
        t
    }
}

pub open spec fn dot_count(u: Seq<char>) -> nat
    decreases u.len(),
{
    if u.len() == 0 {
        0
    } else {
        dot_count(u.drop_last()) + (if u.last() == '.' {
            1nat
        } else {
            0nat
        })
    }
}

/// Index of the first exponent marker (`e` or `E`), or the length if there
/// is none.
pub open spec fn marker_pos(u: Seq<char>) -> int
    decreases u.len(),
{
    if u.len() == 0 {
        0
    } else if u[0] == 'e' || u[0] == 'E' {
        0
    } else {
        1 + marker_pos(u.subrange(1, u.len() as int))
    }
}

/// The mantissa: everything before the exponent marker.
pub open spec fn mantissa_part(u: Seq<char>) -> Seq<char> {
    u.take(marker_pos(u))
}

pub open spec fn has_exp(u: Seq<char>) -> bool {
    marker_pos(u) < u.len()
}

/// The exponent field after the marker, sign included.
pub open spec fn exp_field(u: Seq<char>) -> Seq<char> {
    u.subrange(marker_pos(u) + 1, u.len() as int)
}

pub open spec fn exp_is_negative(u: Seq<char>) -> bool {
    has_exp(u) && exp_field(u).len() > 0 && exp_field(u)[0] == '-'
}

/// The exponent's digits, its sign character removed.
pub open spec fn exp_digits(u: Seq<char>) -> Seq<char> {
    let f = exp_field(u);
    if f.len() > 0 && (f[0] == '+' || f[0] == '-') {
        f.subrange(1, f.len() as int)
    } else {
        f
    }
}

/// A well-formed mantissa: digits with at most one point and at least one
/// digit.
pub open spec fn valid_mantissa(w: Seq<char>) -> bool {
    &&& dot_count(w) <= 1
    &&& (forall|i: int| 0 <= i < w.len() ==> w[i] == '.' || is_digit_char(w[i]))
    &&& w.len() > dot_count(w)
}

/// A well-formed unsigned numeral body: a mantissa, then an optional signed
/// all-digit exponent.
pub open spec fn valid_number_body(u: Seq<char>) -> bool {
    &&& valid_mantissa(mantissa_part(u))
    &&& (has_exp(u) ==> exp_digits(u).len() > 0 && (forall|i: int|
        0 <= i < exp_digits(u).len() ==> is_digit_char(exp_digits(u)[i])))
}

/// A well-formed signed numeral.
pub open spec fn is_valid_number(t: Seq<char>) -> bool {
    valid_number_body(number_body(t))
}

pub open spec fn exp_value(u: Seq<char>) -> int {
    if !has_exp(u) {
        0
    } else if exp_is_negative(u) {
        -digits_value(exp_digits(u))
    } else {
        digits_value(exp_digits(u))
    }
}

/// Index of the first point, or the length if there is none.
pub open spec fn dot_pos(u: Seq<char>) -> int
    decreases u.len(),
{
    if u.len() == 0 {
        0
    } else if u[0] == '.' {
        0
    } else {
        1 + dot_pos(u.subrange(1, u.len() as int))
    }
}

pub open spec fn int_part(u: Seq<char>) -> Seq<char> {
    u.subrange(0, dot_pos(u))
}

pub open spec fn frac_part(u: Seq<char>) -> Seq<char> {
    if dot_pos(u) == u.len() {
        Seq::<char>::empty()
    } else {
        u.subrange(dot_pos(u) + 1, u.len() as int)
    }
}

/// The value of a digit string read as a decimal numeral.
pub open spec fn digits_value(ds: Seq<char>) -> int
    decreases ds.len(),
{
    if ds.len() == 0 {
        0
    } else {
        digits_value(ds.drop_last()) * 10 + digit_val(ds.last())
    }
}

pub open spec fn zero_chars(n: nat) -> Seq<char> {
    Seq::new(n, |i: int| '0')
}

/// The fractional digits, truncated or zero-padded to exactly the eleven
/// canonical places.
pub open spec fn pad_frac(ds: Seq<char>) -> Seq<char> {
    if ds.len() >= 11 {
        ds.take(11)
    } else {
        ds + zero_chars((11 - ds.len()) as nat)
    }
}

/// The mantissa's digits with the point removed.
pub open spec fn mantissa_digits(u: Seq<char>) -> Seq<char> {
    int_part(mantissa_part(u)) + frac_part(mantissa_part(u))
}

/// Where the decimal point of the whole numeral falls among the mantissa's
/// digits once the exponent is applied.
pub open spec fn eff_point(u: Seq<char>) -> int {
    dot_pos(mantissa_part(u)) + exp_value(u)
}

/// The integer-part digits of a digit string whose point sits at `p`:
/// nothing left of position zero, zero-extended past the right end.
pub open spec fn shifted_int(dgs: Seq<char>, p: int) -> Seq<char> {
    if p <= 0 {
        Seq::<char>::empty()
    } else if p >= dgs.len() {
        dgs + zero_chars((p - dgs.len()) as nat)
    } else {
        dgs.take(p)
    }
}

/// The fractional-part digits of a digit string whose point sits at `p`,
/// zero-extended left of position zero.
pub open spec fn shifted_frac(dgs: Seq<char>, p: int) -> Seq<char> {
    if p >= dgs.len() {
        Seq::<char>::empty()
    } else if p <= 0 {
        zero_chars((-p) as nat) + dgs
    } else {
        dgs.skip(p)
    }
}

/// The value of a well-formed numeral, in `10^-11` units.
pub open spec fn number_units(t: Seq<char>) -> int {
    let u = number_body(t);
    let dgs = mantissa_digits(u);
    let p = eff_point(u);
    let mag = digits_value(shifted_int(dgs, p)) * ten_pow(11) + digits_value(
        pad_frac(shifted_frac(dgs, p)),
    );
    if is_negative(t) {
        -mag
    } else {
        mag
    }
}

// ---- lemmas about the spec functions ----

pub proof fn lemma_drop_leading_prefix(s: Seq<char>, k: int)
    requires
        0 <= k <= s.len(),
        forall|i: int| 0 <= i < k ==> is_space_char(s[i]),
        k == s.len() || !is_space_char(s[k]),
    ensures
        drop_leading_spaces(s) == s.subrange(k, s.len() as int),
    decreases k,
{
    if k == 0 {
        assert(s.subrange(0, s.len() as int) =~= s);
    } else {
        let s1 = s.subrange(1, s.len() as int);
        lemma_drop_leading_prefix(s1, k - 1);
        assert(s1.subrange(k - 1, s1.len() as int) =~= s.subrange(k, s.len() as int));
    }
}

pub proof fn lemma_drop_trailing_suffix(s: Seq<char>, e: int)
    requires
        0 <= e <= s.len(),
        forall|i: int| e <= i < s.len() ==> is_space_char(s[i]),
        e == 0 || !is_space_char(s[e - 1]),
    ensures
        drop_trailing_spaces(s) == s.subrange(0, e),
    decreases s.len(),
{
    if e == s.len() {
        assert(s.subrange(0, s.len() as int) =~= s);
    } else {
        let s1 = s.subrange(0, s.len() - 1);
        assert(is_space_char(s[s.len() - 1]));
        lemma_drop_trailing_suffix(s1, e);
        assert(s1.subrange(0, e) =~= s.subrange(0, e));
    }
}

pub proof fn lemma_dot_count_push(u: Seq<char>, c: char)
    ensures
        dot_count(u.push(c)) == dot_count(u) + (if c == '.' {
            1nat
        } else {
            0nat
        }),
{
    assert(u.push(c).drop_last() =~= u);
    assert(u.push(c).last() == c);
}

pub proof fn lemma_dot_count_take(u: Seq<char>, k: int)
    requires
        0 <= k <= u.len(),
    ensures
        dot_count(u.take(k)) <= dot_count(u),
    decreases u.len() - k,
{
    if k == u.len() {
        assert(u.take(k) =~= u);
    } else {
        assert(u.take(k + 1).drop_last() =~= u.take(k));
        assert(dot_count(u.take(k + 1)) >= dot_count(u.take(k)));
        lemma_dot_count_take(u, k + 1);
    }
}

pub proof fn lemma_dot_pos_from_parts(u: Seq<char>, p: int)
    requires
        0 <= p <= u.len(),
        forall|i: int| 0 <= i < p ==> u[i] != '.',
        p == u.len() || u[p] == '.',
    ensures
        dot_pos(u) == p,
    decreases p,
{
    if p == 0 {
    } else {
        let u1 = u.subrange(1, u.len() as int);
        assert(forall|i: int| 0 <= i < p - 1 ==> u1[i] == u[i + 1] && u1[i] != '.');
        lemma_dot_pos_from_parts(u1, p - 1);
    }
}

pub proof fn lemma_marker_pos_from_parts(u: Seq<char>, p: int)
    requires
        0 <= p <= u.len(),
        forall|i: int| 0 <= i < p ==> !(u[i] == 'e' || u[i] == 'E'),
        p == u.len() || u[p] == 'e' || u[p] == 'E',
    ensures
        marker_pos(u) == p,
    decreases p,
{
    if p == 0 {
    } else {
        let u1 = u.subrange(1, u.len() as int);
        assert(forall|i: int| 0 <= i < p - 1 ==> u1[i] == u[i + 1] && !(u1[i] == 'e' || u1[i]
            == 'E'));
        lemma_marker_pos_from_parts(u1, p - 1);
    }
}

/// A digit string of zeros alone has value zero.
pub proof fn lemma_digits_value_zero_digits(ds: Seq<char>)
    requires
        forall|i: int| 0 <= i < ds.len() ==> ds[i] == '0',
    ensures
        digits_value(ds) == 0,
    decreases ds.len(),
{
    if ds.len() > 0 {
        let d0 = ds.drop_last();
        assert(forall|i: int| 0 <= i < d0.len() ==> d0[i] == ds[i] && d0[i] == '0');
        lemma_digits_value_zero_digits(d0);
        assert(digit_val('0') == 0);
    }
}

/// A digit string with a nonzero digit anywhere has a positive value.
pub proof fn lemma_digits_value_nonzero(ds: Seq<char>, j: int)
    requires
        forall|i: int| 0 <= i < ds.len() ==> is_digit_char(ds[i]),
        0 <= j < ds.len(),
        ds[j] != '0',
    ensures
        digits_value(ds) >= 1,
    decreases ds.len(),
{
    let d0 = ds.drop_last();
    assert(forall|i: int| 0 <= i < d0.len() ==> d0[i] == ds[i] && is_digit_char(d0[i]));
    lemma_digits_value_bounds(d0);
    if j == ds.len() - 1 {
        assert(digit_val(ds.last()) >= 1);
    } else {
        lemma_digits_value_nonzero(d0, j);
    }
}

pub proof fn lemma_digits_value_bounds(ds: Seq<char>)
    requires
        forall|i: int| 0 <= i < ds.len() ==> is_digit_char(ds[i]),
    ensures
        0 <= digits_value(ds) < ten_pow(ds.len() as nat),
    decreases ds.len(),
{
    if ds.len() == 0 {
    } else {
        let d0 = ds.drop_last();
        assert(forall|i: int| 0 <= i < d0.len() ==> d0[i] == ds[i] && is_digit_char(d0[i]));
        lemma_digits_value_bounds(d0);
        assert(ten_pow(ds.len() as nat) == 10 * ten_pow(d0.len() as nat));
        let v0 = digits_value(d0);
        let t0 = ten_pow(d0.len() as nat) as int;
        assert(0 <= digit_val(ds.last()) <= 9);
        assert(v0 * 10 + 9 < 10 * t0) by (nonlinear_arith)
            requires
                0 <= v0 < t0,
        ;
    }
}

pub proof fn lemma_digits_value_zero_append(ds: Seq<char>, z: nat)
    ensures
        digits_value(ds + zero_chars(z)) == digits_value(ds) * ten_pow(z),
    decreases z,
{
    if z == 0 {
        assert(ds + zero_chars(0) =~= ds);
        assert(digits_value(ds) * 1 == digits_value(ds));
    } else {
        let w = (z - 1) as nat;
        assert(ds + zero_chars(z) =~= (ds + zero_chars(w)).push('0'));
        lemma_digits_value_zero_append(ds, w);
        assert((ds + zero_chars(w)).push('0').drop_last() =~= ds + zero_chars(w));
        assert(digit_val('0') == 0);
        assert(ten_pow(z) == 10 * ten_pow(w));
        let v = digits_value(ds);
        let t = ten_pow(w) as int;
        assert((v * t) * 10 == v * (10 * t)) by (nonlinear_arith);
    }
}

// ---- executable parsing ----

/// Outcome of reading one numeric input.
#[derive(PartialEq, Eq, Structural, Clone, Copy, Debug)]
pub enum ParseOutcome {
    /// Nothing was left after trimming.
    Empty,
    /// The trimmed text is not a well-formed numeral.
    Invalid,
    /// A well-formed numeral whose magnitude falls outside the price range.
    TooLarge,
    /// The parsed value, in `10^-11` units.
    Value(i64),
}

fn is_space(c: char) -> (r: bool)
    ensures
        r == is_space_char(c),
{
    let v = c as u32;
    v == 0x20 || (0x09 <= v && v <= 0x0D) || v == 0x85 || v == 0xA0 || v == 0x1680 || (0x2000 <= v
        && v <= 0x200A) || v == 0x2028 || v == 0x2029 || v == 0x202F || v == 0x205F || v == 0x3000
}

/// Locate the trimmed text inside `text`: the returned pair brackets
/// `spec_trim(text@)`.
fn trim_range(text: &str) -> (r: (usize, usize))
    ensures
        r.0 <= r.1 <= text@.len(),
        spec_trim(text@) == text@.subrange(r.0 as int, r.1 as int),
{
    let ghost s = text@;
    let len = text.unicode_len();
    let mut start: usize = 0;
    while start < len && is_space(text.get_char(start))
        invariant
            len == s.len(),
            s == text@,
            start <= len,
            forall|i: int| 0 <= i < start ==> is_space_char(s[i]),
        decreases len - start,
    {
        start = start + 1;
    }
    proof {
        lemma_drop_leading_prefix(s, start as int);
    }
    if start == len {
        proof {
            assert(s.subrange(len as int, s.len() as int) =~= Seq::<char>::empty());
            assert(drop_trailing_spaces(Seq::<char>::empty()) =~= Seq::<char>::empty());
            assert(spec_trim(s) =~= s.subrange(len as int, len as int));
        }
        return (len, len);
    }
    let mut end: usize = len;
    while end > start && is_space(text.get_char(end - 1))
        invariant
            len == s.len(),
            s == text@,
            start < end <= len,
            !is_space_char(s[start as int]),
            forall|i: int| end <= i < len ==> is_space_char(s[i]),
        decreases end,
    {
        end = end - 1;
    }
    proof {
        let lead = s.subrange(start as int, s.len() as int);
        assert(forall|i: int| end - start <= i < lead.len() ==> lead[i] == s[i + start]
            && is_space_char(lead[i]));
        assert(!is_space_char(lead[end - start - 1]));
        lemma_drop_trailing_suffix(lead, end - start);
        assert(lead.subrange(0, end - start) =~= s.subrange(start as int, end as int));
    }
    (start, end)
}


/// An all-zero digit string values to zero wherever the point sits.
proof fn lemma_units_zero_digits(t: Seq<char>)
    requires
        forall|i: int|
            0 <= i < mantissa_digits(number_body(t)).len() ==> mantissa_digits(number_body(t))[i]
                == '0',
    ensures
        number_units(t) == 0,
{
    let u = number_body(t);
    let dgs = mantissa_digits(u);
    let pe = eff_point(u);
    let si = shifted_int(dgs, pe);
    let sf = shifted_frac(dgs, pe);
    assert(forall|q: int| 0 <= q < si.len() ==> si[q] == '0');
    lemma_digits_value_zero_digits(si);
    assert(forall|q: int| 0 <= q < sf.len() ==> sf[q] == '0');
    assert(forall|q: int| 0 <= q < pad_frac(sf).len() ==> pad_frac(sf)[q] == '0');
    lemma_digits_value_zero_digits(pad_frac(sf));
}

/// With the point eleven or more places left of the digits, every digit
/// falls beyond the canonical places and the value truncates to zero.
proof fn lemma_units_point_far_left(t: Seq<char>)
    requires
        eff_point(number_body(t)) <= -11,
        mantissa_digits(number_body(t)).len() >= 1,
    ensures
        number_units(t) == 0,
{
    let u = number_body(t);
    let dgs = mantissa_digits(u);
    let pe = eff_point(u);
    let sf = shifted_frac(dgs, pe);
    assert(shifted_int(dgs, pe) =~= Seq::<char>::empty());
    assert(sf =~= zero_chars((-pe) as nat) + dgs);
    assert(sf.len() >= 11);
    assert(pad_frac(sf) =~= sf.take(11));
    assert(forall|q: int| 0 <= q < 11 ==> pad_frac(sf)[q] == '0');
    lemma_digits_value_zero_digits(pad_frac(sf));
}

/// With the point six or more places right of a digit string holding a
/// nonzero digit, the integer part reaches a million and the magnitude
/// leaves the price range.
proof fn lemma_units_point_far_right(t: Seq<char>, nz: int)
    requires
        forall|i: int|
            0 <= i < mantissa_digits(number_body(t)).len() ==> is_digit_char(
                mantissa_digits(number_body(t))[i],
            ),
        0 <= nz < mantissa_digits(number_body(t)).len(),
        mantissa_digits(number_body(t))[nz] != '0',
        eff_point(number_body(t)) >= mantissa_digits(number_body(t)).len() + 6,
    ensures
        !in_level_range(number_units(t)),
{
    let u = number_body(t);
    let dgs = mantissa_digits(u);
    let pe = eff_point(u);
    let pad_n = (pe - dgs.len()) as nat;
    let si = shifted_int(dgs, pe);
    assert(si =~= dgs + zero_chars(pad_n));
    lemma_digits_value_zero_append(dgs, pad_n);
    lemma_digits_value_nonzero(dgs, nz);
    lemma_ten_pow_mono(6, pad_n);
    assert(ten_pow(6) == 1_000_000) by {
        reveal_with_fuel(ten_pow, 7);
    }
    let dvm = digits_value(dgs);
    let tp = ten_pow(pad_n) as int;
    assert(digits_value(si) >= 1_000_000) by (nonlinear_arith)
        requires
            digits_value(si) == dvm * tp,
            dvm >= 1,
            tp >= 1_000_000,
    ;
    assert(shifted_frac(dgs, pe) =~= Seq::<char>::empty());
    assert(pad_frac(Seq::<char>::empty()) =~= zero_chars(11));
    lemma_digits_value_zero_digits(zero_chars(11));
    lemma_units_int_overflow(t);
}

/// An integer part of a million or more leaves the price range.
proof fn lemma_units_int_overflow(t: Seq<char>)
    requires
        digits_value(
            shifted_int(mantissa_digits(number_body(t)), eff_point(number_body(t))),
        ) >= 1_000_000,
        digits_value(
            pad_frac(shifted_frac(mantissa_digits(number_body(t)), eff_point(number_body(t)))),
        ) >= 0,
    ensures
        !in_level_range(number_units(t)),
{
    let u = number_body(t);
    let dvi = digits_value(shifted_int(mantissa_digits(u), eff_point(u)));
    lemma_ten_pow_11();
    assert(dvi * ten_pow(11) >= 1_000_000 * 100_000_000_000) by (nonlinear_arith)
        requires
            dvi >= 1_000_000,
            ten_pow(11) == 100_000_000_000,
    ;
}

/// Read a trimmed numeral into `10^-11` units, reporting an empty input, a
/// malformed numeral and an out-of-range magnitude separately.
#[verifier::rlimit(100)]
pub fn parse_units(text: &str) -> (r: ParseOutcome)
    ensures
        ({
            let t = spec_trim(text@);
            &&& (r == ParseOutcome::Empty <==> t.len() == 0)
            &&& (r == ParseOutcome::Invalid <==> t.len() > 0 && !is_valid_number(t))
            &&& (r == ParseOutcome::TooLarge <==> is_valid_number(t) && !in_level_range(
                number_units(t),
            ))
            &&& (is_valid_number(t) && in_level_range(number_units(t)) ==> r
                == ParseOutcome::Value(number_units(t) as i64))
        }),
{
    let ghost s = text@;
    let ghost t = spec_trim(s);
    let (start, end) = trim_range(text);
    if start == end {
        proof {
            assert(t.len() == 0);
        }
        return ParseOutcome::Empty;
    }
    proof {
        assert(t.len() == end - start);
        assert(t[0] == s[start as int]);
    }
    let c0 = text.get_char(start);
    let mut neg = false;
    let mut bstart = start;
    if c0 == '-' {
        neg = true;
        bstart = start + 1;
    } else if c0 == '+' {
        bstart = start + 1;
    }
    let ghost u = number_body(t);
    proof {
        assert(neg == is_negative(t));
        if bstart == start {
            assert(!has_sign(t));
            assert(u =~= s.subrange(bstart as int, end as int));
        } else {
            assert(has_sign(t));
            assert(u =~= s.subrange(bstart as int, end as int));
        }
    }
    let blen = end - bstart;
    // mantissa: validate, and collect its digits with the point removed
    let mut k: usize = 0;
    let mut digits: Vec<char> = Vec::new();
    let mut ip_len: usize = 0;
    let mut dots: u32 = 0;
    let ghost mut p: int = 0;
    let mut digits_seen = false;
    let mut nonzero_seen = false;
    let ghost mut nz: int = 0;
    while k < blen && !is_exp_marker(text.get_char(bstart + k))
        invariant
            s == text@,
            t == spec_trim(s),
            u == number_body(t),
            u =~= s.subrange(bstart as int, end as int),
            t.len() > 0,
            bstart + blen == end <= s.len(),
            u.len() == blen,
            k <= blen,
            dots == 0 || dots == 1,
            digits_seen == (k as int > dots as int),
            forall|i: int| 0 <= i < k ==> (u[i] == '.' || is_digit_char(u[i])),
            forall|i: int| 0 <= i < k ==> !(u[i] == 'e' || u[i] == 'E'),
            dot_count(u.take(k as int)) == dots,
            dots == 0 ==> (forall|i: int| 0 <= i < k ==> is_digit_char(u[i])) && digits@
                == u.take(k as int) && ip_len == k,
            dots == 1 ==> 0 <= p < k && u[p] == '.' && (forall|i: int|
                0 <= i < p ==> is_digit_char(u[i])) && (forall|i: int|
                p < i < k ==> is_digit_char(u[i])) && digits@ == u.take(p) + u.subrange(
                p + 1,
                k as int,
            ) && ip_len as int == p,
            forall|i: int| 0 <= i < digits@.len() ==> is_digit_char(digits@[i]),
            nonzero_seen ==> 0 <= nz < digits@.len() && digits@[nz] != '0',
            !nonzero_seen ==> (forall|i: int| 0 <= i < digits@.len() ==> digits@[i] == '0'),
        decreases blen - k,
    {
        let c = text.get_char(bstart + k);
        proof {
            assert(u[k as int] == s[bstart + k]);
            assert(u.take(k as int + 1) =~= u.take(k as int).push(u[k as int]));
            lemma_dot_count_push(u.take(k as int), u[k as int]);
        }
        let v = c as u32;
        if 48 <= v && v <= 57 {
            proof {
                assert(is_digit_char(c));
                if dots == 1 {
                    assert(u.take(p) + u.subrange(p + 1, k as int + 1) =~= (u.take(p) + u.subrange(
                        p + 1,
                        k as int,
                    )).push(u[k as int]));
                }
            }
            if c != '0' {
                nonzero_seen = true;
                proof {
                    nz = digits@.len() as int;
                }
            }
            digits.push(c);
            if dots == 0 {
                ip_len = ip_len + 1;
            }
            digits_seen = true;
        } else if c == '.' {
            if dots == 1 {
                proof {
                    assert(dot_count(u.take(k as int + 1)) == 2);
                    lemma_marker_pos_lower(u, k as int + 1);
                    assert(mantissa_part(u).take(k as int + 1) =~= u.take(k as int + 1));
                    lemma_dot_count_take(mantissa_part(u), k as int + 1);
                    assert(!valid_mantissa(mantissa_part(u)));
                }
                return ParseOutcome::Invalid;
            }
            dots = 1;
            proof {
                p = k as int;
                assert(u.take(p) + u.subrange(p + 1, k as int + 1) =~= u.take(k as int));
            }
        } else {
            proof {
                assert(!is_digit_char(u[k as int]) && u[k as int] != '.');
                lemma_marker_pos_lower(u, k as int + 1);
                assert(mantissa_part(u)[k as int] == u[k as int]);
                assert(!valid_mantissa(mantissa_part(u)));
            }
            return ParseOutcome::Invalid;
        }
        k = k + 1;
    }
    proof {
        lemma_marker_pos_from_parts(u, k as int);
        assert(mantissa_part(u) =~= u.take(k as int));
    }
    let ghost w = mantissa_part(u);
    if !digits_seen {
        proof {
            assert(w.len() <= dot_count(w));
            assert(!valid_mantissa(w));
        }
        return ParseOutcome::Invalid;
    }
    proof {
        assert(valid_mantissa(w));
        if dots == 0 {
            lemma_dot_pos_from_parts(w, k as int);
            assert(int_part(w) =~= w);
            assert(frac_part(w) =~= Seq::<char>::empty());
            assert(mantissa_digits(u) =~= digits@);
        } else {
            lemma_dot_pos_from_parts(w, p);
            assert(int_part(w) =~= u.take(p));
            assert(frac_part(w) =~= u.subrange(p + 1, k as int));
            assert(mantissa_digits(u) =~= digits@);
        }
        assert(dot_pos(w) == ip_len as int);
    }
    // exponent: an optional sign, then digits, accumulated with saturation
    let mut xneg = false;
    let mut x_acc: u128 = 0;
    let mut xbig = false;
    let ghost cap: int = blen as int + 32;
    if k < blen {
        let mut j = k + 1;
        if j < blen {
            let ce = text.get_char(bstart + j);
            proof {
                assert(u[j as int] == s[bstart + j]);
            }
            if ce == '-' {
                xneg = true;
                j = j + 1;
            } else if ce == '+' {
                j = j + 1;
            }
        }
        let ghost ed = exp_digits(u);
        proof {
            assert(has_exp(u));
            assert(exp_field(u) =~= u.subrange(k as int + 1, blen as int));
            assert(ed =~= u.subrange(j as int, blen as int));
            assert(exp_is_negative(u) == xneg);
        }
        if j == blen {
            proof {
                assert(exp_digits(u).len() == 0);
            }
            return ParseOutcome::Invalid;
        }
        let jd0 = j;
        while j < blen
            invariant
                s == text@,
                t == spec_trim(s),
                u == number_body(t),
                u =~= s.subrange(bstart as int, end as int),
                t.len() > 0,
                bstart + blen == end <= s.len(),
                u.len() == blen,
                has_exp(u),
                ed == exp_digits(u),
                ed =~= u.subrange(jd0 as int, blen as int),
                cap == blen as int + 32,
                jd0 <= j <= blen,
                forall|i: int| jd0 <= i < j ==> is_digit_char(u[i]),
                !xbig ==> x_acc as int == digits_value(ed.take(j - jd0)) && (x_acc as int) < cap,
                xbig ==> digits_value(ed.take(j - jd0)) >= cap,
            decreases blen - j,
        {
            let c = text.get_char(bstart + j);
            proof {
                assert(u[j as int] == s[bstart + j]);
                assert(ed[j - jd0] == u[j as int]);
                assert(ed.take(j - jd0 + 1) =~= ed.take(j - jd0).push(ed[j - jd0]));
                assert(ed.take(j - jd0 + 1).drop_last() =~= ed.take(j - jd0));
            }
            let v = c as u32;
            if v < 48 || v > 57 {
                proof {
                    assert(!is_digit_char(exp_digits(u)[j - jd0]));
                }
                return ParseOutcome::Invalid;
            }
            let d = (v - 48) as u128;
            proof {
                assert(is_digit_char(u[j as int]));
                assert(digit_val(ed[j - jd0]) == d);
                if xbig {
                    let dv0 = digits_value(ed.take(j - jd0));
                    assert(dv0 * 10 >= dv0);
                }
            }
            if !xbig {
                let na = x_acc * 10 + d;
                x_acc = na;
                if na >= blen as u128 + 32 {
                    xbig = true;
                }
            }
            j = j + 1;
        }
        proof {
            assert(ed.take(blen - jd0) =~= ed);
        }
    }
    proof {
        assert(valid_number_body(u));
        assert(is_valid_number(t));
    }
    evaluate_units(
        &digits,
        ip_len,
        neg,
        xneg,
        x_acc,
        xbig,
        nonzero_seen,
        Ghost(t),
        Ghost(blen as int),
        Ghost(nz),
    )
}

/// Evaluate a validated numeral from its collected mantissa digits, the
/// point position inside them, and the saturated exponent accumulator.
#[verifier::rlimit(100)]
fn evaluate_units(
    digits: &Vec<char>,
    ip_len: usize,
    neg: bool,
    xneg: bool,
    x_acc: u128,
    xbig: bool,
    nonzero_seen: bool,
    Ghost(t): Ghost<Seq<char>>,
    Ghost(blen): Ghost<int>,
    Ghost(nz): Ghost<int>,
) -> (r: ParseOutcome)
    requires
        ({
            let u = number_body(t);
            let dgs = mantissa_digits(u);
            &&& is_valid_number(t)
            &&& t.len() > 0
            &&& dgs == digits@
            &&& 1 <= dgs.len() <= blen <= usize::MAX
            &&& ip_len <= dgs.len()
            &&& dot_pos(mantissa_part(u)) == ip_len as int
            &&& (forall|i: int| 0 <= i < dgs.len() ==> is_digit_char(dgs[i]))
            &&& (nonzero_seen ==> 0 <= nz < dgs.len() && dgs[nz] != '0')
            &&& (!nonzero_seen ==> (forall|i: int| 0 <= i < dgs.len() ==> dgs[i] == '0'))
            &&& is_negative(t) == neg
            &&& exp_is_negative(u) == xneg
            &&& (!has_exp(u) ==> x_acc == 0 && !xbig && !xneg)
            &&& (has_exp(u) && !xbig ==> x_acc as int == digits_value(exp_digits(u)) && (
            x_acc as int) < blen + 32)
            &&& (has_exp(u) && xbig ==> digits_value(exp_digits(u)) >= blen + 32)
        }),
    ensures
        r != ParseOutcome::Empty,
        r != ParseOutcome::Invalid,
        r == ParseOutcome::TooLarge <==> !in_level_range(number_units(t)),
        in_level_range(number_units(t)) ==> r == ParseOutcome::Value(number_units(t) as i64),
{
    let ghost u = number_body(t);
    let dlen = digits.len();
    let ghost dgs = mantissa_digits(u);
    let ghost x = exp_value(u);
    let ghost pe = eff_point(u);
    proof {
        assert(dlen as int == dgs.len());
        assert(ip_len <= dlen);
        assert(pe == ip_len as int + x);
    }
    // an all-zero mantissa is zero whatever the exponent says
    if !nonzero_seen {
        proof {
            lemma_units_zero_digits(t);
        }
        return ParseOutcome::Value(0);
    }
    // a large negative exponent pushes everything beyond the canonical
    // places: the value truncates to zero
    if xneg && (xbig || x_acc >= ip_len as u128 + 11) {
        proof {
            assert(pe <= -11);
            lemma_units_point_far_left(t);
        }
        return ParseOutcome::Value(0);
    }
    // a large positive exponent puts at least a million in the integer part
    if !xneg && (xbig || ip_len as u128 + x_acc >= dlen as u128 + 6) {
        proof {
            assert(pe >= dlen as int + 6);
            lemma_units_point_far_right(t, nz);
        }
        return ParseOutcome::TooLarge;
    }
    // now the point lands within a bounded window of the digits
    let pe_exec: i128 = if xneg {
        ip_len as i128 - x_acc as i128
    } else {
        ip_len as i128 + x_acc as i128
    };
    proof {
        assert(pe_exec == pe);
        assert(-10 <= pe <= dlen as int + 5);
    }
    let itake: usize = if pe_exec <= 0 {
        0
    } else if pe_exec >= dlen as i128 {
        dlen
    } else {
        pe_exec as usize
    };
    let zlead: u32 = if pe_exec < 0 {
        (-pe_exec) as u32
    } else {
        0
    };
    let pad: u32 = if pe_exec > dlen as i128 {
        (pe_exec - dlen as i128) as u32
    } else {
        0
    };
    // integer side: the digits left of the point, zero-extended by `pad`
    let mut int_acc: i64 = 0;
    let mut big = false;
    let mut i: usize = 0;
    while i < itake
        invariant
            dgs == digits@,
            dlen == digits@.len(),
            forall|q: int| 0 <= q < dgs.len() ==> is_digit_char(dgs[q]),
            itake <= dlen,
            i <= itake,
            !big ==> 0 <= int_acc < 1_000_000 && int_acc as int == digits_value(
                dgs.take(i as int),
            ),
            big ==> digits_value(dgs.take(i as int)) >= 1_000_000,
        decreases itake - i,
    {
        let c = digits[i];
        proof {
            assert(is_digit_char(dgs[i as int]));
            assert(dgs.take(i as int + 1) =~= dgs.take(i as int).push(dgs[i as int]));
            assert(dgs.take(i as int + 1).drop_last() =~= dgs.take(i as int));
            if big {
                let dv0 = digits_value(dgs.take(i as int));
                assert(dv0 * 10 >= dv0);
            }
        }
        let d = (c as u32 - 48) as i64;
        proof {
            assert(digit_val(dgs[i as int]) == d);
        }
        if !big {
            let na = int_acc * 10 + d;
            int_acc = na;
            if na >= 1_000_000 {
                big = true;
            }
        }
        i = i + 1;
    }
    let ghost si = shifted_int(dgs, pe);
    proof {
        if pe <= 0 {
            assert(si =~= dgs.take(0));
        } else if pe >= dlen as int {
            assert(dgs.take(itake as int) =~= dgs);
        } else {
            assert(si =~= dgs.take(itake as int));
        }
    }
    if pad > 0 {
        proof {
            assert(si =~= dgs + zero_chars(pad as nat));
            lemma_digits_value_zero_append(dgs, pad as nat);
            lemma_ten_pow_mono(pad as nat, 5);
            assert(ten_pow(5) == 100_000) by {
                reveal_with_fuel(ten_pow, 6);
            }
            lemma_ten_pow_pos(pad as nat);
            if big {
                let dv0 = digits_value(dgs);
                let tp = ten_pow(pad as nat) as int;
                assert(dv0 * tp >= dv0) by (nonlinear_arith)
                    requires
                        dv0 >= 0,
                        tp >= 1,
                ;
            }
        }
        let mult = pow10(pad);
        if !big {
            proof {
                let tp = ten_pow(pad as nat) as int;
                assert(0 <= int_acc * tp < 100_000_000_000) by (nonlinear_arith)
                    requires
                        0 <= int_acc < 1_000_000,
                        1 <= tp <= 100_000,
                ;
            }
            let na = int_acc * mult;
            int_acc = na;
            if na >= 1_000_000 {
                big = true;
            }
        }
    } else {
        proof {
            if pe >= dlen as int {
                assert(si =~= dgs + zero_chars(0));
                assert(si =~= dgs);
            }
        }
    }
    proof {
        assert(!big ==> 0 <= int_acc < 1_000_000 && int_acc as int == digits_value(si));
        assert(big ==> digits_value(si) >= 1_000_000);
    }
    // fractional side: the digits right of the point, the first eleven
    // places, with `zlead` implicit zeros in front
    let ghost sf = shifted_frac(dgs, pe);
    proof {
        assert(sf.len() == zlead + (dlen - itake));
        assert(forall|q: int| 0 <= q < zlead ==> sf[q] == '0');
        assert(forall|q: int| zlead <= q < sf.len() ==> sf[q] == dgs[itake + q - zlead]);
        assert(forall|q: int| 0 <= q < sf.len() ==> is_digit_char(sf[q]));
        lemma_digits_value_zero_digits(sf.take(zlead as int));
    }
    let mut frac_acc: i64 = 0;
    let mut fcount: u32 = zlead;
    let mut fj: usize = itake;
    while fj < dlen && fcount < 11
        invariant
            dgs == digits@,
            dlen == digits@.len(),
            forall|q: int| 0 <= q < dgs.len() ==> is_digit_char(dgs[q]),
            itake <= dlen,
            zlead <= 10,
            sf == shifted_frac(dgs, pe),
            sf.len() == zlead + (dlen - itake),
            forall|q: int| 0 <= q < zlead ==> sf[q] == '0',
            forall|q: int| zlead <= q < sf.len() ==> sf[q] == dgs[itake + q - zlead],
            forall|q: int| 0 <= q < sf.len() ==> is_digit_char(sf[q]),
            itake <= fj <= dlen,
            zlead <= fcount <= 11,
            fcount as int == zlead + (fj - itake),
            0 <= frac_acc < 100_000_000_000,
            frac_acc as int == digits_value(sf.take(fcount as int)),
        decreases dlen - fj,
    {
        let c = digits[fj];
        proof {
            assert(is_digit_char(dgs[fj as int]));
            assert(sf[fcount as int] == dgs[fj as int]);
            assert(sf.take(fcount as int + 1) =~= sf.take(fcount as int).push(sf[fcount as int]));
            assert(sf.take(fcount as int + 1).drop_last() =~= sf.take(fcount as int));
            assert(forall|q: int|
                0 <= q < fcount as int + 1 ==> is_digit_char(#[trigger] sf.take(fcount as int + 1)[q]));
            lemma_digits_value_bounds(sf.take(fcount as int + 1));
            lemma_ten_pow_mono_11((fcount + 1) as nat);
        }
        let d = (c as u32 - 48) as i64;
        proof {
            assert(digit_val(sf[fcount as int]) == d);
        }
        frac_acc = frac_acc * 10 + d;
        fcount = fcount + 1;
        fj = fj + 1;
    }
    proof {
        if fcount < 11 {
            assert(fcount as int == sf.len());
            assert(sf.take(fcount as int) =~= sf);
            assert(pad_frac(sf) =~= sf + zero_chars((11 - fcount) as nat));
            lemma_digits_value_zero_append(sf, (11 - fcount) as nat);
        } else {
            assert(sf.len() >= 11);
            assert(pad_frac(sf) =~= sf.take(11));
        }
        assert(forall|q: int| 0 <= q < fcount as int ==> is_digit_char(#[trigger] sf.take(fcount as int)[q]));
        lemma_digits_value_bounds(sf.take(fcount as int));
        lemma_ten_pow_add(fcount as nat, (11 - fcount) as nat);
        lemma_ten_pow_pos((11 - fcount) as nat);
        lemma_ten_pow_11();
    }
    let pw = pow10(11 - fcount);
    proof {
        let tf = ten_pow(fcount as nat) as int;
        assert(0 <= frac_acc * pw < 100_000_000_000) by (nonlinear_arith)
            requires
                0 <= frac_acc < tf,
                1 <= pw,
                tf * pw == 100_000_000_000,
        ;
    }
    let fu = frac_acc * pw;
    proof {
        assert(fu as int == digits_value(pad_frac(sf)));
        assert(0 <= digits_value(pad_frac(sf)) < 100_000_000_000);
    }
    if big {
        proof {
            lemma_units_int_overflow(t);
        }
        return ParseOutcome::TooLarge;
    }
    let mag = int_acc * 100_000_000_000 + fu;
    proof {
        assert(mag as int == digits_value(si) * ten_pow(11) + digits_value(pad_frac(sf)));
        assert(0 <= mag < 100_000_000_000_000_000);
        assert(number_units(t) == (if neg {
            -(mag as int)
        } else {
            mag as int
        }));
        assert(in_level_range(number_units(t)));
    }
    let val = if neg {
        -mag
    } else {
        mag
    };
    ParseOutcome::Value(val)
}


fn is_exp_marker(c: char) -> (r: bool)
    ensures
        r == (c == 'e' || c == 'E'),
{
    c == 'e' || c == 'E'
}

pub proof fn lemma_marker_pos_range(u: Seq<char>)
    ensures
        0 <= marker_pos(u) <= u.len(),
    decreases u.len(),
{
    if u.len() > 0 && !(u[0] == 'e' || u[0] == 'E') {
        lemma_marker_pos_range(u.subrange(1, u.len() as int));
    }
}

pub proof fn lemma_marker_pos_lower(u: Seq<char>, k: int)
    requires
        0 <= k <= u.len(),
        forall|i: int| 0 <= i < k ==> !(u[i] == 'e' || u[i] == 'E'),
    ensures
        k <= marker_pos(u) <= u.len(),
    decreases k,
{
    lemma_marker_pos_range(u);
    if k > 0 {
        let u1 = u.subrange(1, u.len() as int);
        assert(forall|i: int| 0 <= i < k - 1 ==> u1[i] == u[i + 1] && !(u1[i] == 'e' || u1[i]
            == 'E'));
        lemma_marker_pos_lower(u1, k - 1);
    }
}

// ---- the per-field edit rules ----

/// The edit rule for the two pattern levels: an empty edit clears the
/// stored level, a well-formed in-range numeral replaces it, and anything
/// else — malformed or out of range — is silently discarded, keeping the
/// previous value.
pub open spec fn spec_update_level(prev: Option<i64>, s: Seq<char>) -> Option<i64> {
    let t = spec_trim(s);
    if t.len() == 0 {
        None
    } else if is_valid_number(t) && in_level_range(number_units(t)) {
        Some(number_units(t) as i64)
    } else {
        prev
    }
}

/// Apply one committed edit of a pattern level field.
pub fn update_level(prev: Option<i64>, text: &str) -> (r: Option<i64>)
    requires
        prev matches Some(v) ==> in_level_range(v as int),
    ensures
        r == spec_update_level(prev, text@),
        r matches Some(v) ==> in_level_range(v as int),
{
    match parse_units(text) {
        ParseOutcome::Empty => None,
        ParseOutcome::Value(v) => Some(v),
        ParseOutcome::Invalid => prev,
        ParseOutcome::TooLarge => prev,
    }
}

/// The edit rule for the broker spread: a well-formed numeral between zero
/// and `10^5` pips is kept, to a precision of a tenth of a pip (rounded to
/// the nearest tenth, halves away from zero); anything else resets the
/// spread to its default of 1.5 pips.
pub open spec fn spec_update_spread(s: Seq<char>) -> i64 {
    let t = spec_trim(s);
    if is_valid_number(t) && 0 <= number_units(t) <= 10_000_000_000_000_000 {
        crate::fixed::spec_round_div(number_units(t), 10_000_000_000) as i64
    } else {
        DEFAULT_SPREAD_TENTH_PIPS
    }
}

/// Apply one committed edit of the spread field.
pub fn update_spread(text: &str) -> (r: i64)
    ensures
        r == spec_update_spread(text@),
        0 <= r <= SPREAD_LIMIT,
{
    match parse_units(text) {
        ParseOutcome::Value(v) => {
            if 0 <= v && v <= 10_000_000_000_000_000 {
                let tenths = crate::fixed::round_div(v, 10_000_000_000);
                proof {
                    assert((10_000_000_000_000_000 + 5_000_000_000) / 10_000_000_000 == 1_000_000);
                    vstd::arithmetic::div_mod::lemma_div_is_ordered(
                        v as int + 5_000_000_000,
                        10_005_000_000_000_000,
                        10_000_000_000,
                    );
                }
                tenths
            } else {
                DEFAULT_SPREAD_TENTH_PIPS
            }
        },
        _ => DEFAULT_SPREAD_TENTH_PIPS,
    }
}

/// The unsigned-integer grammar of the pip-places field: an optional `+`,
/// then decimal digits only.
pub open spec fn uint_body(t: Seq<char>) -> Seq<char> {
    if t.len() > 0 && t[0] == '+' {
        t.subrange(1, t.len() as int)
    } else {
        t
    }
}

pub open spec fn is_valid_uint(t: Seq<char>) -> bool {
    let u = uint_body(t);
    u.len() > 0 && (forall|i: int| 0 <= i < u.len() ==> is_digit_char(u[i]))
}

pub open spec fn uint_value(t: Seq<char>) -> int {
    digits_value(uint_body(t))
}

/// The edit rule for the pip decimal places: a whole number from zero to
/// ten is kept; anything else resets the field to its default of four.
pub open spec fn spec_update_pip_places(s: Seq<char>) -> u32 {
    let t = spec_trim(s);
    if is_valid_uint(t) && uint_value(t) <= 10 {
        uint_value(t) as u32
    } else {
        DEFAULT_PIP_DECIMAL_PLACES
    }
}

/// Apply one committed edit of the pip-places field.
pub fn update_pip_places(text: &str) -> (r: u32)
    ensures
        r == spec_update_pip_places(text@),
        r <= 10,
{
    let ghost s = text@;
    let ghost t = spec_trim(s);
    let (start, end) = trim_range(text);
    if start == end {
        return DEFAULT_PIP_DECIMAL_PLACES;
    }
    proof {
        assert(t.len() == end - start);
        assert(t[0] == s[start as int]);
    }
    let c0 = text.get_char(start);
    let bstart = if c0 == '+' {
        start + 1
    } else {
        start
    };
    let ghost u = uint_body(t);
    proof {
        assert(u =~= s.subrange(bstart as int, end as int));
    }
    let blen = end - bstart;
    if blen == 0 {
        proof {
            assert(!is_valid_uint(t));
        }
        return DEFAULT_PIP_DECIMAL_PLACES;
    }
    let mut k: usize = 0;
    let mut acc: u32 = 0;
    let mut big = false;
    while k < blen
        invariant
            s == text@,
            t == spec_trim(s),
            u == uint_body(t),
            u =~= s.subrange(bstart as int, end as int),
            bstart + blen == end <= s.len(),
            u.len() == blen,
            k <= blen,
            forall|i: int| 0 <= i < k ==> is_digit_char(u[i]),
            !big ==> acc <= 10 && acc as int == digits_value(u.take(k as int)),
            big ==> digits_value(u.take(k as int)) >= 11,
        decreases blen - k,
    {
        let c = text.get_char(bstart + k);
        proof {
            assert(u[k as int] == s[bstart + k]);
            let u0 = u.take(k as int);
            let u1 = u.take(k as int + 1);
            assert(u1 =~= u0.push(u[k as int]));
            assert(u1.drop_last() =~= u0);
        }
        let v = c as u32;
        if v < 48 || v > 57 {
            proof {
                assert(!is_digit_char(u[k as int]));
                assert(!is_valid_uint(t));
            }
            return DEFAULT_PIP_DECIMAL_PLACES;
        }
        let d = v - 48;
        proof {
            assert(is_digit_char(u[k as int]) && digit_val(u[k as int]) == d);
            if big {
                let dv = digits_value(u.take(k as int));
                assert(dv * 10 >= dv);
            }
        }
        if !big {
            let na = acc * 10 + d;
            acc = na;
            if na >= 11 {
                big = true;
            }
        }
        k = k + 1;
    }
    proof {
        assert(u.take(blen as int) =~= u);
        assert(is_valid_uint(t));
    }
    if big {
        proof {
            assert(uint_value(t) >= 11);
        }
        return DEFAULT_PIP_DECIMAL_PLACES;
    }
    acc
}

proof fn lemma_ten_pow_11()
    ensures
        ten_pow(11) == 100_000_000_000,
{
    reveal_with_fuel(ten_pow, 12);
}

proof fn lemma_ten_pow_mono_11(e: nat)
    requires
        e <= 11,
    ensures
        ten_pow(e) <= 100_000_000_000,
{
    crate::fixed::lemma_ten_pow_mono(e, 11);
    lemma_ten_pow_11();
}

} // verus!
