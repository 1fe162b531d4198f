//! Verified decimal rendering.
//!
//! Every displayed quantity is a fixed-point integer: a price level is a
//! count of `10^-11` price units rendered with `d + 1` fractional digits
//! (one sub-pip digit more than the pip granularity `d`), and pip distances
//! are counts of tenths of a pip rendered with one fractional digit.

use vstd::prelude::*;
use vstd::string::*;

use crate::fixed::{pow10, round_div, spec_round_div, ten_pow};

verus! {

/// The decimal digit character for `d` in `0 ..= 9`.
pub open spec fn digit_char(d: int) -> char {
    if d == 0 {
        '0'
    } else if d == 1 {
        '1'
    } else if d == 2 {
        '2'
    } else if d == 3 {
        '3'
    } else if d == 4 {
        '4'
    } else if d == 5 {
        '5'
    } else if d == 6 {
        '6'
    } else if d == 7 {
        '7'
    } else if d == 8 {
        '8'
    } else {
        '9'
    }
}

/// The decimal numeral of `n`, most significant digit first, without
/// leading zeros (`0` itself is the single digit `0`).
pub open spec fn spec_digits(n: nat) -> Seq<char>
    decreases n,
{
    if n < 10 {
        seq![digit_char(n as int)]
    } else {
        spec_digits(n / 10).push(digit_char((n % 10) as int))
    }
}

/// The last `w` decimal digits of `n`, zero-padded to exactly `w`
/// characters.
pub open spec fn spec_padded(n: nat, w: nat) -> Seq<char>
    decreases w,
{
    if w == 0 {
        Seq::<char>::empty()
    } else {
        spec_padded(n / 10, (w - 1) as nat).push(digit_char((n % 10) as int))
    }
}

/// The decimal rendering of the fixed-point value `scaled / 10^frac` with a
/// leading `-` for negative values and exactly `frac` digits after the
/// point.
pub open spec fn spec_fmt_fixed(scaled: int, frac: nat) -> Seq<char> {
    let mag = (if scaled >= 0 {
        scaled
    } else {
        -scaled
    }) as nat;
    let sign: Seq<char> = if scaled < 0 {
        seq!['-']
    } else {
        Seq::<char>::empty()
    };
    sign + spec_digits(mag / ten_pow(frac)) + seq!['.'] + spec_padded(mag % ten_pow(frac), frac)
}

fn digit_str(d: u64) -> (r: &'static str)
    requires
        d < 10,
    ensures
        r@ == seq![digit_char(d as int)],
{
    let r: &'static str = if d == 0 {
        "0"
    } else if d == 1 {
        "1"
    } else if d == 2 {
        "2"
    } else if d == 3 {
        "3"
    } else if d == 4 {
        "4"
    } else if d == 5 {
        "5"
    } else if d == 6 {
        "6"
    } else if d == 7 {
        "7"
    } else if d == 8 {
        "8"
    } else {
        "9"
    };
    proof {
        reveal_strlit("0");
        reveal_strlit("1");
        reveal_strlit("2");
        reveal_strlit("3");
        reveal_strlit("4");
        reveal_strlit("5");
        reveal_strlit("6");
        reveal_strlit("7");
        reveal_strlit("8");
        reveal_strlit("9");
        assert(r@ =~= seq![digit_char(d as int)]);
    }
    r
}

/// Append the decimal numeral of `n` to `out`.
fn push_digits(out: &mut String, n: u64)
    ensures
        final(out)@ == old(out)@ + spec_digits(n as nat),
    decreases n,
{
    if n >= 10 {
        push_digits(out, n / 10);
    }
    let ds = digit_str(n % 10);
    out.append(ds);
    proof {
        if n >= 10 {
            assert(spec_digits(n as nat) == spec_digits(n as nat / 10).push(
                digit_char((n % 10) as int),
            ));
            assert(out@ =~= old(out)@ + spec_digits(n as nat));
        } else {
            assert(spec_digits(n as nat) == seq![digit_char(n as int)]);
            assert(out@ =~= old(out)@ + spec_digits(n as nat));
        }
    }
}

/// Append the last `w` decimal digits of `n`, zero-padded to width `w`.
fn push_padded(out: &mut String, n: u64, w: u32)
    ensures
        final(out)@ == old(out)@ + spec_padded(n as nat, w as nat),
    decreases w,
{
    if w > 0 {
        push_padded(out, n / 10, w - 1);
        let ds = digit_str(n % 10);
        out.append(ds);
        proof {
            assert(spec_padded(n as nat, w as nat) == spec_padded(n as nat / 10, (w - 1) as nat).push(
                digit_char((n % 10) as int),
            ));
            assert(out@ =~= old(out)@ + spec_padded(n as nat, w as nat));
        }
    } else {
        proof {
            assert(out@ =~= old(out)@ + spec_padded(n as nat, 0));
        }
    }
}

/// Render the fixed-point value `scaled / 10^frac` as a decimal numeral
/// with exactly `frac` fractional digits.
pub fn format_scaled(scaled: i64, frac: u32) -> (r: String)
    requires
        1 <= frac <= 11,
        -4_000_000_000_000_000_000 <= scaled <= 4_000_000_000_000_000_000,
    ensures
        r@ == spec_fmt_fixed(scaled as int, frac as nat),
{
    let ghost mag_spec = (if scaled >= 0 {
        scaled as int
    } else {
        -(scaled as int)
    }) as nat;
    let mut out = String::new();
    if scaled < 0 {
        out.append("-");
    }
    let mag: u64 = if scaled < 0 {
        (-scaled) as u64
    } else {
        scaled as u64
    };
    let p = pow10(frac) as u64;
    let ip = mag / p;
    let fp = mag % p;
    push_digits(&mut out, ip);
    out.append(".");
    push_padded(&mut out, fp, frac);
    proof {
        reveal_strlit("-");
        reveal_strlit(".");
        assert(ip as nat == mag_spec / ten_pow(frac as nat));
        assert(fp as nat == mag_spec % ten_pow(frac as nat));
        assert(out@ =~= spec_fmt_fixed(scaled as int, frac as nat));
    }
    out
}

/// The displayed text of a price level held in `10^-11` units, at pip
/// granularity `d`: the value rounded to the nearest tenth of a pip (halves
/// away from zero) and rendered with `d + 1` fractional digits.
pub open spec fn spec_price_text(units: int, d: int) -> Seq<char> {
    spec_fmt_fixed(spec_round_div(units, ten_pow((10 - d) as nat) as int), (d + 1) as nat)
}

/// Render a price level with `d + 1` fractional digits.
pub fn format_price(units: i64, d: u32) -> (r: String)
    requires
        d <= 10,
        -1_000_000_000_000_000_000 <= units <= 1_000_000_000_000_000_000,
    ensures
        r@ == spec_price_text(units as int, d as int),
{
    let den = pow10(10 - d);
    let scaled = round_div(units, den);
    format_scaled(scaled, d + 1)
}

/// No decimal numeral contains a point, and none is empty.
pub proof fn lemma_digits_not_dot(n: nat)
    ensures
        spec_digits(n).len() >= 1,
        forall|i: int| 0 <= i < spec_digits(n).len() ==> spec_digits(n)[i] != '.',
    decreases n,
{
    if n >= 10 {
        lemma_digits_not_dot(n / 10);
    }
}

/// A zero-padded numeral has exactly its requested width and contains no
/// point.
pub proof fn lemma_padded_not_dot(n: nat, w: nat)
    ensures
        spec_padded(n, w).len() == w,
        forall|i: int| 0 <= i < w ==> spec_padded(n, w)[i] != '.',
    decreases w,
{
    if w > 0 {
        lemma_padded_not_dot(n / 10, (w - 1) as nat);
    }
}

/// The formatting law: a rendered fixed-point value contains exactly one
/// decimal point, and exactly `frac` characters follow it.
pub proof fn lemma_fmt_fixed_dot(scaled: int, frac: nat)
    ensures
        ({
            let s = spec_fmt_fixed(scaled, frac);
            &&& s.len() >= frac + 2
            &&& s[s.len() - 1 - frac] == '.'
            &&& forall|i: int| 0 <= i < s.len() && i != s.len() - 1 - frac ==> s[i] != '.'
        }),
{
    let mag = (if scaled >= 0 {
        scaled
    } else {
        -scaled
    }) as nat;
    lemma_digits_not_dot(mag / ten_pow(frac));
    lemma_padded_not_dot(mag % ten_pow(frac), frac);
}

/// The price-formatting law: the text of any price level at pip granularity
/// `d` has exactly one decimal point, with exactly `d + 1` digits after it.
pub proof fn lemma_price_text_digits(units: int, d: int)
    requires
        0 <= d <= 10,
    ensures
        ({
            let s = spec_price_text(units, d);
            &&& s.len() >= d + 3
            &&& s[s.len() - 2 - d] == '.'
            &&& forall|i: int| 0 <= i < s.len() && i != s.len() - 2 - d ==> s[i] != '.'
        }),
{
    lemma_fmt_fixed_dot(spec_round_div(units, ten_pow((10 - d) as nat) as int), (d + 1) as nat);
}

} // verus!
