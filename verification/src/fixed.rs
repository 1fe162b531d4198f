//! The fixed-point ground layer: powers of ten and rounding division.
//!
//! A price is an `i64` count of `10^-11` price units; eleven fractional
//! digits cover every pip granularity the calculator accepts (`0` to `10`
//! pip decimal places, displayed with one extra sub-pip digit).

use vstd::prelude::*;

verus! {

/// Largest magnitude (exclusive) a price level may have, in `10^-11` units:
/// `10^17`, i.e. price magnitudes below one million.
pub const LEVEL_LIMIT: i64 = 100_000_000_000_000_000;

/// `10^e` as a mathematical integer.
pub open spec fn ten_pow(e: nat) -> nat
    decreases e,
{
    if e == 0 {
        1
    } else {
        10 * ten_pow((e - 1) as nat)
    }
}

pub proof fn lemma_ten_pow_pos(e: nat)
    ensures
        ten_pow(e) >= 1,
    decreases e,
{
    if e > 0 {
        lemma_ten_pow_pos((e - 1) as nat);
    }
}

pub proof fn lemma_ten_pow_mono(a: nat, b: nat)
    requires
        a <= b,
    ensures
        ten_pow(a) <= ten_pow(b),
    decreases b,
{
    if a < b {
        lemma_ten_pow_mono(a, (b - 1) as nat);
        lemma_ten_pow_pos((b - 1) as nat);
    }
}

pub proof fn lemma_ten_pow_add(a: nat, b: nat)
    ensures
        ten_pow(a + b) == ten_pow(a) * ten_pow(b),
    decreases a,
{
    if a == 0 {
        assert(ten_pow(b) == 1 * ten_pow(b));
    } else {
        lemma_ten_pow_add((a - 1) as nat, b);
        assert(ten_pow(a + b) == 10 * ten_pow((a + b - 1) as nat));
        assert(10 * (ten_pow((a - 1) as nat) * ten_pow(b)) == (10 * ten_pow((a - 1) as nat))
            * ten_pow(b)) by (nonlinear_arith);
    }
}

pub proof fn lemma_ten_pow_18()
    ensures
        ten_pow(18) == 1_000_000_000_000_000_000,
{
    reveal_with_fuel(ten_pow, 19);
    assert(ten_pow(18) == 1_000_000_000_000_000_000);
}

/// `10^e` as an executable value.
pub fn pow10(e: u32) -> (r: i64)
    requires
        e <= 18,
    ensures
        r == ten_pow(e as nat),
        1 <= r <= 1_000_000_000_000_000_000,
{
    let mut i: u32 = 0;
    let mut acc: i64 = 1;
    while i < e
        invariant
            i <= e <= 18,
            acc == ten_pow(i as nat),
        decreases e - i,
    {
        proof {
            assert(ten_pow((i + 1) as nat) == 10 * ten_pow(i as nat));
            lemma_ten_pow_mono((i + 1) as nat, 18);
            lemma_ten_pow_18();
        }
        acc = acc * 10;
        i = i + 1;
    }
    proof {
        lemma_ten_pow_mono(e as nat, 18);
        lemma_ten_pow_18();
        lemma_ten_pow_pos(e as nat);
    }
    acc
}

/// Division rounded to the nearest integer, halves away from zero.
pub open spec fn spec_round_div(n: int, den: int) -> int {
    if n >= 0 {
        (n + den / 2) / den
    } else {
        -((-n + den / 2) / den)
    }
}

proof fn lemma_round_div_nonneg_le(n: int, den: int)
    requires
        n >= 0,
        den >= 1,
    ensures
        0 <= (n + den / 2) / den <= n,
{
    let h = den / 2;
    assert(0 <= h <= den - 1);
    assert((n + h) / den >= 0) by {
        vstd::arithmetic::div_mod::lemma_div_pos_is_pos(n + h, den);
    }
    assert(n + h <= n * den + den - 1) by {
        if den == 1 {
            assert(h == 0);
        } else {
            assert(n * den >= n) by (nonlinear_arith)
                requires
                    n >= 0,
                    den >= 1,
            ;
        }
    }
    assert((n + h) / den <= (n * den + den - 1) / den) by {
        vstd::arithmetic::div_mod::lemma_div_is_ordered(n + h, n * den + den - 1, den);
    }
    assert((n * den + den - 1) / den == n) by {
        vstd::arithmetic::div_mod::lemma_fundamental_div_mod_converse(
            n * den + den - 1,
            den,
            n,
            den - 1,
        );
    }
}

/// Bounds of the rounded quotient: it never exceeds the dividend's magnitude.
pub proof fn lemma_round_div_bounds(n: int, den: int)
    requires
        den >= 1,
    ensures
        n >= 0 ==> 0 <= spec_round_div(n, den) <= n,
        n < 0 ==> n <= spec_round_div(n, den) <= 0,
{
    if n >= 0 {
        lemma_round_div_nonneg_le(n, den);
    } else {
        lemma_round_div_nonneg_le(-n, den);
    }
}

/// Divide, rounding to the nearest integer with halves away from zero.
pub fn round_div(n: i64, den: i64) -> (r: i64)
    requires
        1 <= den <= 1_000_000_000_000_000_000,
        -4_000_000_000_000_000_000 <= n <= 4_000_000_000_000_000_000,
    ensures
        r == spec_round_div(n as int, den as int),
        n >= 0 ==> 0 <= r <= n,
        n < 0 ==> n <= r <= 0,
{
    proof {
        lemma_round_div_bounds(n as int, den as int);
    }
    if n >= 0 {
        let m = (n as u64) + (den as u64) / 2;
        (m / (den as u64)) as i64
    } else {
        let m = ((-n) as u64) + (den as u64) / 2;
        -((m / (den as u64)) as i64)
    }
}

} // verus!
