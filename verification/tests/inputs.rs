use mw_levels::parse::{update_level, update_pip_places, update_spread};

#[test]
fn level_edit_parses_plain_decimals() {
    assert_eq!(update_level(None, "1.2050"), Some(120_500_000_000));
    assert_eq!(update_level(None, "-1.2050"), Some(-120_500_000_000));
    assert_eq!(update_level(None, "+2"), Some(200_000_000_000));
    assert_eq!(update_level(None, ".5"), Some(50_000_000_000));
    assert_eq!(update_level(None, "3."), Some(300_000_000_000));
}

#[test]
fn level_edit_trims_whitespace() {
    assert_eq!(update_level(None, "  1.2050\t"), Some(120_500_000_000));
    assert_eq!(update_level(None, "\u{00A0}1.2050\u{2009}"), Some(120_500_000_000));
}

#[test]
fn empty_level_edit_clears_the_value() {
    assert_eq!(update_level(Some(120_500_000_000), ""), None);
    assert_eq!(update_level(Some(120_500_000_000), "   "), None);
}

#[test]
fn bad_level_edit_keeps_the_previous_value() {
    assert_eq!(update_level(Some(7), "abc"), Some(7));
    assert_eq!(update_level(Some(7), "1.2.3"), Some(7));
    assert_eq!(update_level(Some(7), "-"), Some(7));
    assert_eq!(update_level(Some(7), "."), Some(7));
}

#[test]
fn level_edit_parses_exponent_form() {
    assert_eq!(update_level(None, "1e5"), Some(10_000_000_000_000_000));
    assert_eq!(update_level(None, "1.5e2"), Some(15_000_000_000_000));
    assert_eq!(update_level(None, "2e-3"), Some(200_000_000));
    assert_eq!(update_level(None, "-1.2E1"), Some(-1_200_000_000_000));
    assert_eq!(update_level(None, "12e0"), Some(1_200_000_000_000));
}

#[test]
fn extreme_exponents_saturate() {
    // a zero mantissa survives any exponent
    assert_eq!(update_level(None, "0e999999999999999999999"), Some(0));
    // a nonzero mantissa with a huge exponent is out of range: keep previous
    assert_eq!(update_level(Some(7), "1e999999999999999999999"), Some(7));
    assert_eq!(update_level(Some(7), "1e7"), Some(7));
    // a huge negative exponent truncates to zero
    assert_eq!(update_level(None, "1e-999999999999999999999"), Some(0));
    assert_eq!(update_level(None, "1e-12"), Some(0));
}

#[test]
fn malformed_exponents_keep_the_previous_value() {
    assert_eq!(update_level(Some(7), "1e"), Some(7));
    assert_eq!(update_level(Some(7), "1e+"), Some(7));
    assert_eq!(update_level(Some(7), "e5"), Some(7));
    assert_eq!(update_level(Some(7), "1e5.5"), Some(7));
    assert_eq!(update_level(Some(7), "1e5e5"), Some(7));
}

#[test]
fn oversized_level_edit_keeps_the_previous_value() {
    // the integer part is capped below one million
    assert_eq!(update_level(Some(7), "1234567"), Some(7));
    assert_eq!(update_level(None, "999999"), Some(99_999_900_000_000_000));
}

#[test]
fn level_edit_ignores_digits_beyond_the_eleventh_place() {
    assert_eq!(update_level(None, "0.000000000019"), Some(1));
}

#[test]
fn spread_edit_keeps_tenths_of_a_pip() {
    assert_eq!(update_spread("1.5"), 15);
    assert_eq!(update_spread("0"), 0);
    assert_eq!(update_spread("1.25"), 13);
    assert_eq!(update_spread("1.24"), 12);
    assert_eq!(update_spread("20"), 200);
    assert_eq!(update_spread("1.5e1"), 150);
}

#[test]
fn bad_spread_edit_resets_to_default() {
    assert_eq!(update_spread(""), 15);
    assert_eq!(update_spread("abc"), 15);
    assert_eq!(update_spread("-1"), 15);
    assert_eq!(update_spread("200000"), 15);
}

#[test]
fn pip_places_edit_accepts_zero_to_ten() {
    assert_eq!(update_pip_places("0"), 0);
    assert_eq!(update_pip_places("7"), 7);
    assert_eq!(update_pip_places("10"), 10);
    assert_eq!(update_pip_places("+2"), 2);
}

#[test]
fn bad_pip_places_edit_resets_to_default() {
    assert_eq!(update_pip_places(""), 4);
    assert_eq!(update_pip_places("abc"), 4);
    assert_eq!(update_pip_places("11"), 4);
    assert_eq!(update_pip_places("4.0"), 4);
    assert_eq!(update_pip_places("-1"), 4);
}
