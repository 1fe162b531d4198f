use mw_levels::engine::{compute, CalculatorConfig, PatternKind};
use mw_levels::format::format_price;
use mw_levels::presenter::{render, PatternInput, ResultsView, ViewModel};

fn config(spread_text: &str, pip_text: &str) -> CalculatorConfig {
    CalculatorConfig {
        spread_tenth_pips: mw_levels::parse::update_spread(spread_text),
        pip_decimal_places: mw_levels::parse::update_pip_places(pip_text),
    }
}

fn results(input: &PatternInput, cfg: &CalculatorConfig) -> ResultsView {
    match render(input, cfg) {
        ViewModel::Results(v) => v,
        ViewModel::InsufficientInput => panic!("expected results"),
    }
}

fn level(text: &str) -> Option<i64> {
    mw_levels::parse::update_level(None, text)
}

#[test]
fn scenario_w_pattern() {
    let cfg = config("1.5", "4");
    let input = PatternInput { extreme: level("1.2000"), neckline: level("1.2050") };
    let v = results(&input, &cfg);
    assert_eq!(v.kind, PatternKind::W);
    assert_eq!(v.entry_text.as_str(), "1.20505");
    assert_eq!(v.stop_loss_text.as_str(), "1.19975");
    assert_eq!(v.take_profit_text.as_str(), "1.21005");
    assert_eq!(v.stop_distance_text.as_str(), "53.0");
    assert_eq!(v.take_profit_distance_text.as_str(), "50.0");
    assert_eq!(v.spread_ratio_text.as_str(), "35.3");
    assert!(!v.low_ratio_warning);
}

#[test]
fn scenario_m_pattern() {
    let cfg = config("1.5", "4");
    let input = PatternInput { extreme: level("1.2050"), neckline: level("1.2000") };
    let v = results(&input, &cfg);
    assert_eq!(v.kind, PatternKind::M);
    assert_eq!(v.entry_text.as_str(), "1.19995");
    assert_eq!(v.stop_loss_text.as_str(), "1.20525");
    assert_eq!(v.take_profit_text.as_str(), "1.19495");
    assert_eq!(v.stop_distance_text.as_str(), "53.0");
    assert_eq!(v.take_profit_distance_text.as_str(), "50.0");
    assert_eq!(v.spread_ratio_text.as_str(), "35.3");
    assert!(!v.low_ratio_warning);
}

#[test]
fn equal_levels_classify_as_m() {
    let cfg = config("1.5", "4");
    let e = level("1.2000").unwrap();
    let levels = compute(e, e, &cfg);
    assert_eq!(levels.kind, PatternKind::M);
}

#[test]
fn missing_extreme_is_insufficient_input() {
    let cfg = config("1.5", "4");
    let input = PatternInput { extreme: None, neckline: level("1.2000") };
    assert!(matches!(render(&input, &cfg), ViewModel::InsufficientInput));
}

#[test]
fn missing_neckline_is_insufficient_input() {
    let cfg = config("1.5", "4");
    let input = PatternInput { extreme: level("1.2000"), neckline: None };
    assert!(matches!(render(&input, &cfg), ViewModel::InsufficientInput));
}

#[test]
fn compute_is_idempotent() {
    let cfg = config("1.5", "4");
    let e = level("1.2000").unwrap();
    let n = level("1.2050").unwrap();
    let first = compute(e, n, &cfg);
    let second = compute(e, n, &cfg);
    assert_eq!(first, second);
}

#[test]
fn price_texts_have_pip_places_plus_one_digits() {
    let cfg4 = config("1.5", "4");
    let input = PatternInput { extreme: level("1.2000"), neckline: level("1.2050") };
    let v = results(&input, &cfg4);
    for text in [&v.entry_text, &v.stop_loss_text, &v.take_profit_text] {
        let frac = text.split('.').nth(1).expect("a decimal point");
        assert_eq!(frac.len(), 5);
    }
    let cfg0 = config("1.5", "0");
    let input0 = PatternInput { extreme: level("100"), neckline: level("105") };
    let v0 = results(&input0, &cfg0);
    for text in [&v0.entry_text, &v0.stop_loss_text, &v0.take_profit_text] {
        let frac = text.split('.').nth(1).expect("a decimal point");
        assert_eq!(frac.len(), 1);
    }
}

#[test]
fn zero_spread_shows_infinite_ratio_without_warning() {
    let cfg = config("0", "4");
    let input = PatternInput { extreme: level("1.2000"), neckline: level("1.2050") };
    let v = results(&input, &cfg);
    assert_eq!(v.spread_ratio_text.as_str(), "inf");
    assert!(!v.low_ratio_warning);
}

#[test]
fn tight_stop_raises_low_ratio_warning() {
    let cfg = config("1.5", "4");
    let input = PatternInput { extreme: level("1.2000"), neckline: level("1.2001") };
    let v = results(&input, &cfg);
    // one pip between the levels: 4 pips to the stop against a 15 pip floor
    assert_eq!(v.stop_distance_text.as_str(), "4.0");
    assert_eq!(v.spread_ratio_text.as_str(), "2.7");
    assert!(v.low_ratio_warning);
}

#[test]
fn format_price_rounds_to_displayed_precision() {
    // 1.23456789 at four pip places displays five digits, rounded
    assert_eq!(format_price(123_456_789_000, 4).as_str(), "1.23457");
    // negative values keep their sign
    assert_eq!(format_price(-150_000_000_000, 4).as_str(), "-1.50000");
    assert_eq!(format_price(0, 4).as_str(), "0.00000");
}

#[test]
fn take_profit_is_one_risk_unit_less_exit_buffer() {
    let cfg = config("1.5", "4");
    let e = level("1.2000").unwrap();
    let n = level("1.2050").unwrap();
    let levels = compute(e, n, &cfg);
    // W: tp - neckline == (neckline - stop) - (spread + half pip), in units
    let exit_buffer: i64 = 15 * 1_000_000 + 5_000_000;
    assert_eq!(
        levels.take_profit_units - n,
        (n - levels.stop_loss_units) - exit_buffer
    );
    let m_levels = compute(n, e, &cfg);
    assert_eq!(
        e - m_levels.take_profit_units,
        (m_levels.stop_loss_units - e) - exit_buffer
    );
}
