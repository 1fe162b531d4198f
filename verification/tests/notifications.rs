use mw_levels::parse::{update_level, update_pip_places, update_spread};
use mw_levels::presenter::{
    render, shortcut_field, CopyField, Notifications, PatternInput, ResultsView, ViewModel,
};

fn sample_view() -> ResultsView {
    let cfg = mw_levels::engine::CalculatorConfig {
        spread_tenth_pips: update_spread("1.5"),
        pip_decimal_places: update_pip_places("4"),
    };
    let input = PatternInput {
        extreme: update_level(None, "1.2000"),
        neckline: update_level(None, "1.2050"),
    };
    match render(&input, &cfg) {
        ViewModel::Results(v) => v,
        ViewModel::InsufficientInput => panic!("expected results"),
    }
}

#[test]
fn copy_shows_notification_until_its_timeout() {
    let view = sample_view();
    let mut notifications = Notifications::new();
    let (text, token) = notifications.copy(CopyField::Entry, &view);
    assert_eq!(text.as_str(), "1.20505");
    assert_eq!(
        notifications.message.as_deref(),
        Some("Entry price copied!")
    );
    notifications.on_timeout(token);
    assert!(notifications.message.is_none());
}

#[test]
fn newer_copy_supersedes_older_timer() {
    let view = sample_view();
    let mut notifications = Notifications::new();
    let (_, stale_token) = notifications.copy(CopyField::Entry, &view);
    let (text, fresh_token) = notifications.copy(CopyField::StopLoss, &view);
    assert_eq!(text.as_str(), "1.19975");
    // the first notification's timer fires late: it must not clear the newer one
    notifications.on_timeout(stale_token);
    assert_eq!(notifications.message.as_deref(), Some("Stop loss copied!"));
    // the newer notification's own timer still dismisses it
    notifications.on_timeout(fresh_token);
    assert!(notifications.message.is_none());
}

#[test]
fn copy_take_profit_text_and_message() {
    let view = sample_view();
    let mut notifications = Notifications::new();
    let (text, _) = notifications.copy(CopyField::TakeProfit, &view);
    assert_eq!(text.as_str(), "1.21005");
    assert_eq!(
        notifications.message.as_deref(),
        Some("Take profit copied!")
    );
}

#[test]
fn keyboard_shortcuts_dispatch_copy_fields() {
    assert_eq!(shortcut_field('e'), Some(CopyField::Entry));
    assert_eq!(shortcut_field('E'), Some(CopyField::Entry));
    assert_eq!(shortcut_field('s'), Some(CopyField::StopLoss));
    assert_eq!(shortcut_field('S'), Some(CopyField::StopLoss));
    assert_eq!(shortcut_field('t'), Some(CopyField::TakeProfit));
    assert_eq!(shortcut_field('T'), Some(CopyField::TakeProfit));
    assert_eq!(shortcut_field('x'), None);
    assert_eq!(shortcut_field(' '), None);
}
