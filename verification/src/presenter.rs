//! Presentation of the derived levels, and the presenter's own transient
//! state: the copy notification with its supersedable auto-dismiss timer,
//! and the keyboard shortcut dispatch.
//!
//! [`render`] turns the stored inputs into a view model: an explicit
//! "insufficient input" state while either pattern level is absent, and the
//! formatted derived levels otherwise. A copy action returns the text for
//! the clipboard together with a timer token; a timeout with a stale token
//! — one superseded by a newer copy action — changes nothing.

use vstd::prelude::*;
use vstd::string::*;

use crate::engine::{
    compute, config_wf, in_level_range, spec_compute, CalculatorConfig, PatternKind,
};
use crate::fixed::{pow10, round_div, spec_round_div, ten_pow};
use crate::format::{format_price, format_scaled, spec_fmt_fixed, spec_price_text};

verus! {

/// The two user-entered pattern levels, in `10^-11` price units; a level is
/// absent until the user has committed a valid number for it.
#[derive(Clone, Copy, Debug)]
pub struct PatternInput {
    pub extreme: Option<i64>,
    pub neckline: Option<i64>,
}

/// Both stored levels, where present, lie in the accepted price range.
pub open spec fn pattern_input_wf(input: PatternInput) -> bool {
    &&& (input.extreme matches Some(v) ==> in_level_range(v as int))
    &&& (input.neckline matches Some(v) ==> in_level_range(v as int))
}

/// The formatted results panel.
#[derive(Clone, Debug)]
pub struct ResultsView {
    pub kind: PatternKind,
    pub entry_text: String,
    pub stop_loss_text: String,
    pub take_profit_text: String,
    pub stop_distance_text: String,
    pub take_profit_distance_text: String,
    pub spread_ratio_text: String,
    pub low_ratio_warning: bool,
}

/// What the view shows: either an explicit request for both levels, or the
/// formatted results.
#[derive(Clone, Debug)]
pub enum ViewModel {
    InsufficientInput,
    Results(ResultsView),
}

/// The displayed text of a pip distance held in `10^-11` price units:
/// rounded to a tenth of a pip and rendered with one fractional digit.
pub open spec fn spec_distance_text(dist_units: int, d: int) -> Seq<char> {
    spec_fmt_fixed(spec_round_div(dist_units, ten_pow((10 - d) as nat) as int), 1)
}

/// The displayed text of the spread ratio — the stop distance in pips over
/// the spread in pips — rendered with one fractional digit. A zero spread
/// makes the ratio infinite; it is displayed as `inf`.
pub open spec fn spec_ratio_text(dist_units: int, spread_tenths: int, d: int) -> Seq<char> {
    if spread_tenths == 0 {
        "inf"@
    } else {
        spec_fmt_fixed(
            spec_round_div(dist_units * 10, spread_tenths * ten_pow((10 - d) as nat) as int),
            1,
        )
    }
}

/// Build the view model for the current inputs: the insufficient-input
/// state while either level is absent, and otherwise the derived levels of
/// [`compute`], each formatted as its display rule demands.
pub fn render(input: &PatternInput, config: &CalculatorConfig) -> (r: ViewModel)
    requires
        config_wf(*config),
        pattern_input_wf(*input),
    ensures
        ((input.extreme is None || input.neckline is None) <==> r is InsufficientInput),
        input.extreme matches Some(e) ==> (input.neckline matches Some(n) ==> (
        r matches ViewModel::Results(v) && {
            let m = spec_compute(
                e as int,
                n as int,
                config.spread_tenth_pips as int,
                config.pip_decimal_places as int,
            );
            let d = config.pip_decimal_places as int;
            &&& v.kind == m.kind
            &&& v.entry_text@ == spec_price_text(m.entry, d)
            &&& v.stop_loss_text@ == spec_price_text(m.stop_loss, d)
            &&& v.take_profit_text@ == spec_price_text(m.take_profit, d)
            &&& v.stop_distance_text@ == spec_distance_text(m.stop_distance, d)
            &&& v.take_profit_distance_text@ == spec_distance_text(m.take_profit_distance, d)
            &&& v.spread_ratio_text@ == spec_ratio_text(
                m.stop_distance,
                config.spread_tenth_pips as int,
                d,
            )
            &&& v.low_ratio_warning == m.low_ratio_warning
        })),
{
    match (input.extreme, input.neckline) {
        (Some(extreme), Some(neckline)) => {
            let levels = compute(extreme, neckline, config);
            proof {
                crate::engine::lemma_compute_in_format_range(
                    extreme as int,
                    neckline as int,
                    config.spread_tenth_pips as int,
                    config.pip_decimal_places as int,
                );
            }
            let d = config.pip_decimal_places;
            let sub_pip = pow10(10 - d);
            let stop_distance_tenths = round_div(levels.stop_distance_units, sub_pip);
            let take_profit_distance_tenths = round_div(
                levels.take_profit_distance_units,
                sub_pip,
            );
            let spread_ratio_text = if config.spread_tenth_pips == 0 {
                "inf".to_owned()
            } else {
                let den = config.spread_tenth_pips * sub_pip;
                proof {
                    crate::fixed::lemma_ten_pow_mono((10 - d) as nat, 10);
                    assert(ten_pow(10) == 10_000_000_000) by {
                        reveal_with_fuel(ten_pow, 11);
                    }
                    let st = config.spread_tenth_pips as int;
                    let sp = sub_pip as int;
                    assert(1 <= st * sp <= 1_000_000 * 10_000_000_000) by (nonlinear_arith)
                        requires
                            1 <= st <= 1_000_000,
                            1 <= sp <= 10_000_000_000,
                    ;
                }
                let ratio_tenths = round_div(levels.stop_distance_units * 10, den);
                format_scaled(ratio_tenths, 1)
            };
            ViewModel::Results(
                ResultsView {
                    kind: levels.kind,
                    entry_text: format_price(levels.entry_units, d),
                    stop_loss_text: format_price(levels.stop_loss_units, d),
                    take_profit_text: format_price(levels.take_profit_units, d),
                    stop_distance_text: format_scaled(stop_distance_tenths, 1),
                    take_profit_distance_text: format_scaled(take_profit_distance_tenths, 1),
                    spread_ratio_text,
                    low_ratio_warning: levels.low_ratio_warning,
                },
            )
        },
        _ => ViewModel::InsufficientInput,
    }
}

/// The three derived values a copy action can target.
#[derive(PartialEq, Eq, Structural, Clone, Copy, Debug)]
pub enum CopyField {
    Entry,
    StopLoss,
    TakeProfit,
}

/// The notification text of a copy action.
pub open spec fn copy_message(field: CopyField) -> Seq<char> {
    match field {
        CopyField::Entry => "Entry price copied!"@,
        CopyField::StopLoss => "Stop loss copied!"@,
        CopyField::TakeProfit => "Take profit copied!"@,
    }
}

/// The formatted text a copy action puts on the clipboard.
pub open spec fn copy_text(field: CopyField, view: ResultsView) -> Seq<char> {
    match field {
        CopyField::Entry => view.entry_text@,
        CopyField::StopLoss => view.stop_loss_text@,
        CopyField::TakeProfit => view.take_profit_text@,
    }
}

/// How long a copy notification stays visible before its one-shot timer
/// dismisses it, unless a newer copy action supersedes it first. The
/// library owns this rule; the shell only schedules the delay.
pub const DISMISS_AFTER_MS: u64 = 2000;

/// The presenter's transient state: the copy notification, if one is
/// showing, and the generation count of copy actions. Each copy action
/// raises the generation and hands the new value out as the token of its
/// auto-dismiss timer, so the timer of a superseded notification holds a
/// stale token.
#[derive(Debug)]
pub struct Notifications {
    pub message: Option<String>,
    pub generation: u64,
}

/// What a timeout does: clear the notification if the token is current,
/// nothing if it is stale.
pub open spec fn spec_on_timeout(s: Notifications, token: u64) -> Notifications {
    if token == s.generation {
        Notifications { message: None, generation: s.generation }
    } else {
        s
    }
}

impl Notifications {
    /// The initial state: no notification showing.
    pub fn new() -> (r: Self)
        ensures
            r.message is None,
            r.generation == 0,
    {
        Notifications { message: None, generation: 0 }
    }

    /// Fire a copy action for `field`: raise the generation, show the
    /// field's notification, and return the text for the clipboard together
    /// with the timer token of this notification.
    pub fn copy(&mut self, field: CopyField, view: &ResultsView) -> (r: (String, u64))
        requires
            old(self).generation < u64::MAX,
        ensures
            final(self).generation == old(self).generation + 1,
            final(self).message matches Some(m) && m@ == copy_message(field),
            r.0@ == copy_text(field, *view),
            r.1 == final(self).generation,
    {
        self.generation = self.generation + 1;
        let (label, text) = match field {
            CopyField::Entry => ("Entry price copied!", view.entry_text.clone()),
            CopyField::StopLoss => ("Stop loss copied!", view.stop_loss_text.clone()),
            CopyField::TakeProfit => ("Take profit copied!", view.take_profit_text.clone()),
        };
        self.message = Some(label.to_owned());
        (text, self.generation)
    }

    /// The auto-dismiss timer for token `token` fired: clear the
    /// notification only if that token is still current.
    pub fn on_timeout(&mut self, token: u64)
        ensures
            *final(self) == spec_on_timeout(*old(self), token),
    {
        if token == self.generation {
            self.message = None;
        }
    }
}

/// The supersession law: when a later copy action has raised the generation
/// past an earlier timer token, that stale token's timeout changes nothing
/// — it never clears the newer notification — while the newer
/// notification's own token still dismisses it.
pub proof fn lemma_timer_supersession(s: Notifications, stale: u64)
    requires
        stale != s.generation,
    ensures
        spec_on_timeout(s, stale) == s,
        spec_on_timeout(s, s.generation).message is None,
        spec_on_timeout(s, s.generation).generation == s.generation,
{
}

/// The keyboard rule: which copy action a key press triggers. `e`, `s` and
/// `t` (either case) copy the entry, the stop-loss and the take-profit;
/// every other key does nothing.
pub open spec fn spec_shortcut_field(key: char) -> Option<CopyField> {
    if key == 'e' || key == 'E' {
        Some(CopyField::Entry)
    } else if key == 's' || key == 'S' {
        Some(CopyField::StopLoss)
    } else if key == 't' || key == 'T' {
        Some(CopyField::TakeProfit)
    } else {
        None
    }
}

/// Dispatch a key press on the results panel.
pub fn shortcut_field(key: char) -> (r: Option<CopyField>)
    ensures
        r == spec_shortcut_field(key),
{
    if key == 'e' || key == 'E' {
        Some(CopyField::Entry)
    } else if key == 's' || key == 'S' {
        Some(CopyField::StopLoss)
    } else if key == 't' || key == 'T' {
        Some(CopyField::TakeProfit)
    } else {
        None
    }
}

} // verus!
