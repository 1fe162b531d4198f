//! Derivation of trade levels from a detected M or W pattern.
//!
//! All prices are counts of `10^-11` price units (see [`crate::fixed`]); the
//! broker spread is a count of tenths of a pip. With `d` pip decimal places,
//! one pip is `10^(11-d)` units, so every derived level stays on the grid of
//! one tenth of a pip — the precision every level is displayed with.

use vstd::prelude::*;

use crate::fixed::{ten_pow, LEVEL_LIMIT};

verus! {

/// Which pattern the two levels form: `W` (double bottom, a long trade) or
/// `M` (double top, a short trade).
#[derive(PartialEq, Eq, Structural, Clone, Copy, Debug)]
pub enum PatternKind {
    W,
    M,
}

/// The two user-configured quantities: the broker spread, in tenths of a
/// pip, and the pip granularity, as the number of decimal places of one pip.
#[derive(PartialEq, Eq, Structural, Clone, Copy, Debug)]
pub struct CalculatorConfig {
    pub spread_tenth_pips: i64,
    pub pip_decimal_places: u32,
}

/// Default broker spread: 1.5 pips.
pub const DEFAULT_SPREAD_TENTH_PIPS: i64 = 15;

/// Default pip granularity: 4 decimal places.
pub const DEFAULT_PIP_DECIMAL_PLACES: u32 = 4;

/// Largest accepted spread, in tenths of a pip.
pub const SPREAD_LIMIT: i64 = 1_000_000;

/// A configuration the engine accepts: a nonnegative, bounded spread and at
/// most ten pip decimal places.
pub open spec fn config_wf(c: CalculatorConfig) -> bool {
    &&& 0 <= c.spread_tenth_pips <= SPREAD_LIMIT
    &&& c.pip_decimal_places <= 10
}

/// A price level the engine accepts: strictly within `10^18` units either
/// way, so that every derived level still fits an `i64`.
pub open spec fn in_level_range(v: int) -> bool {
    -(LEVEL_LIMIT as int) < v < LEVEL_LIMIT as int
}

/// One pip, in `10^-11` price units: `10^(11-d)` for `d` pip decimal places.
pub open spec fn pip_units(d: int) -> int {
    ten_pow((11 - d) as nat) as int
}

/// Half a pip, in price units.
pub open spec fn half_pip_units(d: int) -> int {
    pip_units(d) / 2
}

/// The broker spread, converted from tenths of a pip to price units.
pub open spec fn spread_units(spread_tenths: int, d: int) -> int {
    spread_tenths * ten_pow((10 - d) as nat)
}

/// The classification rule: a neckline strictly above the extreme is a W
/// (double bottom); anything else — equality included — is an M.
pub open spec fn is_w(extreme: int, neckline: int) -> bool {
    neckline > extreme
}

pub open spec fn abs_units(v: int) -> int {
    if v >= 0 {
        v
    } else {
        -v
    }
}

/// The derived levels, as unbounded integers: the mathematical model of
/// [`DerivedLevels`].
pub struct LevelsModel {
    pub kind: PatternKind,
    pub entry: int,
    pub stop_loss: int,
    pub take_profit: int,
    pub stop_distance: int,
    pub take_profit_distance: int,
    pub low_ratio_warning: bool,
}

/// Entry price: the neckline, buffered by half a pip in the direction of the
/// trade.
pub open spec fn spec_entry(extreme: int, neckline: int, d: int) -> int {
    if is_w(extreme, neckline) {
        neckline + half_pip_units(d)
    } else {
        neckline - half_pip_units(d)
    }
}

/// Stop-loss price: the extreme level, buffered by the spread plus one pip
/// away from the trade.
pub open spec fn spec_stop_loss(extreme: int, neckline: int, spread_tenths: int, d: int) -> int {
    if is_w(extreme, neckline) {
        extreme - (spread_units(spread_tenths, d) + pip_units(d))
    } else {
        extreme + (spread_units(spread_tenths, d) + pip_units(d))
    }
}

/// Take-profit price: one risk unit (neckline to stop-loss) beyond the
/// neckline, pulled back by the spread plus half a pip for the exit leg.
pub open spec fn spec_take_profit(extreme: int, neckline: int, spread_tenths: int, d: int) -> int {
    let stop = spec_stop_loss(extreme, neckline, spread_tenths, d);
    let exit_buffer = spread_units(spread_tenths, d) + half_pip_units(d);
    if is_w(extreme, neckline) {
        neckline + (neckline - stop) - exit_buffer
    } else {
        neckline - (stop - neckline) + exit_buffer
    }
}

/// The warning rule: the distance from entry to stop-loss is less than ten
/// times the broker spread. Expressed in units this is
/// `|entry - stop| < spread_tenths * pip_units(d)`, an exact comparison;
/// with a zero spread the ratio is infinite and no warning is due.
pub open spec fn spec_low_ratio_warning(
    extreme: int,
    neckline: int,
    spread_tenths: int,
    d: int,
) -> bool {
    abs_units(
        spec_entry(extreme, neckline, d) - spec_stop_loss(extreme, neckline, spread_tenths, d),
    ) < spread_tenths * pip_units(d)
}

/// The whole derivation as one mathematical function of the inputs.
pub open spec fn spec_compute(extreme: int, neckline: int, spread_tenths: int, d: int) -> LevelsModel {
    let entry = spec_entry(extreme, neckline, d);
    let stop = spec_stop_loss(extreme, neckline, spread_tenths, d);
    let tp = spec_take_profit(extreme, neckline, spread_tenths, d);
    LevelsModel {
        kind: if is_w(extreme, neckline) {
            PatternKind::W
        } else {
            PatternKind::M
        },
        entry: entry,
        stop_loss: stop,
        take_profit: tp,
        stop_distance: abs_units(entry - stop),
        take_profit_distance: abs_units(tp - entry),
        low_ratio_warning: spec_low_ratio_warning(extreme, neckline, spread_tenths, d),
    }
}

/// The derived levels, in `10^-11` price units.
#[derive(PartialEq, Eq, Structural, Clone, Copy, Debug)]
pub struct DerivedLevels {
    pub kind: PatternKind,
    pub entry_units: i64,
    pub stop_loss_units: i64,
    pub take_profit_units: i64,
    pub stop_distance_units: i64,
    pub take_profit_distance_units: i64,
    pub low_ratio_warning: bool,
}

impl View for DerivedLevels {
    type V = LevelsModel;

    open spec fn view(&self) -> LevelsModel {
        LevelsModel {
            kind: self.kind,
            entry: self.entry_units as int,
            stop_loss: self.stop_loss_units as int,
            take_profit: self.take_profit_units as int,
            stop_distance: self.stop_distance_units as int,
            take_profit_distance: self.take_profit_distance_units as int,
            low_ratio_warning: self.low_ratio_warning,
        }
    }
}

proof fn lemma_spread_units_bound(spread_tenths: int, d: int)
    requires
        0 <= spread_tenths <= SPREAD_LIMIT,
        0 <= d <= 10,
    ensures
        0 <= spread_units(spread_tenths, d) <= 10_000_000_000_000_000,
{
    let p = ten_pow((10 - d) as nat) as int;
    crate::fixed::lemma_ten_pow_pos((10 - d) as nat);
    crate::fixed::lemma_ten_pow_mono((10 - d) as nat, 10);
    crate::fixed::lemma_ten_pow_mono(10, 18);
    crate::fixed::lemma_ten_pow_18();
    assert(ten_pow(10) == 10_000_000_000) by {
        reveal_with_fuel(ten_pow, 11);
    }
    assert(0 <= spread_tenths * p <= 1_000_000 * 10_000_000_000) by (nonlinear_arith)
        requires
            0 <= spread_tenths <= 1_000_000,
            1 <= p <= 10_000_000_000,
    ;
}

proof fn lemma_pip_units_bound(d: int)
    requires
        0 <= d <= 10,
    ensures
        10 <= pip_units(d) <= 100_000_000_000,
        pip_units(d) == 10 * ten_pow((10 - d) as nat),
        half_pip_units(d) == 5 * ten_pow((10 - d) as nat),
    decreases 0int,
{
    crate::fixed::lemma_ten_pow_pos((10 - d) as nat);
    crate::fixed::lemma_ten_pow_mono((10 - d) as nat, 10);
    crate::fixed::lemma_ten_pow_mono(1, (11 - d) as nat);
    assert(ten_pow(1) == 10) by {
        reveal_with_fuel(ten_pow, 2);
    }
    assert(ten_pow(11) == 100_000_000_000) by {
        reveal_with_fuel(ten_pow, 12);
    }
    assert(ten_pow((11 - d) as nat) == 10 * ten_pow((10 - d) as nat));
    crate::fixed::lemma_ten_pow_mono((11 - d) as nat, 11);
    let t = ten_pow((10 - d) as nat) as int;
    assert((10 * t) / 2 == 5 * t) by (nonlinear_arith)
        requires
            t >= 1,
    ;
}

/// Derive entry, stop-loss, take-profit, the two pip distances and the
/// spread warning from the pattern's two levels and the configuration.
///
/// A neckline strictly above the extreme is a W (long); a neckline at or
/// below the extreme — equality included — is an M (short).
pub fn compute(extreme_units: i64, neckline_units: i64, config: &CalculatorConfig) -> (r:
    DerivedLevels)
    requires
        config_wf(*config),
        in_level_range(extreme_units as int),
        in_level_range(neckline_units as int),
    ensures
        r@ == spec_compute(
            extreme_units as int,
            neckline_units as int,
            config.spread_tenth_pips as int,
            config.pip_decimal_places as int,
        ),
        neckline_units > extreme_units ==> r.kind == PatternKind::W,
        neckline_units <= extreme_units ==> r.kind == PatternKind::M,
{
    let ghost e = extreme_units as int;
    let ghost n = neckline_units as int;
    let ghost s = config.spread_tenth_pips as int;
    let ghost d = config.pip_decimal_places as int;
    proof {
        lemma_spread_units_bound(s, d);
        lemma_pip_units_bound(d);
    }
    let sub_pip = crate::fixed::pow10(10 - config.pip_decimal_places);
    let pip = 10 * sub_pip;
    let half_pip = 5 * sub_pip;
    let spread = config.spread_tenth_pips * sub_pip;
    proof {
        assert(spread == spread_units(s, d));
        assert(pip == pip_units(d));
        assert(half_pip == half_pip_units(d));
    }
    let stop_buffer = spread + pip;
    let exit_buffer = spread + half_pip;
    let is_w_pattern = neckline_units > extreme_units;
    let (entry, stop_loss, take_profit) = if is_w_pattern {
        let entry = neckline_units + half_pip;
        let stop_loss = extreme_units - stop_buffer;
        let take_profit = neckline_units + (neckline_units - stop_loss) - exit_buffer;
        (entry, stop_loss, take_profit)
    } else {
        let entry = neckline_units - half_pip;
        let stop_loss = extreme_units + stop_buffer;
        let take_profit = neckline_units - (stop_loss - neckline_units) + exit_buffer;
        (entry, stop_loss, take_profit)
    };
    let stop_distance = if entry >= stop_loss {
        entry - stop_loss
    } else {
        stop_loss - entry
    };
    let take_profit_distance = if take_profit >= entry {
        take_profit - entry
    } else {
        entry - take_profit
    };
    let ghost warn_bound = s * pip_units(d);
    proof {
        assert(0 <= warn_bound <= 1_000_000 * 100_000_000_000) by (nonlinear_arith)
            requires
                warn_bound == s * pip_units(d),
                0 <= s <= 1_000_000,
                10 <= pip_units(d) <= 100_000_000_000,
        ;
    }
    let low_ratio_warning = stop_distance < config.spread_tenth_pips * pip;
    DerivedLevels {
        kind: if is_w_pattern {
            PatternKind::W
        } else {
            PatternKind::M
        },
        entry_units: entry,
        stop_loss_units: stop_loss,
        take_profit_units: take_profit,
        stop_distance_units: stop_distance,
        take_profit_distance_units: take_profit_distance,
        low_ratio_warning,
    }
}

/// Every derived level and distance stays well inside the range the
/// formatting layer accepts, and the distances are nonnegative.
pub proof fn lemma_compute_in_format_range(extreme: int, neckline: int, spread_tenths: int, d: int)
    requires
        in_level_range(extreme),
        in_level_range(neckline),
        0 <= spread_tenths <= SPREAD_LIMIT,
        0 <= d <= 10,
    ensures
        ({
            let m = spec_compute(extreme, neckline, spread_tenths, d);
            &&& -1_000_000_000_000_000_000 <= m.entry <= 1_000_000_000_000_000_000
            &&& -1_000_000_000_000_000_000 <= m.stop_loss <= 1_000_000_000_000_000_000
            &&& -1_000_000_000_000_000_000 <= m.take_profit <= 1_000_000_000_000_000_000
            &&& 0 <= m.stop_distance <= 400_000_000_000_000_000
            &&& 0 <= m.take_profit_distance <= 1_000_000_000_000_000_000
        }),
{
    lemma_spread_units_bound(spread_tenths, d);
    lemma_pip_units_bound(d);
}

/// The classification law: strictly higher neckline means W, anything else
/// — equality included — means M.
pub proof fn lemma_pattern_kind(extreme: int, neckline: int, spread_tenths: int, d: int)
    ensures
        neckline > extreme ==> spec_compute(extreme, neckline, spread_tenths, d).kind
            == PatternKind::W,
        neckline <= extreme ==> spec_compute(extreme, neckline, spread_tenths, d).kind
            == PatternKind::M,
{
}

/// The take-profit law: the take-profit sits exactly one risk unit — the
/// distance from neckline to stop-loss — beyond the neckline, pulled back by
/// the exit cost buffer of the spread plus half a pip. This is the closed
/// form obtained by substituting the stop-loss formula into the take-profit
/// formula.
pub proof fn lemma_take_profit_one_r(extreme: int, neckline: int, spread_tenths: int, d: int)
    ensures
        ({
            let m = spec_compute(extreme, neckline, spread_tenths, d);
            let exit_buffer = spread_units(spread_tenths, d) + half_pip_units(d);
            &&& (m.kind == PatternKind::W ==> m.take_profit - neckline == (neckline - m.stop_loss)
                - exit_buffer)
            &&& (m.kind == PatternKind::M ==> neckline - m.take_profit == (m.stop_loss - neckline)
                - exit_buffer)
        }),
{
}

/// The fully substituted closed form of the take-profit: measured from the
/// neckline, the target sits exactly the pattern height — neckline to
/// extreme — beyond it, plus half a pip in the direction of the trade. The
/// spread buffers of the stop-loss and of the exit leg cancel, and the
/// one-pip stop buffer less the half-pip exit buffer leaves half a pip.
pub proof fn lemma_take_profit_closed_form(
    extreme: int,
    neckline: int,
    spread_tenths: int,
    d: int,
)
    requires
        0 <= d <= 10,
    ensures
        ({
            let m = spec_compute(extreme, neckline, spread_tenths, d);
            &&& (m.kind == PatternKind::W ==> m.take_profit == neckline + (neckline - extreme)
                + half_pip_units(d))
            &&& (m.kind == PatternKind::M ==> m.take_profit == neckline - (extreme - neckline)
                - half_pip_units(d))
        }),
{
    lemma_pip_units_bound(d);
}

/// Determinism of the derivation: any two results that satisfy the contract
/// of [`compute`] for the same inputs are equal in every field — recomputing
/// never changes the outcome.
pub proof fn lemma_compute_deterministic(
    a: DerivedLevels,
    b: DerivedLevels,
    extreme: int,
    neckline: int,
    spread_tenths: int,
    d: int,
)
    requires
        a@ == spec_compute(extreme, neckline, spread_tenths, d),
        b@ == spec_compute(extreme, neckline, spread_tenths, d),
    ensures
        a == b,
{
    assert(a.kind == b.kind);
    assert(a.entry_units == b.entry_units);
    assert(a.stop_loss_units == b.stop_loss_units);
    assert(a.take_profit_units == b.take_profit_units);
    assert(a.stop_distance_units == b.stop_distance_units);
    assert(a.take_profit_distance_units == b.take_profit_distance_units);
    assert(a.low_ratio_warning == b.low_ratio_warning);
}

} // verus!
