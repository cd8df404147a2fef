//! Slippage: how much worse than quoted an execution is.
use crate::config::SlippageConfig;
use crate::fixed::{law_products_are_cut, law_whole_products_are_exact, lemma_cut, Fixed};
use crate::number::{fraction_of, ratio, Number};
use crate::types::{law_cents_are_hundredths, Cents, Liquidity, Side};
use vstd::prelude::*;

verus! {

/// The slippage of a run.
#[derive(Debug, Clone, Copy, PartialEq)]
pub struct SlippageModel<N> {
    pub enabled: bool,
    pub taker_ticks: i32,
    pub taker_bps: N,
    pub maker_adverse_selection_bps: N,
}

impl<N: Number> SlippageModel<N> {
    /// The slippage that some settings stand for.
    pub open spec fn of_config(cfg: SlippageConfig<N>) -> SlippageModel<N> {
        SlippageModel {
            enabled: cfg.enabled,
            taker_ticks: cfg.taker_ticks,
            taker_bps: cfg.taker_bps,
            maker_adverse_selection_bps: cfg.maker_adverse_selection_bps,
        }
    }

    /// What an execution costs beyond its price: a taker some cents a contract and a part of what
    /// is traded, a maker a part of what is traded.
    pub open spec fn extra(self, price: Cents, qty: N, liquidity: Liquidity) -> N {
        let notional = price.dollars::<N>().product(qty);
        if !self.enabled {
            N::integer(0)
        } else {
            match liquidity {
                Liquidity::Taker => fraction_of::<N>(self.taker_ticks as int, 100).product(
                    qty,
                ).sum(self.taker_bps.product(notional)),
                Liquidity::Maker => self.maker_adverse_selection_bps.product(notional),
                Liquidity::Settle => N::integer(0),
            }
        }
    }

    /// The slippage that some settings stand for.
    pub fn from_config(cfg: &SlippageConfig<N>) -> (r: SlippageModel<N>)
        ensures
            r == SlippageModel::of_config(*cfg),
    {
        SlippageModel {
            enabled: cfg.enabled,
            taker_ticks: cfg.taker_ticks,
            taker_bps: cfg.taker_bps,
            maker_adverse_selection_bps: cfg.maker_adverse_selection_bps,
        }
    }

    /// What an execution costs beyond its price. Its side does not matter.
    pub fn cost(&self, _side: Side, price: Cents, qty: N, liquidity: Liquidity) -> (r: N)
        ensures
            r == self.extra(price, qty, liquidity),
    {
        if !self.enabled {
            return N::from_int(0);
        }
        let notional = price.to_dollars::<N>().times(qty);
        match liquidity {
            Liquidity::Taker => ratio::<N>(self.taker_ticks as i64, 100).times(qty).plus(
                self.taker_bps.times(notional),
            ),
            Liquidity::Maker => self.maker_adverse_selection_bps.times(notional),
            Liquidity::Settle => N::from_int(0),
        }
    }
}

/// Slippage that is switched off costs nothing, and a settlement never costs any.
pub proof fn law_no_slippage_no_cost<N: Number>(
    m: SlippageModel<N>,
    price: Cents,
    qty: N,
    liquidity: Liquidity,
)
    requires
        !m.enabled || liquidity == Liquidity::Settle,
    ensures
        m.extra(price, qty, liquidity) == N::integer(0),
{
}

/// What slips is what the settings say. A taker pays so many cents for each contract and so much of
/// what is traded, a maker only so much of what is traded. With numbers of six decimals the part of
/// what is traded misses by less than a millionth, and never overshoots.
pub proof fn law_slippage_is_ticks_and_parts(
    m: SlippageModel<Fixed>,
    price: Cents,
    qty: Fixed,
    k: int,
)
    requires
        m.enabled,
        qty.units == k * 1_000_000,
        0 <= k <= 1_000_000_000,
        0 <= price.0 <= 100,
        -100 <= m.taker_ticks <= 100,
        0 <= m.taker_bps.units <= 1_000_000,
        0 <= m.maker_adverse_selection_bps.units <= 1_000_000,
    ensures
        ({
            let traded = k * price.0 * 10_000;
            let ticks = k * m.taker_ticks * 10_000;
            let taker = (m.extra(price, qty, Liquidity::Taker).units - ticks) * 1_000_000;
            let maker = m.extra(price, qty, Liquidity::Maker).units * 1_000_000;
            &&& taker <= m.taker_bps.units * traded < taker + 1_000_000
            &&& maker <= m.maker_adverse_selection_bps.units * traded < maker + 1_000_000
        }),
{
    law_cents_are_hundredths(price);
    law_cents_are_hundredths(Cents(m.taker_ticks));
    let d = price.dollars::<Fixed>();
    let c = price.0 as int;
    let t = m.taker_ticks as int;
    let traded = k * c * 10_000;
    assert(0 <= traded <= 1_000_000_000_000_000) by (nonlinear_arith)
        requires
            traded == k * c * 10_000,
            0 <= k <= 1_000_000_000,
            0 <= c <= 100,
    ;
    assert(k * (c * 10_000) == traded) by (nonlinear_arith)
        requires
            traded == k * c * 10_000,
    ;
    law_whole_products_are_exact(qty, d, k);
    let notional = d.product(qty);
    assert(notional.units == traded);
    let tick = fraction_of::<Fixed>(t, 100);
    assert(tick.units == t * 10_000);
    assert(k * (t * 10_000) == k * t * 10_000) by (nonlinear_arith);
    assert(-1_000_000_000_000_000 <= k * t * 10_000 <= 1_000_000_000_000_000) by (nonlinear_arith)
        requires
            0 <= k <= 1_000_000_000,
            -100 <= t <= 100,
    ;
    law_whole_products_are_exact(qty, tick, k);
    lemma_part_of_traded(m.taker_bps, notional);
    lemma_part_of_traded(m.maker_adverse_selection_bps, notional);
}

proof fn lemma_part_of_traded(part: Fixed, traded: Fixed)
    requires
        0 <= part.units <= 1_000_000,
        0 <= traded.units <= 1_000_000_000_000_000,
    ensures
        ({
            let p = part.product(traded).units * 1_000_000;
            p <= part.units * traded.units < p + 1_000_000
        }),
        0 <= part.product(traded).units <= 1_000_000_000_000_000,
{
    let (a, b) = (part.units as int, traded.units as int);
    assert(0 <= a * b <= 1_000_000_000_000_000 * 1_000_000) by (nonlinear_arith)
        requires
            0 <= a <= 1_000_000,
            0 <= b <= 1_000_000_000_000_000,
    ;
    lemma_cut(a * b, 1_000_000);
    law_products_are_cut(part, traded);
}

} // verus!
