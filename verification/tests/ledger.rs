use kalshi_backtester::config::RewardsConfig;
use kalshi_backtester::metrics::{
    calmar_ratio, downside_volatility, exposure_pct, max_consecutive, max_drawdown, sharpe,
    snapshot_returns, sortino, turnover, volatility, win_rate, TradeStats,
};
use kalshi_backtester::number::{Analytic, Number};
use kalshi_backtester::orderbook::BookSet;
use kalshi_backtester::portfolio::Portfolio;
use kalshi_backtester::rewards::{quote_state_from_resting, QuoteState, RewardsModel};
use kalshi_backtester::types::{Action, BookDelta, Cents, EquityPoint, Fill, Liquidity, Side};

/// Double-precision numbers.
#[derive(Debug, Clone, Copy, PartialEq, PartialOrd)]
struct F(f64);

impl Number for F {
    fn from_int(n: i64) -> F {
        F(n as f64)
    }
    fn infinity() -> F {
        F(f64::INFINITY)
    }
    fn plus(self, other: F) -> F {
        F(self.0 + other.0)
    }
    fn minus(self, other: F) -> F {
        F(self.0 - other.0)
    }
    fn times(self, other: F) -> F {
        F(self.0 * other.0)
    }
    fn over(self, other: F) -> F {
        F(self.0 / other.0)
    }
    fn neg(self) -> F {
        F(-self.0)
    }
    fn abs(self) -> F {
        F(self.0.abs())
    }
    fn min(self, other: F) -> F {
        F(self.0.min(other.0))
    }
    fn max(self, other: F) -> F {
        F(self.0.max(other.0))
    }
    fn ceil(self) -> F {
        F(self.0.ceil())
    }
    fn round(self) -> F {
        F(self.0.round())
    }
    fn fract(self) -> F {
        F(self.0.fract())
    }
    fn sqrt(self) -> F {
        F(self.0.sqrt())
    }
    fn is_below(self, other: F) -> bool {
        self.0 < other.0
    }
    fn is_at_most(self, other: F) -> bool {
        self.0 <= other.0
    }
    fn is_equal(self, other: F) -> bool {
        self.0 == other.0
    }
    fn is_finite(self) -> bool {
        self.0.is_finite()
    }
    fn to_int(self) -> i64 {
        self.0 as i64
    }
    fn parse(s: &str) -> Option<F> {
        s.parse::<f64>().ok().map(F)
    }
    fn text(self) -> String {
        format!("{}", self.0)
    }
    fn fixed(self, decimals: usize) -> String {
        format!("{:.*}", decimals, self.0)
    }
}

impl Analytic for F {
    fn ln(self) -> F {
        F(self.0.ln())
    }
    fn exp(self) -> F {
        F(self.0.exp())
    }
    fn cos(self) -> F {
        F(self.0.cos())
    }
    fn tau() -> F {
        F(std::f64::consts::TAU)
    }
}

fn fill(side: Side, price: i32, qty: f64, fee: f64) -> Fill<F> {
    fill_ts(side, price, qty, fee, 1)
}

fn fill_ts(side: Side, price: i32, qty: f64, fee: f64, ts_ns: i64) -> Fill<F> {
    Fill {
        ts_ns,
        order_id: 1,
        instrument: "X".to_string(),
        side,
        price: Cents(price),
        qty: F(qty),
        liquidity: Liquidity::Taker,
        fee: F(fee),
    }
}

fn thousand() -> Portfolio<F> {
    Portfolio::new(F(1000.0), "USD".into(), 1)
}

#[test]
fn records_round_trip_and_instrument_stats() {
    let mut p = thousand();
    p.apply_fill(&fill_ts(Side::Bid, 40, 100.0, 0.0, 1_000_000_000));
    p.apply_fill(&fill_ts(Side::Ask, 60, 100.0, 0.0, 3_000_000_000));
    assert_eq!(p.round_trips.len(), 1);
    let rt = &p.round_trips[0];
    assert!((rt.pnl.0 - 20.0).abs() < 1e-9);
    assert!((rt.entry_price.0 - 0.40).abs() < 1e-9);
    assert!((rt.exit_price.0 - 0.60).abs() < 1e-9);
    assert_eq!(rt.qty, F(100.0));
    assert_eq!(rt.entry_ts, 1_000_000_000);
    assert_eq!(rt.exit_ts, 3_000_000_000);
    assert!((p.holding_secs_sum.0 - 2.0).abs() < 1e-9);
    assert!((p.total_volume.0 - 200.0).abs() < 1e-9);
    let st = p.instrument_stats.get("X").unwrap();
    assert_eq!(st.num_fills, 2);
    assert_eq!(st.num_round_trips, 1);
    assert_eq!(st.net_position, F(0.0));
    assert!((st.pnl.0 - 20.0).abs() < 1e-9);
    assert!((st.volume.0 - 200.0).abs() < 1e-9);
}

#[test]
fn buy_then_sell_realizes_pnl() {
    let mut p = thousand();
    p.apply_fill(&fill(Side::Bid, 40, 100.0, 0.0));
    assert!((p.cash.0 - 960.0).abs() < 1e-9);
    let pos = p.positions.get("X").unwrap();
    assert_eq!(pos.net_qty, F(100.0));
    assert!((pos.avg_cost.0 - 0.40).abs() < 1e-9);

    p.apply_fill(&fill(Side::Ask, 60, 100.0, 0.0));
    assert!((p.cash.0 - 1020.0).abs() < 1e-9);
    let pos = p.positions.get("X").unwrap();
    assert_eq!(pos.net_qty, F(0.0));
    assert!((pos.realized_pnl.0 - 20.0).abs() < 1e-9);
}

#[test]
fn fees_excluded_when_include_fees_false() {
    let mut p_on = thousand();
    p_on.include_fees = true;
    p_on.apply_fill(&fill(Side::Bid, 40, 100.0, 0.50));
    assert!((p_on.cash.0 - 959.50).abs() < 1e-9, "got {}", p_on.cash.0);
    assert!((p_on.total_fees.0 - 0.50).abs() < 1e-9);

    let mut p_off = thousand();
    p_off.include_fees = false;
    p_off.apply_fill(&fill(Side::Bid, 40, 100.0, 0.50));
    assert!((p_off.cash.0 - 960.0).abs() < 1e-9, "got {}", p_off.cash.0);
    assert_eq!(p_off.total_fees, F(0.0));
}

#[test]
fn slippage_cost_reduces_cash_and_accumulates() {
    let mut p = thousand();
    p.apply_fill_ex(&fill(Side::Bid, 40, 100.0, 0.0), F(1.00));
    assert!((p.cash.0 - 959.0).abs() < 1e-9, "got {}", p.cash.0);
    assert!((p.total_slippage_cost.0 - 1.0).abs() < 1e-9);
    p.apply_fill_ex(&fill(Side::Ask, 60, 50.0, 0.0), F(0.50));
    assert!((p.total_slippage_cost.0 - 1.50).abs() < 1e-9);
}

#[test]
fn liquidity_rewards_credited_only_when_enabled() {
    let mut credited = thousand();
    credited.set_liquidity_rewards(F(5.0), true);
    assert!((credited.cash.0 - 1005.0).abs() < 1e-9);
    assert!((credited.liquidity_rewards.0 - 5.0).abs() < 1e-9);

    let mut not = thousand();
    not.set_liquidity_rewards(F(5.0), false);
    assert!((not.cash.0 - 1000.0).abs() < 1e-9);
    assert!((not.liquidity_rewards.0 - 5.0).abs() < 1e-9);
}

#[test]
fn avg_cost_blends() {
    let mut p = thousand();
    p.apply_fill(&fill(Side::Bid, 40, 100.0, 0.0));
    p.apply_fill(&fill(Side::Bid, 60, 100.0, 0.0));
    let pos = p.positions.get("X").unwrap();
    assert_eq!(pos.net_qty, F(200.0));
    assert!((pos.avg_cost.0 - 0.50).abs() < 1e-9);
}

#[test]
fn settle_long_to_one_on_yes() {
    let mut p = thousand();
    p.apply_fill(&fill(Side::Bid, 40, 100.0, 0.0));
    assert!((p.cash.0 - 960.0).abs() < 1e-9);
    let pnl = p.settle_position("X", F(1.0), 5_000_000_000).0;
    assert!((pnl - 60.0).abs() < 1e-9, "settle pnl {pnl}");
    assert!((p.cash.0 - 1060.0).abs() < 1e-9, "cash {}", p.cash.0);
    assert!(p.positions.get("X").unwrap().net_qty.0.abs() < 1e-9);
    let f = p.fills.last().unwrap();
    assert_eq!(f.liquidity, Liquidity::Settle);
    assert_eq!(f.fee, F(0.0));
    assert_eq!(f.price, Cents(100));
    assert_eq!(p.total_fees, F(0.0));
}

#[test]
fn settle_short_to_zero_on_no() {
    let mut p = thousand();
    p.apply_fill(&fill(Side::Ask, 40, 100.0, 0.0));
    assert!((p.cash.0 - 1040.0).abs() < 1e-9, "cash {}", p.cash.0);
    assert!((p.positions.get("X").unwrap().net_qty.0 + 100.0).abs() < 1e-9);
    let pnl = p.settle_position("X", F(0.0), 5_000_000_000).0;
    assert!((pnl - 40.0).abs() < 1e-9, "settle pnl {pnl}");
    assert!((p.cash.0 - 1040.0).abs() < 1e-9, "cash {}", p.cash.0);
    assert!(p.positions.get("X").unwrap().net_qty.0.abs() < 1e-9);
    let f = p.fills.last().unwrap();
    assert_eq!(f.liquidity, Liquidity::Settle);
    assert_eq!(f.fee, F(0.0));
    assert_eq!(f.price, Cents(0));
}

#[test]
fn settle_flat_position_is_a_noop() {
    let mut p = thousand();
    let pnl = p.settle_position("X", F(1.0), 1);
    assert_eq!(pnl, F(0.0));
    assert!(p.fills.is_empty());
    assert!((p.cash.0 - 1000.0).abs() < 1e-9);
}

fn book_level(side: Side, price: i32) -> BookDelta<F> {
    BookDelta {
        ts_ns: 1,
        instrument: "X".into(),
        action: Action::Add,
        side,
        price: Cents(price),
        size: F(100.0),
        sequence: 1,
        is_snapshot: false,
    }
}

#[test]
fn equity_marks_at_mid() {
    let mut p = thousand();
    p.apply_fill(&fill(Side::Bid, 40, 100.0, 0.0));
    let mut bs = BookSet::new();
    bs.apply(&book_level(Side::Bid, 50));
    bs.apply(&book_level(Side::Ask, 60));
    assert!((p.equity(&bs).0 - 1015.0).abs() < 1e-9);
    assert!((p.unrealized(&bs).0 - 15.0).abs() < 1e-9);
}

#[test]
fn fill_through_zero_flips_the_position() {
    let mut p = thousand();
    p.apply_fill(&fill(Side::Bid, 40, 10.0, 0.0));
    p.apply_fill(&fill(Side::Ask, 60, 25.0, 0.0));
    let pos = p.position("X");
    assert_eq!(pos.net_qty, F(-15.0));
    assert!((pos.avg_cost.0 - 0.60).abs() < 1e-9);
    assert!((pos.realized_pnl.0 - 2.0).abs() < 1e-9);
    assert_eq!(p.round_trips.len(), 1);
    assert_eq!(p.fills.len(), 2);
    assert_eq!(p.position("Y").net_qty, F(0.0));
}

#[test]
fn snapshots_keep_their_distance() {
    let bs: BookSet<F> = BookSet::new();
    let mut p = Portfolio::new(F(1000.0), "USD".into(), 2);
    p.maybe_snapshot(1_000_000_000, &bs);
    p.maybe_snapshot(2_000_000_000, &bs);
    p.maybe_snapshot(3_000_000_000, &bs);
    p.force_snapshot(3_500_000_000, &bs);
    let times: Vec<i64> = p.equity_curve.iter().map(|e| e.ts_ns).collect();
    assert_eq!(times, vec![1_000_000_000, 3_000_000_000, 3_500_000_000]);
}

fn cfg(enabled: bool, reward: f64, period_secs: i64, both: bool) -> RewardsConfig<F> {
    RewardsConfig {
        enabled,
        period_secs,
        reward_per_period: F(reward),
        min_resting_size: F(10.0),
        max_spread_cents: 4,
        both_sides_required: both,
    }
}

fn qualifying() -> QuoteState<F> {
    QuoteState { bid_size_in_band: F(10.0), ask_size_in_band: F(10.0), has_mid: true }
}

fn one_sided() -> QuoteState<F> {
    QuoteState { bid_size_in_band: F(10.0), ask_size_in_band: F(0.0), has_mid: true }
}

const S: i64 = 1_000_000_000;

#[test]
fn disabled_accrues_nothing() {
    let mut m = RewardsModel::from_config(&cfg(false, 5.0, 3600, true));
    m.observe(0, &qualifying());
    m.observe(3600 * S, &qualifying());
    assert_eq!(m.accrued(), F(0.0));
}

#[test]
fn full_period_qualifying_earns_full_reward() {
    let mut m = RewardsModel::from_config(&cfg(true, 5.0, 3600, true));
    m.observe(0, &qualifying());
    m.observe(3600 * S, &qualifying());
    assert!((m.accrued().0 - 5.0).abs() < 1e-6, "got {}", m.accrued().0);
}

#[test]
fn half_period_qualifying_earns_half() {
    let mut m = RewardsModel::from_config(&cfg(true, 4.0, 3600, true));
    m.observe(0, &qualifying());
    m.observe(1800 * S, &qualifying());
    assert!((m.accrued().0 - 2.0).abs() < 1e-6, "got {}", m.accrued().0);
}

#[test]
fn too_wide_one_sided_earns_zero_when_both_required() {
    let mut m = RewardsModel::from_config(&cfg(true, 5.0, 3600, true));
    m.observe(0, &one_sided());
    m.observe(3600 * S, &one_sided());
    assert_eq!(m.accrued(), F(0.0));
}

#[test]
fn one_sided_ok_when_both_not_required() {
    let mut m = RewardsModel::from_config(&cfg(true, 5.0, 3600, false));
    m.observe(0, &one_sided());
    m.observe(3600 * S, &one_sided());
    assert!((m.accrued().0 - 5.0).abs() < 1e-6, "got {}", m.accrued().0);
}

#[test]
fn no_mid_does_not_qualify() {
    let mut m = RewardsModel::from_config(&cfg(true, 5.0, 3600, true));
    let nomid =
        QuoteState { bid_size_in_band: F(100.0), ask_size_in_band: F(100.0), has_mid: false };
    m.observe(0, &nomid);
    m.observe(3600 * S, &nomid);
    assert_eq!(m.accrued(), F(0.0));
}

#[test]
fn multiple_periods_accumulate() {
    let mut m = RewardsModel::from_config(&cfg(true, 5.0, 3600, true));
    m.observe(0, &qualifying());
    m.observe(7200 * S, &qualifying());
    assert!((m.accrued().0 - 10.0).abs() < 1e-6, "got {}", m.accrued().0);
}

#[test]
fn period_reward_capped_at_one_period() {
    let mut m = RewardsModel::from_config(&cfg(true, 5.0, 3600, true));
    m.observe(0, &qualifying());
    m.observe(3600 * S, &qualifying());
    m.observe(3600 * S, &qualifying());
    assert!((m.accrued().0 - 5.0).abs() < 1e-6, "got {}", m.accrued().0);
}

#[test]
fn quote_state_filters_by_band() {
    let resting = vec![(Side::Bid, 47, F(10.0)), (Side::Ask, 60, F(10.0)), (Side::Ask, 52, F(5.0))];
    let q = quote_state_from_resting(&resting, Some(F(50.0)), 4);
    assert_eq!(q.bid_size_in_band, F(10.0));
    assert_eq!(q.ask_size_in_band, F(5.0));
    assert!(q.has_mid);
}

#[test]
fn quote_state_no_mid() {
    let resting = vec![(Side::Bid, 47, F(10.0))];
    let q = quote_state_from_resting(&resting, None, 4);
    assert!(!q.has_mid);
}

fn pt(t: i64, v: f64) -> EquityPoint<F> {
    EquityPoint { ts_ns: t, total: F(v), currency: "USD".into() }
}

#[test]
fn drawdown_basic() {
    let c = vec![pt(0, 100.0), pt(1, 120.0), pt(2, 90.0), pt(3, 110.0)];
    let (abs, pct) = max_drawdown(&c);
    assert!((abs.0 - 30.0).abs() < 1e-9, "abs {}", abs.0);
    assert!((pct.0 - 0.25).abs() < 1e-9, "pct {}", pct.0);
}

#[test]
fn drawdown_monotonic_up_is_zero() {
    let c = vec![pt(0, 100.0), pt(1, 110.0), pt(2, 130.0)];
    let (abs, pct) = max_drawdown(&c);
    assert_eq!(abs, F(0.0));
    assert_eq!(pct, F(0.0));
}

#[test]
fn sharpe_constant_growth() {
    let c = vec![pt(0, 100.0), pt(1, 110.0), pt(2, 121.0)];
    assert_eq!(sharpe(&c), F(0.0));
}

#[test]
fn sharpe_positive_for_noisy_uptrend() {
    let c = vec![pt(0, 100.0), pt(1, 105.0), pt(2, 104.0), pt(3, 110.0)];
    assert!(sharpe(&c).0 > 0.0);
}

#[test]
fn win_rate_counts() {
    assert!((win_rate(&[F(1.0), F(-1.0), F(2.0), F(0.0)]).0 - 0.5).abs() < 1e-9);
    let none: [F; 0] = [];
    assert_eq!(win_rate(&none), F(0.0));
}

#[test]
fn turnover_ratio() {
    assert!((turnover(F(500.0), F(500.0), F(1000.0)).0 - 1.0).abs() < 1e-9);
}

#[test]
fn profit_factor_and_gross() {
    let ts = TradeStats::from_pnls(&[F(10.0), F(-20.0), F(30.0)]);
    assert!((ts.gross_profit.0 - 40.0).abs() < 1e-9);
    assert!((ts.gross_loss.0 - 20.0).abs() < 1e-9);
    assert!((ts.profit_factor.0 - 2.0).abs() < 1e-9);
    assert!((ts.avg_win.0 - 20.0).abs() < 1e-9);
    assert!((ts.avg_loss.0 - 20.0).abs() < 1e-9);
    assert!((ts.largest_win.0 - 30.0).abs() < 1e-9);
    assert!((ts.largest_loss.0 + 20.0).abs() < 1e-9);
}

#[test]
fn profit_factor_infinite_when_no_losses() {
    let ts = TradeStats::from_pnls(&[F(5.0), F(7.0)]);
    assert!(ts.profit_factor.0.is_infinite());
    assert!(ts.payoff_ratio.0.is_infinite());
}

#[test]
fn expectancy_value() {
    let ts = TradeStats::from_pnls(&[F(10.0), F(10.0), F(-10.0)]);
    assert!((ts.expectancy.0 - 10.0 / 3.0).abs() < 1e-9, "got {}", ts.expectancy.0);
    assert!((ts.avg_trade_pnl.0 - 10.0 / 3.0).abs() < 1e-9);
}

#[test]
fn max_consecutive_runs() {
    let (w, l) = max_consecutive(&[
        F(1.0),
        F(1.0),
        F(-1.0),
        F(1.0),
        F(-1.0),
        F(-1.0),
        F(-1.0),
        F(1.0),
    ]);
    assert_eq!(w, 2);
    assert_eq!(l, 3);
    let (w2, l2) = max_consecutive(&[F(1.0), F(0.0), F(1.0)]);
    assert_eq!(w2, 1);
    assert_eq!(l2, 0);
}

#[test]
fn calmar_basic() {
    assert!((calmar_ratio(F(20.0), F(0.10)).0 - 2.0).abs() < 1e-9);
    assert_eq!(calmar_ratio(F(20.0), F(0.0)), F(0.0));
}

#[test]
fn exposure_fraction() {
    assert!((exposure_pct::<F>(3, 4).0 - 0.75).abs() < 1e-9);
    assert_eq!(exposure_pct::<F>(0, 0), F(0.0));
}

#[test]
fn volatility_nonzero_for_noisy() {
    let c = vec![pt(0, 100.0), pt(1, 110.0), pt(2, 100.0), pt(3, 120.0)];
    assert!(volatility(&c).0 > 0.0);
    assert!(downside_volatility(&c).0 > 0.0);
}

#[test]
fn returns_are_relative_to_the_level_before() {
    let c = vec![pt(0, 100.0), pt(1, 110.0), pt(2, 99.0)];
    let r = snapshot_returns(&c);
    assert_eq!(r.len(), 2);
    assert!((r[0].0 - 0.10).abs() < 1e-12);
    assert!((r[1].0 + 0.10).abs() < 1e-12);
    let steady = vec![pt(0, 100.0), pt(1, 110.0)];
    assert_eq!(sortino(&steady), F(0.0));
}

#[test]
fn trips_begin_where_their_position_opened() {
    let mut p = thousand();
    p.apply_fill(&fill_ts(Side::Bid, 40, 100.0, 0.0, 1_000_000_000));
    p.apply_fill(&fill_ts(Side::Ask, 60, 150.0, 0.0, 3_000_000_000));
    assert!((p.cash.0 - 1050.0).abs() < 1e-9);
    let pos = p.position("X");
    assert_eq!(pos.net_qty, F(-50.0));
    assert!((pos.avg_cost.0 - 0.60).abs() < 1e-9);
    assert!((pos.entry_price.0 - 0.60).abs() < 1e-9);
    assert_eq!(pos.opened_ts, 3_000_000_000);
    let t = &p.round_trips[0];
    assert_eq!((t.qty, t.entry_ts, t.exit_ts), (F(100.0), 1_000_000_000, 3_000_000_000));
    assert!((t.entry_price.0 - 0.40).abs() < 1e-9 && (t.exit_price.0 - 0.60).abs() < 1e-9);
    assert!((t.pnl.0 - 20.0).abs() < 1e-9);
}

#[test]
fn realized_gains_are_net_of_fees() {
    let mut p = thousand();
    p.apply_fill(&fill(Side::Bid, 40, 100.0, 0.0));
    p.apply_fill(&fill(Side::Ask, 60, 100.0, 0.50));
    let pos = p.position("X");
    assert_eq!(pos.net_qty, F(0.0));
    assert!((pos.realized_pnl.0 - 19.5).abs() < 1e-9);
    assert!((p.round_trips[0].pnl.0 - 19.5).abs() < 1e-9);
    assert!((p.cash.0 - 1019.5).abs() < 1e-9);
    assert!((p.total_fees.0 - 0.5).abs() < 1e-9);
}

#[test]
fn positions_settle_once() {
    let mut p = thousand();
    p.apply_fill(&fill(Side::Bid, 40, 100.0, 0.0));
    assert!((p.settle_position("X", F(1.0), 5).0 - 60.0).abs() < 1e-9);
    let (cash, fills) = (p.cash, p.fills.len());
    assert_eq!(p.settle_position("X", F(0.0), 6), F(0.0));
    assert_eq!(p.cash, cash);
    assert_eq!(p.fills.len(), fills);
    assert_eq!(p.round_trips.len(), 1);
}

#[test]
fn cadence_counts_from_the_last_point() {
    let bs: BookSet<F> = BookSet::new();
    let mut p = thousand();
    p.maybe_snapshot(1_900_000_000, &bs);
    p.maybe_snapshot(2_000_000_000, &bs);
    assert_eq!(p.equity_curve.len(), 1);
    p.maybe_snapshot(2_900_000_000, &bs);
    assert_eq!(p.equity_curve.len(), 2);
}

#[test]
fn drawdown_is_the_deepest_of_all_falls() {
    let curve: Vec<EquityPoint<F>> =
        [100.0, 90.0, 120.0, 80.0, 130.0, 125.0].iter().enumerate().map(|(i, v)| pt(i as i64, *v)).collect();
    let (abs, pct) = max_drawdown(&curve);
    assert!((abs.0 - 40.0).abs() < 1e-9);
    assert!((pct.0 - 40.0 / 120.0).abs() < 1e-9);
}

#[test]
fn profit_less_loss_is_the_sum() {
    let pnls = [F(5.0), F(-2.0), F(0.0), F(3.0), F(-4.5)];
    let s = TradeStats::from_pnls(&pnls);
    assert!((s.gross_profit.0 - 8.0).abs() < 1e-9);
    assert!((s.gross_loss.0 - 6.5).abs() < 1e-9);
    assert!((s.gross_profit.0 - s.gross_loss.0 - 1.5).abs() < 1e-9);
}

#[test]
fn copies_of_accounts_stand_alone() {
    let mut p = thousand();
    p.apply_fill(&fill(Side::Bid, 40, 10.0, 0.1));
    p.apply_fill(&fill(Side::Ask, 50, 4.0, 0.1));
    let copy = p.clone();
    assert_eq!(format!("{copy:?}"), format!("{p:?}"));
    p.apply_fill(&fill(Side::Ask, 50, 6.0, 0.1));
    assert_eq!((p.fills.len(), copy.fills.len()), (3, 2));
    assert_eq!((p.round_trips.len(), copy.round_trips.len()), (2, 1));
}
