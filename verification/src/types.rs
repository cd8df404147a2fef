//! The events that come in, and what the backtest makes of them.
use crate::fixed::{law_whole_products_are_exact, lemma_cut_multiple, size, Fixed};
use crate::number::{fraction_of, ratio, to_i32, to_i32_range, Number};
use vstd::prelude::*;

verus! {

/// A price in whole cents of a contract that pays one dollar.
#[derive(Debug, Clone, Copy, PartialEq, Eq, Structural, PartialOrd, Ord, Hash)]
pub struct Cents(pub i32);

impl Cents {
    /// The price of so many dollars, in whole cents.
    pub open spec fn of_dollars<N: Number>(dollars: N) -> Cents {
        Cents(to_i32_range(dollars.product(N::integer(100)).nearest().truncated()))
    }

    /// The price of so many dollars, rounded to whole cents.
    pub fn from_dollars<N: Number>(dollars: N) -> (r: Cents)
        ensures
            r == Cents::of_dollars(dollars),
    {
        Cents(to_i32(dollars.times(N::from_int(100)).round()))
    }

    /// The price in dollars.
    pub open spec fn dollars<N: Number>(self) -> N {
        fraction_of::<N>(self.0 as int, 100)
    }

    /// The price in dollars.
    pub fn to_dollars<N: Number>(self) -> (r: N)
        ensures
            r == self.dollars::<N>(),
    {
        ratio::<N>(self.0 as i64, 100)
    }

    /// The price of the opposite outcome: what is left of one dollar.
    pub fn complement(self) -> (r: Cents)
        requires
            -2147483547 <= self.0,
        ensures
            r.0 == 100 - self.0,
    {
        Cents(100 - self.0)
    }
}

/// A side of the book: a bid buys YES, an ask sells it.
#[derive(Debug, Clone, Copy, PartialEq, Eq, Structural)]
pub enum Side {
    Bid,
    Ask,
}

/// What a delta does to a price level.
#[derive(Debug, Clone, Copy, PartialEq, Eq, Structural)]
pub enum Action {
    Add,
    Update,
    Delete,
}

/// How a fill came about: resting in the book, taking from it, or at expiry.
#[derive(Debug, Clone, Copy, PartialEq, Eq, Structural)]
pub enum Liquidity {
    Maker,
    Taker,
    Settle,
}

/// How long a limit order lives: until cancelled, or not past its first match.
#[derive(Debug, Clone, Copy, PartialEq, Eq, Structural)]
pub enum Tif {
    Gtc,
    Ioc,
}

/// One change of one price level of one book.
#[derive(Debug, Clone, PartialEq)]
pub struct BookDelta<N> {
    pub ts_ns: i64,
    pub instrument: String,
    pub action: Action,
    pub side: Side,
    pub price: Cents,
    pub size: N,
    pub sequence: i64,
    pub is_snapshot: bool,
}

/// One trade that printed.
#[derive(Debug, Clone, PartialEq)]
pub struct TradeEvent<N> {
    pub ts_ns: i64,
    pub instrument: String,
    /// Whether the side that took liquidity bought YES.
    pub aggressor_yes: bool,
    pub price: Cents,
    pub size: N,
    pub trade_id: String,
}

/// An event of the market: a change of a book, or a trade.
#[derive(Debug, Clone, PartialEq)]
pub enum MarketEvent<N> {
    Delta(BookDelta<N>),
    Trade(TradeEvent<N>),
}

/// What a delta says.
#[verifier::ext_equal]
pub struct DeltaView<N> {
    pub ts_ns: i64,
    pub instrument: Seq<char>,
    pub action: Action,
    pub side: Side,
    pub price: Cents,
    pub size: N,
    pub sequence: i64,
    pub is_snapshot: bool,
}

/// What a trade says.
#[verifier::ext_equal]
pub struct TradeView<N> {
    pub ts_ns: i64,
    pub instrument: Seq<char>,
    pub aggressor_yes: bool,
    pub price: Cents,
    pub size: N,
    pub trade_id: Seq<char>,
}

/// The deltas among some events.
pub open spec fn deltas_among<N>(events: Seq<EventView<N>>) -> Seq<DeltaView<N>>
    decreases events.len(),
{
    if events.len() == 0 {
        Seq::empty()
    } else {
        match events.last() {
            EventView::Delta(d) => deltas_among(events.drop_last()).push(d),
            EventView::Trade(_) => deltas_among(events.drop_last()),
        }
    }
}

/// The trades among some events.
pub open spec fn trades_among<N>(events: Seq<EventView<N>>) -> Seq<TradeView<N>>
    decreases events.len(),
{
    if events.len() == 0 {
        Seq::empty()
    } else {
        match events.last() {
            EventView::Trade(t) => trades_among(events.drop_last()).push(t),
            EventView::Delta(_) => trades_among(events.drop_last()),
        }
    }
}

/// What an event says.
#[verifier::ext_equal]
pub enum EventView<N> {
    Delta(DeltaView<N>),
    Trade(TradeView<N>),
}

impl<N> EventView<N> {
    /// When the event happened.
    pub open spec fn ts(self) -> i64 {
        match self {
            EventView::Delta(d) => d.ts_ns,
            EventView::Trade(t) => t.ts_ns,
        }
    }

    /// The event of another instrument.
    pub open spec fn with_instrument(self, instrument: Seq<char>) -> EventView<N> {
        match self {
            EventView::Delta(d) => EventView::Delta(DeltaView { instrument, ..d }),
            EventView::Trade(t) => EventView::Trade(TradeView { instrument, ..t }),
        }
    }

    /// The instrument that the event is of.
    pub open spec fn inst(self) -> Seq<char> {
        match self {
            EventView::Delta(d) => d.instrument,
            EventView::Trade(t) => t.instrument,
        }
    }
}

impl<N> View for BookDelta<N> {
    type V = DeltaView<N>;

    open spec fn view(&self) -> DeltaView<N> {
        DeltaView {
            ts_ns: self.ts_ns,
            instrument: self.instrument@,
            action: self.action,
            side: self.side,
            price: self.price,
            size: self.size,
            sequence: self.sequence,
            is_snapshot: self.is_snapshot,
        }
    }
}

impl<N> View for TradeEvent<N> {
    type V = TradeView<N>;

    open spec fn view(&self) -> TradeView<N> {
        TradeView {
            ts_ns: self.ts_ns,
            instrument: self.instrument@,
            aggressor_yes: self.aggressor_yes,
            price: self.price,
            size: self.size,
            trade_id: self.trade_id@,
        }
    }
}

impl<N> View for MarketEvent<N> {
    type V = EventView<N>;

    open spec fn view(&self) -> EventView<N> {
        match self {
            MarketEvent::Delta(d) => EventView::Delta(d@),
            MarketEvent::Trade(t) => EventView::Trade(t@),
        }
    }
}

/// What each of some events says.
pub open spec fn event_views<N>(events: Seq<MarketEvent<N>>) -> Seq<EventView<N>> {
    events.map_values(|e: MarketEvent<N>| e@)
}

/// What each of some deltas says.
pub open spec fn delta_views<N>(deltas: Seq<BookDelta<N>>) -> Seq<DeltaView<N>> {
    deltas.map_values(|d: BookDelta<N>| d@)
}

/// What each of some trades says.
pub open spec fn trade_views<N>(trades: Seq<TradeEvent<N>>) -> Seq<TradeView<N>> {
    trades.map_values(|t: TradeEvent<N>| t@)
}

impl<N> MarketEvent<N> {
    /// When the event happened.
    pub open spec fn ts(self) -> i64 {
        match self {
            MarketEvent::Delta(d) => d.ts_ns,
            MarketEvent::Trade(t) => t.ts_ns,
        }
    }

    /// The instrument that the event is of.
    pub open spec fn inst(self) -> Seq<char> {
        match self {
            MarketEvent::Delta(d) => d.instrument@,
            MarketEvent::Trade(t) => t.instrument@,
        }
    }

    /// When the event happened, in nanoseconds since the epoch.
    pub fn ts_ns(&self) -> (r: i64)
        ensures
            r == self.ts(),
    {
        match self {
            MarketEvent::Delta(d) => d.ts_ns,
            MarketEvent::Trade(t) => t.ts_ns,
        }
    }

    /// The instrument that the event is of.
    pub fn instrument(&self) -> (r: &str)
        ensures
            r@ == self.inst(),
    {
        match self {
            MarketEvent::Delta(d) => d.instrument.as_str(),
            MarketEvent::Trade(t) => t.instrument.as_str(),
        }
    }
}

/// An execution of one of the strategy's orders.
#[derive(Debug, Clone, PartialEq)]
pub struct Fill<N> {
    pub ts_ns: i64,
    pub order_id: u64,
    pub instrument: String,
    pub side: Side,
    pub price: Cents,
    pub qty: N,
    pub liquidity: Liquidity,
    pub fee: N,
}

/// What a fill says.
#[verifier::ext_equal]
pub struct FillView<N> {
    pub ts_ns: i64,
    pub order_id: u64,
    pub instrument: Seq<char>,
    pub side: Side,
    pub price: Cents,
    pub qty: N,
    pub liquidity: Liquidity,
    pub fee: N,
}

impl<N> View for Fill<N> {
    type V = FillView<N>;

    open spec fn view(&self) -> FillView<N> {
        FillView {
            ts_ns: self.ts_ns,
            order_id: self.order_id,
            instrument: self.instrument@,
            side: self.side,
            price: self.price,
            qty: self.qty,
            liquidity: self.liquidity,
            fee: self.fee,
        }
    }
}

impl<N: Number> Fill<N> {
    /// The same fill once more.
    pub fn copy(&self) -> (r: Fill<N>)
        ensures
            r@ == self@,
    {
        Fill {
            ts_ns: self.ts_ns,
            order_id: self.order_id,
            instrument: self.instrument.clone(),
            side: self.side,
            price: self.price,
            qty: self.qty,
            liquidity: self.liquidity,
            fee: self.fee,
        }
    }
}

/// What each of some fills says.
pub open spec fn fill_views<N>(fills: Seq<Fill<N>>) -> Seq<FillView<N>> {
    fills.map_values(|f: Fill<N>| f@)
}

/// One of the strategy's resting orders, as the strategy sees it.
#[derive(Debug, Clone, Copy, PartialEq)]
pub struct OrderView<N> {
    pub id: u64,
    pub side: Side,
    pub price: Cents,
    pub remaining: N,
}

/// The equity at one time.
#[derive(Debug, Clone, PartialEq)]
pub struct EquityPoint<N> {
    pub ts_ns: i64,
    pub total: N,
    pub currency: String,
}

/// What an equity point says.
#[verifier::ext_equal]
pub struct EquityView<N> {
    pub ts_ns: i64,
    pub total: N,
    pub currency: Seq<char>,
}

impl<N> View for EquityPoint<N> {
    type V = EquityView<N>;

    open spec fn view(&self) -> EquityView<N> {
        EquityView { ts_ns: self.ts_ns, total: self.total, currency: self.currency@ }
    }
}

/// What each of some equity points says.
pub open spec fn equity_views<N>(points: Seq<EquityPoint<N>>) -> Seq<EquityView<N>> {
    points.map_values(|p: EquityPoint<N>| p@)
}

impl<N: Number> TradeEvent<N> {
    /// The same trade once more.
    pub fn copy(&self) -> (r: TradeEvent<N>)
        ensures
            r@ == self@,
    {
        TradeEvent {
            ts_ns: self.ts_ns,
            instrument: self.instrument.clone(),
            aggressor_yes: self.aggressor_yes,
            price: self.price,
            size: self.size,
            trade_id: self.trade_id.clone(),
        }
    }
}

/// A run in numbers.
#[derive(Debug, Clone, PartialEq)]
pub struct Summary<N> {
    pub currency: String,
    pub starting_balance: N,
    pub ending_balance: N,
    pub pnl_total: N,
    /// In percent of the starting balance.
    pub pnl_pct: N,
    pub total_orders: i64,
    pub total_positions: i64,
    pub avg_buy_price: N,
    pub avg_sell_price: N,
    pub num_trades: i64,
    pub num_fills: i64,
    pub win_rate: N,
    pub sharpe: N,
    pub sortino: N,
    pub max_drawdown: N,
    /// As a part of the peak.
    pub max_drawdown_pct: N,
    pub turnover: N,
    pub total_fees: N,
    pub profit_factor: N,
    pub gross_profit: N,
    pub gross_loss: N,
    pub avg_win: N,
    pub avg_loss: N,
    pub payoff_ratio: N,
    pub expectancy: N,
    pub num_round_trips: i64,
    pub avg_trade_pnl: N,
    pub largest_win: N,
    pub largest_loss: N,
    pub max_consecutive_wins: i64,
    pub max_consecutive_losses: i64,
    pub calmar_ratio: N,
    pub volatility: N,
    pub downside_volatility: N,
    pub exposure_pct: N,
    pub avg_holding_secs: N,
    pub fees_pct_of_gross: N,
    pub total_volume_contracts: N,
    pub total_slippage_cost: N,
    pub liquidity_rewards: N,
    /// What the prices alone have gained.
    pub gross_pnl_ex_costs: N,
    pub settled_pnl: N,
    pub num_settled: i64,
    pub halted: bool,
    pub halt_reason: String,
    pub risk_rejections: i64,
    pub post_only_rejects: i64,
}

/// One instrument of a run in numbers.
#[derive(Debug, Clone, PartialEq)]
pub struct InstrumentBreakdown<N> {
    pub instrument: String,
    pub pnl: N,
    pub num_fills: i64,
    pub num_round_trips: i64,
    pub net_position: N,
    pub volume: N,
}

/// What a run has led to.
#[derive(Debug, Clone, PartialEq)]
pub struct Report<N> {
    pub plugin_name: String,
    pub summary: Summary<N>,
    pub equity_curve: Vec<EquityPoint<N>>,
    /// In the order of the instruments.
    pub instrument_breakdown: Vec<InstrumentBreakdown<N>>,
}

/// The line before a report that is printed.
pub const REPORT_JSON_START: &'static str = "===REPORT_JSON_START===";

/// The line behind a report that is printed.
pub const REPORT_JSON_END: &'static str = "===REPORT_JSON_END===";

/// The line before a tearsheet that is printed.
pub const TEARSHEET_B64_START: &'static str = "===TEARSHEET_B64_START===";

/// The line behind a tearsheet that is printed.
pub const TEARSHEET_B64_END: &'static str = "===TEARSHEET_B64_END===";

/// A cent is a hundredth of a dollar: with numbers of six decimals, ten thousand millionths.
pub proof fn law_cents_are_hundredths(c: Cents)
    ensures
        c.dollars::<Fixed>().units == c.0 * 10_000,
{
    let n = c.0 as int;
    assert(Fixed::integer(n).units == n * 1_000_000);
    assert(Fixed::integer(100).units == 100_000_000);
    assert((n * 1_000_000) * 1_000_000 == (n * 10_000) * 100_000_000);
    lemma_cut_multiple(n * 10_000, 100_000_000);
}

/// To write a price in dollars and to read it again gives the same price.
pub proof fn law_prices_read_back(c: Cents)
    ensures
        Cents::of_dollars(c.dollars::<Fixed>()) == c,
{
    law_cents_are_hundredths(c);
    let n = c.0 as int;
    let d = c.dollars::<Fixed>();
    let hundred = Fixed::integer(100);
    assert(hundred.units == 100_000_000);
    law_whole_products_are_exact(hundred, d, 100);
    let x = d.product(hundred);
    assert(x.units == n * 1_000_000);
    assert(x.nearest() == x);
    lemma_cut_multiple(n, 1_000_000);
}

/// Rounding to cents misses by no more than half a cent, for every amount that so many cents can
/// write.
pub proof fn law_prices_are_nearest(dollars: Fixed)
    requires
        -20_000_000_000_000 <= dollars.units <= 20_000_000_000_000,
    ensures
        -5_000 <= dollars.units - Cents::of_dollars(dollars).0 * 10_000 <= 5_000,
{
    let hundred = Fixed::integer(100);
    assert(hundred.units == 100_000_000);
    law_whole_products_are_exact(hundred, dollars, 100);
    let x = dollars.product(hundred);
    assert(x.units == 100 * dollars.units);
    let m = size(x.units as int) as int;
    let k = (m + 500_000) / 1_000_000;
    let signed = if x.units < 0 {
        -k
    } else {
        k
    };
    assert(x.nearest().units == signed * 1_000_000);
    lemma_cut_multiple(signed, 1_000_000);
}

} // verus!
