//! The account: cash, positions, what was gained and lost, and the equity curve.
use crate::fixed::{
    cut_quotient, law_whole_products_are_exact, lemma_cut, lemma_cut_multiple, size, Fixed, LARGEST,
};
use crate::number::{fraction_of, ratio, Number};
use crate::orderbook::{law_middle_is_halfway, BookSet, BookView};
use crate::strmap::{entry, law_put_then_find, ordered, put_entry, StrMap};
use crate::text::{lemma_text_less_irreflexive, lemma_text_less_transitive, text_less};
use crate::types::{
    equity_views, fill_views, law_cents_are_hundredths, Cents, EquityPoint, EquityView, Fill, FillView, Liquidity, Side,
};
use vstd::prelude::*;

verus! {

/// What is held of one instrument.
#[derive(Debug, Clone, Copy, PartialEq)]
pub struct Position<N> {
    /// Contracts: above 0 long YES, below 0 short YES.
    pub net_qty: N,
    /// What a contract of the open position cost on average, in dollars.
    pub avg_cost: N,
    /// What closing has gained, less the fees and the slippage of the fills that closed.
    pub realized_pnl: N,
    /// When the open position was opened; 0 where none is.
    pub opened_ts: i64,
    /// The average price at which the open position was entered, in dollars.
    pub entry_price: N,
}

/// A part of a position that was opened and closed again.
#[derive(Debug, Clone, PartialEq)]
pub struct RoundTrip<N> {
    pub instrument: String,
    pub entry_ts: i64,
    pub exit_ts: i64,
    /// The contracts that were closed; never below 0.
    pub qty: N,
    pub entry_price: N,
    pub exit_price: N,
    /// What it gained, less the fee and the slippage of the close.
    pub pnl: N,
}

/// What a round trip says.
#[verifier::ext_equal]
pub struct RoundTripView<N> {
    pub instrument: Seq<char>,
    pub entry_ts: i64,
    pub exit_ts: i64,
    pub qty: N,
    pub entry_price: N,
    pub exit_price: N,
    pub pnl: N,
}

impl<N> View for RoundTrip<N> {
    type V = RoundTripView<N>;

    open spec fn view(&self) -> RoundTripView<N> {
        RoundTripView {
            instrument: self.instrument@,
            entry_ts: self.entry_ts,
            exit_ts: self.exit_ts,
            qty: self.qty,
            entry_price: self.entry_price,
            exit_price: self.exit_price,
            pnl: self.pnl,
        }
    }
}

/// What each of some round trips says.
pub open spec fn trip_views<N>(trips: Seq<RoundTrip<N>>) -> Seq<RoundTripView<N>> {
    trips.map_values(|t: RoundTrip<N>| t@)
}

/// The totals of one instrument.
#[derive(Debug, Clone, Copy, PartialEq)]
pub struct InstrumentStat<N> {
    /// What its closes have gained.
    pub pnl: N,
    pub num_fills: i64,
    pub num_round_trips: i64,
    /// The contracts that are held.
    pub net_position: N,
    /// The contracts that were traded, bought and sold.
    pub volume: N,
}

/// The whole account.
#[derive(Debug)]
pub struct Portfolio<N> {
    pub cash: N,
    /// Open positions. They are summed in the order of their instruments, so that two runs over
    /// the same data agree to the last digit.
    pub positions: StrMap<Position<N>>,
    pub total_orders: i64,
    pub total_fills: i64,
    pub total_fees: N,
    pub total_slippage_cost: N,
    pub liquidity_rewards: N,
    /// Where this is false, fees stand on the fills and are not charged.
    pub include_fees: bool,
    pub buy_notional: N,
    pub buy_qty: N,
    pub sell_notional: N,
    pub sell_qty: N,
    pub round_trip_pnls: Vec<N>,
    pub round_trips: Vec<RoundTrip<N>>,
    pub instrument_stats: StrMap<InstrumentStat<N>>,
    pub total_volume: N,
    pub holding_secs_sum: N,
    pub holding_count: i64,
    pub snapshots_with_position: i64,
    pub fills: Vec<Fill<N>>,
    pub halted: bool,
    /// Empty where the run was not halted.
    pub halt_reason: String,
    /// Orders that the risk limits dropped.
    pub risk_rejections: i64,
    /// Orders that were to rest and would have taken.
    pub post_only_rejects: i64,
    /// What settling positions at expiry has gained.
    pub settled_pnl: N,
    pub num_settled: i64,
    pub currency: String,
    pub snapshot_secs: i64,
    /// The least `i64` before the first snapshot.
    pub last_snapshot_ts: i64,
    pub equity_curve: Vec<EquityPoint<N>>,
}

/// What the account says.
#[verifier::ext_equal]
pub struct PortfolioView<N> {
    pub cash: N,
    pub positions: Seq<(Seq<char>, Position<N>)>,
    pub total_orders: i64,
    pub total_fills: i64,
    pub total_fees: N,
    pub total_slippage_cost: N,
    pub liquidity_rewards: N,
    pub include_fees: bool,
    pub buy_notional: N,
    pub buy_qty: N,
    pub sell_notional: N,
    pub sell_qty: N,
    pub round_trip_pnls: Seq<N>,
    pub round_trips: Seq<RoundTripView<N>>,
    pub instrument_stats: Seq<(Seq<char>, InstrumentStat<N>)>,
    pub total_volume: N,
    pub holding_secs_sum: N,
    pub holding_count: i64,
    pub snapshots_with_position: i64,
    pub fills: Seq<FillView<N>>,
    pub halted: bool,
    pub halt_reason: Seq<char>,
    pub risk_rejections: i64,
    pub post_only_rejects: i64,
    pub settled_pnl: N,
    pub num_settled: i64,
    pub currency: Seq<char>,
    pub snapshot_secs: i64,
    pub last_snapshot_ts: i64,
    pub equity_curve: Seq<EquityView<N>>,
}

impl<N> View for Portfolio<N> {
    type V = PortfolioView<N>;

    open spec fn view(&self) -> PortfolioView<N> {
        PortfolioView {
            cash: self.cash,
            positions: self.positions.listing(),
            total_orders: self.total_orders,
            total_fills: self.total_fills,
            total_fees: self.total_fees,
            total_slippage_cost: self.total_slippage_cost,
            liquidity_rewards: self.liquidity_rewards,
            include_fees: self.include_fees,
            buy_notional: self.buy_notional,
            buy_qty: self.buy_qty,
            sell_notional: self.sell_notional,
            sell_qty: self.sell_qty,
            round_trip_pnls: self.round_trip_pnls@,
            round_trips: trip_views(self.round_trips@),
            instrument_stats: self.instrument_stats.listing(),
            total_volume: self.total_volume,
            holding_secs_sum: self.holding_secs_sum,
            holding_count: self.holding_count,
            snapshots_with_position: self.snapshots_with_position,
            fills: fill_views(self.fills@),
            halted: self.halted,
            halt_reason: self.halt_reason@,
            risk_rejections: self.risk_rejections,
            post_only_rejects: self.post_only_rejects,
            settled_pnl: self.settled_pnl,
            num_settled: self.num_settled,
            currency: self.currency@,
            snapshot_secs: self.snapshot_secs,
            last_snapshot_ts: self.last_snapshot_ts,
            equity_curve: equity_views(self.equity_curve@),
        }
    }
}

/// What counts as nothing among contracts.
pub open spec fn speck<N: Number>() -> N {
    fraction_of::<N>(1, 1_000_000_000_000)
}

pub(crate) fn tiny<N: Number>() -> (r: N)
    ensures
        r == speck::<N>(),
{
    ratio::<N>(1, 1_000_000_000_000)
}

/// A number that counts as nothing: 0, or closer to it than a speck. A number type may be too
/// coarse for a speck, so 0 counts as nothing in any case.
pub open spec fn nothing<N: Number>(x: N) -> bool {
    x.magnitude().below(speck::<N>()) || x.equals(N::integer(0))
}

pub(crate) fn is_nothing<N: Number>(x: N) -> (r: bool)
    ensures
        r == nothing(x),
{
    x.abs().is_below(tiny::<N>()) || x.is_equal(N::from_int(0))
}

impl<N: Number> Position<N> {
    /// Nothing held, nothing gained.
    pub open spec fn flat() -> Position<N> {
        Position {
            net_qty: N::integer(0),
            avg_cost: N::integer(0),
            realized_pnl: N::integer(0),
            opened_ts: 0,
            entry_price: N::integer(0),
        }
    }

    /// The position with contracts added on its own side: its cost and its entry price are
    /// blended, each weighed by the contracts.
    pub open spec fn grown(self, signed: N, qty: N, price: N, ts_ns: i64) -> Position<N> {
        let held = self.net_qty.magnitude();
        let total_qty = held.sum(qty);
        let opening = nothing(self.net_qty);
        Position {
            net_qty: self.net_qty.sum(signed),
            avg_cost: if N::integer(0).below(total_qty) {
                self.avg_cost.product(held).sum(price.product(qty)).quotient(total_qty)
            } else {
                N::integer(0)
            },
            realized_pnl: self.realized_pnl,
            opened_ts: if opening {
                ts_ns
            } else {
                self.opened_ts
            },
            entry_price: if opening {
                price
            } else {
                self.entry_price.product(held).sum(price.product(qty)).quotient(total_qty)
            },
        }
    }

    /// What closing contracts of the position gains, without fees.
    pub open spec fn gain(self, closing: N, price: N) -> N {
        if N::integer(0).below(self.net_qty) {
            price.difference(self.avg_cost).product(closing)
        } else {
            self.avg_cost.difference(price).product(closing)
        }
    }

    /// The position with contracts taken off it. Contracts beyond what was held open a position on
    /// the other side. What was gained, less what it cost, is realized.
    pub open spec fn reduced(
        self,
        signed: N,
        qty: N,
        price: N,
        fee: N,
        slip: N,
        ts_ns: i64,
    ) -> Position<N> {
        let held = self.net_qty.magnitude();
        let net = self.net_qty.sum(signed);
        let realized = self.realized_pnl.sum(
            self.gain(qty.lesser(held), price).difference(fee).difference(slip),
        );
        if qty.magnitude().at_most(held.sum(speck::<N>())) {
            if nothing(net) {
                Position { realized_pnl: realized, ..Position::flat() }
            } else {
                Position { net_qty: net, realized_pnl: realized, ..self }
            }
        } else {
            Position {
                net_qty: net,
                avg_cost: price,
                realized_pnl: realized,
                opened_ts: ts_ns,
                entry_price: price,
            }
        }
    }

    /// Whether contracts add to the position and do not reduce it.
    pub open spec fn grows(self, signed: N) -> bool {
        self.net_qty.equals(N::integer(0)) || N::integer(0).below(self.net_qty) == N::integer(
            0,
        ).below(signed)
    }
}

impl<N: Number> InstrumentStat<N> {
    /// Nothing traded.
    pub open spec fn none() -> InstrumentStat<N> {
        InstrumentStat {
            pnl: N::integer(0),
            num_fills: 0,
            num_round_trips: 0,
            net_position: N::integer(0),
            volume: N::integer(0),
        }
    }
}

impl<N: Number> Default for Position<N> {
    fn default() -> (r: Position<N>)
        ensures
            r == Position::<N>::flat(),
    {
        let zero = N::from_int(0);
        Position { net_qty: zero, avg_cost: zero, realized_pnl: zero, opened_ts: 0, entry_price: zero }
    }
}

impl<N: Number> Default for InstrumentStat<N> {
    fn default() -> (r: InstrumentStat<N>)
        ensures
            r == InstrumentStat::<N>::none(),
    {
        let zero = N::from_int(0);
        InstrumentStat { pnl: zero, num_fills: 0, num_round_trips: 0, net_position: zero, volume: zero }
    }
}

/// The contracts of a fill, below 0 where they are sold.
pub open spec fn signed_qty<N: Number>(f: FillView<N>) -> N {
    match f.side {
        Side::Bid => f.qty,
        Side::Ask => f.qty.negated(),
    }
}

/// What is held of an instrument; nothing where there is no position.
pub open spec fn held<N: Number>(
    positions: Seq<(Seq<char>, Position<N>)>,
    instrument: Seq<char>,
) -> Position<N> {
    match entry(positions, instrument) {
        Some(p) => p,
        None => Position::flat(),
    }
}

/// The totals of an instrument.
pub open spec fn totals<N: Number>(
    stats: Seq<(Seq<char>, InstrumentStat<N>)>,
    instrument: Seq<char>,
) -> InstrumentStat<N> {
    match entry(stats, instrument) {
        Some(s) => s,
        None => InstrumentStat::none(),
    }
}

/// The price that a position is valued at: the middle of the book, else the best bid, else the
/// best ask.
pub open spec fn mark_of<N: Number>(
    books: Seq<(Seq<char>, BookView<N>)>,
    instrument: Seq<char>,
) -> Option<N> {
    match entry(books, instrument) {
        None => None,
        Some(b) => match (b.middle(), b.top_bid(), b.top_ask()) {
            (Some(m), _, _) => Some(m),
            (None, Some((p, _)), _) => Some(p.dollars::<N>()),
            (None, None, Some((p, _))) => Some(p.dollars::<N>()),
            (None, None, None) => None,
        },
    }
}

/// A sum plus what the positions are worth, one after the other. A position without a mark counts
/// for nothing.
pub open spec fn worth<N: Number>(
    start: N,
    positions: Seq<(Seq<char>, Position<N>)>,
    books: Seq<(Seq<char>, BookView<N>)>,
) -> N
    decreases positions.len(),
{
    if positions.len() == 0 {
        start
    } else {
        let before = worth(start, positions.drop_last(), books);
        let (instrument, p) = positions.last();
        match mark_of(books, instrument) {
            Some(m) => if p.net_qty.equals(N::integer(0)) {
                before
            } else {
                before.sum(p.net_qty.product(m))
            },
            None => before,
        }
    }
}

/// What the positions would gain at their marks.
pub open spec fn paper_gain<N: Number>(
    positions: Seq<(Seq<char>, Position<N>)>,
    books: Seq<(Seq<char>, BookView<N>)>,
) -> N
    decreases positions.len(),
{
    if positions.len() == 0 {
        N::integer(0)
    } else {
        let before = paper_gain(positions.drop_last(), books);
        let (instrument, p) = positions.last();
        match mark_of(books, instrument) {
            Some(m) => if p.net_qty.equals(N::integer(0)) {
                before
            } else {
                before.sum(p.net_qty.product(m.difference(p.avg_cost)))
            },
            None => before,
        }
    }
}

/// Whether anything is held.
pub open spec fn any_held<N: Number>(positions: Seq<(Seq<char>, Position<N>)>) -> bool {
    exists|i: int|
        0 <= i < positions.len() && speck::<N>().below(
            (#[trigger] positions[i]).1.net_qty.magnitude(),
        )
}

impl<N: Number> PortfolioView<N> {
    /// An account with cash and nothing else.
    pub open spec fn opening(cash: N, currency: Seq<char>, snapshot_secs: i64) -> PortfolioView<N> {
        let zero = N::integer(0);
        PortfolioView {
            cash,
            positions: Seq::empty(),
            total_orders: 0,
            total_fills: 0,
            total_fees: zero,
            total_slippage_cost: zero,
            liquidity_rewards: zero,
            include_fees: true,
            buy_notional: zero,
            buy_qty: zero,
            sell_notional: zero,
            sell_qty: zero,
            round_trip_pnls: Seq::empty(),
            round_trips: Seq::empty(),
            instrument_stats: Seq::empty(),
            total_volume: zero,
            holding_secs_sum: zero,
            holding_count: 0,
            snapshots_with_position: 0,
            fills: Seq::empty(),
            halted: false,
            halt_reason: Seq::empty(),
            risk_rejections: 0,
            post_only_rejects: 0,
            settled_pnl: zero,
            num_settled: 0,
            currency,
            snapshot_secs: if snapshot_secs < 0 {
                0
            } else {
                snapshot_secs
            },
            last_snapshot_ts: i64::MIN,
            equity_curve: Seq::empty(),
        }
    }

    /// The fee that a fill is charged.
    pub open spec fn charged(self, f: FillView<N>) -> N {
        if self.include_fees {
            f.fee
        } else {
            N::integer(0)
        }
    }

    /// The account once a fill's money has moved and its totals are counted. A buyer pays the
    /// price, the fee and the slippage; a seller gets the price less both.
    pub open spec fn booked(self, f: FillView<N>, slip: N) -> PortfolioView<N> {
        let fee = self.charged(f);
        let notional = f.price.dollars::<N>().product(f.qty);
        let counted = PortfolioView {
            total_fills: self.total_fills.wrapping_add(1),
            total_fees: self.total_fees.sum(fee),
            total_slippage_cost: self.total_slippage_cost.sum(slip),
            total_volume: self.total_volume.sum(f.qty),
            fills: self.fills.push(f),
            ..self
        };
        match f.side {
            Side::Bid => PortfolioView {
                cash: self.cash.difference(notional.sum(fee).sum(slip)),
                buy_notional: self.buy_notional.sum(notional),
                buy_qty: self.buy_qty.sum(f.qty),
                ..counted
            },
            Side::Ask => PortfolioView {
                cash: self.cash.sum(notional.difference(fee).difference(slip)),
                sell_notional: self.sell_notional.sum(notional),
                sell_qty: self.sell_qty.sum(f.qty),
                ..counted
            },
        }
    }

    /// The position in a fill's instrument after the fill.
    pub open spec fn position_after(self, f: FillView<N>, slip: N) -> Position<N> {
        let p = held(self.positions, f.instrument);
        let signed = signed_qty(f);
        if p.grows(signed) {
            p.grown(signed, f.qty, f.price.dollars::<N>(), f.ts_ns)
        } else {
            p.reduced(
                signed,
                f.qty,
                f.price.dollars::<N>(),
                self.charged(f),
                slip,
                f.ts_ns,
            )
        }
    }

    /// The round trip that a fill completes: what it closes of the position in its instrument. The
    /// fee and the slippage of the fill come off what it gains.
    pub open spec fn trip(self, f: FillView<N>, slip: N) -> Option<RoundTripView<N>> {
        let p = held(self.positions, f.instrument);
        let closing = f.qty.lesser(p.net_qty.magnitude());
        let price = f.price.dollars::<N>();
        if p.grows(signed_qty(f)) {
            None
        } else {
            Some(
                RoundTripView {
                    instrument: f.instrument,
                    entry_ts: p.opened_ts,
                    exit_ts: f.ts_ns,
                    qty: closing,
                    entry_price: p.entry_price,
                    exit_price: price,
                    pnl: p.gain(closing, price).difference(self.charged(f)).difference(slip),
                },
            )
        }
    }

    /// The totals of a fill's instrument after the fill.
    pub open spec fn totals_after(self, f: FillView<N>, slip: N) -> InstrumentStat<N> {
        let was = totals(self.instrument_stats, f.instrument);
        InstrumentStat {
            pnl: match self.trip(f, slip) {
                Some(t) => was.pnl.sum(t.pnl),
                None => was.pnl,
            },
            num_fills: was.num_fills.wrapping_add(1),
            num_round_trips: match self.trip(f, slip) {
                Some(t) => was.num_round_trips.wrapping_add(1),
                None => was.num_round_trips,
            },
            net_position: self.position_after(f, slip).net_qty,
            volume: was.volume.sum(f.qty),
        }
    }

    /// The account with a round trip more.
    pub open spec fn with_trip(self, t: RoundTripView<N>) -> PortfolioView<N> {
        let timed = t.exit_ts >= t.entry_ts;
        PortfolioView {
            round_trip_pnls: self.round_trip_pnls.push(t.pnl),
            round_trips: self.round_trips.push(t),
            holding_secs_sum: if timed {
                self.holding_secs_sum.sum(
                    N::integer(t.exit_ts.wrapping_sub(t.entry_ts) as int).quotient(
                        N::integer(1_000_000_000),
                    ),
                )
            } else {
                self.holding_secs_sum
            },
            holding_count: if timed {
                self.holding_count.wrapping_add(1)
            } else {
                self.holding_count
            },
            ..self
        }
    }

    /// The account once a fill was applied to it, with a cost of slippage. A cost below 0 counts as
    /// none.
    pub open spec fn after_fill(self, f: FillView<N>, slippage_cost: N) -> PortfolioView<N> {
        let slip = slippage_cost.greater(N::integer(0));
        let counted = PortfolioView {
            positions: put_entry(self.positions, f.instrument, self.position_after(f, slip)),
            instrument_stats: put_entry(
                self.instrument_stats,
                f.instrument,
                self.totals_after(f, slip),
            ),
            ..self.booked(f, slip)
        };
        match self.trip(f, slip) {
            Some(t) => counted.with_trip(t),
            None => counted,
        }
    }

    /// The fill that settles a position: the whole of it, at its payout, without a fee.
    pub open spec fn settlement(self, instrument: Seq<char>, payout: N, ts_ns: i64) -> FillView<N> {
        let q = held(self.positions, instrument).net_qty;
        FillView {
            ts_ns,
            order_id: 0,
            instrument,
            side: if N::integer(0).below(q) {
                Side::Ask
            } else {
                Side::Bid
            },
            price: Cents::of_dollars(payout),
            qty: q.magnitude(),
            liquidity: Liquidity::Settle,
            fee: N::integer(0),
        }
    }

    /// Whether there is anything of an instrument to settle.
    pub open spec fn to_settle(self, instrument: Seq<char>) -> bool {
        !nothing(held(self.positions, instrument).net_qty)
    }

    /// The account once the position in an instrument was settled.
    pub open spec fn after_settlement(
        self,
        instrument: Seq<char>,
        payout: N,
        ts_ns: i64,
    ) -> PortfolioView<N> {
        if self.to_settle(instrument) {
            self.after_fill(self.settlement(instrument, payout, ts_ns), N::integer(0))
        } else {
            self
        }
    }

    /// What settling the position in an instrument gains over its cost.
    pub open spec fn settlement_gain(self, instrument: Seq<char>, payout: N) -> N {
        let p = held(self.positions, instrument);
        if self.to_settle(instrument) {
            p.net_qty.product(payout.difference(p.avg_cost))
        } else {
            N::integer(0)
        }
    }

    /// Cash and what the positions are worth.
    pub open spec fn net_worth(self, books: Seq<(Seq<char>, BookView<N>)>) -> N {
        worth(self.cash, self.positions, books)
    }

    /// The account with one more equity point.
    pub open spec fn recorded(
        self,
        ts_ns: i64,
        books: Seq<(Seq<char>, BookView<N>)>,
    ) -> PortfolioView<N> {
        PortfolioView {
            snapshots_with_position: if any_held(self.positions) {
                self.snapshots_with_position.wrapping_add(1)
            } else {
                self.snapshots_with_position
            },
            equity_curve: self.equity_curve.push(
                EquityView { ts_ns, total: self.net_worth(books), currency: self.currency },
            ),
            ..self
        }
    }

    /// Whether an equity point is due: none was recorded yet, or at least `snapshot_secs` have
    /// passed since the last one.
    pub open spec fn due(self, ts_ns: i64) -> bool {
        self.last_snapshot_ts == i64::MIN || ts_ns - self.last_snapshot_ts >= self.snapshot_secs
            * 1_000_000_000
    }

    /// The account with an equity point more if one is due.
    pub open spec fn sampled(
        self,
        ts_ns: i64,
        books: Seq<(Seq<char>, BookView<N>)>,
    ) -> PortfolioView<N> {
        if self.due(ts_ns) {
            PortfolioView { last_snapshot_ts: ts_ns, ..self }.recorded(ts_ns, books)
        } else {
            self
        }
    }
}

impl<N: Number> Portfolio<N> {
    /// An account with cash and nothing else.
    pub fn new(starting_cash: N, currency: String, snapshot_secs: i64) -> (r: Portfolio<N>)
        ensures
            r@ == PortfolioView::opening(starting_cash, currency@, snapshot_secs),
    {
        let zero = N::from_int(0);
        let secs: i64 = if snapshot_secs < 0 {
            0
        } else {
            snapshot_secs
        };
        let halt_reason = String::new();
        proof {
            assert(halt_reason@ =~= Seq::<char>::empty());
        }
        let r = Portfolio {
            cash: starting_cash,
            positions: StrMap::new(),
            total_orders: 0,
            total_fills: 0,
            total_fees: zero,
            total_slippage_cost: zero,
            liquidity_rewards: zero,
            include_fees: true,
            buy_notional: zero,
            buy_qty: zero,
            sell_notional: zero,
            sell_qty: zero,
            round_trip_pnls: Vec::new(),
            round_trips: Vec::new(),
            instrument_stats: StrMap::new(),
            total_volume: zero,
            holding_secs_sum: zero,
            holding_count: 0,
            snapshots_with_position: 0,
            fills: Vec::new(),
            halted: false,
            halt_reason,
            risk_rejections: 0,
            post_only_rejects: 0,
            settled_pnl: zero,
            num_settled: 0,
            currency,
            snapshot_secs: secs,
            last_snapshot_ts: i64::MIN,
            equity_curve: Vec::new(),
        };
        assert(r@ =~= PortfolioView::opening(starting_cash, currency@, snapshot_secs));
        r
    }

    /// What is held of an instrument; nothing where there is no position.
    pub fn position(&self, instrument: &str) -> (r: Position<N>)
        ensures
            r == held(self@.positions, instrument@),
    {
        match self.positions.get(instrument) {
            Some(p) => *p,
            None => Position::default(),
        }
    }

    /// Applies a fill without slippage.
    pub fn apply_fill(&mut self, fill: &Fill<N>)
        ensures
            final(self)@ == old(self)@.after_fill(fill@, N::integer(0)),
    {
        self.apply_fill_ex(fill, N::from_int(0));
    }

    /// Applies a fill: moves cash, brings the position and the totals up to date, and records a
    /// round trip where contracts are closed.
    pub fn apply_fill_ex(&mut self, fill: &Fill<N>, slippage_cost: N)
        ensures
            final(self)@ == old(self)@.after_fill(fill@, slippage_cost),
    {
        let zero = N::from_int(0);
        let price = fill.price.to_dollars::<N>();
        let qty = fill.qty;
        let notional = price.times(qty);
        let ts: i64 = fill.ts_ns;
        let slip = slippage_cost.max(zero);
        let fee = if self.include_fees {
            fill.fee
        } else {
            zero
        };
        self.total_fills = self.total_fills.wrapping_add(1);
        self.total_fees = self.total_fees.plus(fee);
        self.total_slippage_cost = self.total_slippage_cost.plus(slip);
        self.total_volume = self.total_volume.plus(qty);
        let ghost fills_before = self.fills@;
        let kept = fill.copy();
        self.fills.push(kept);
        proof {
            assert(fill_views(self.fills@) =~= fill_views(fills_before).push(fill@));
        }
        let signed = match fill.side {
            Side::Bid => {
                self.cash = self.cash.minus(notional.plus(fee).plus(slip));
                self.buy_notional = self.buy_notional.plus(notional);
                self.buy_qty = self.buy_qty.plus(qty);
                qty
            },
            Side::Ask => {
                self.cash = self.cash.plus(notional.minus(fee).minus(slip));
                self.sell_notional = self.sell_notional.plus(notional);
                self.sell_qty = self.sell_qty.plus(qty);
                qty.neg()
            },
        };
        let mut stat: InstrumentStat<N> = match self.instrument_stats.get(fill.instrument.as_str()) {
            Some(s) => *s,
            None => InstrumentStat::default(),
        };
        stat.num_fills = stat.num_fills.wrapping_add(1);
        stat.volume = stat.volume.plus(qty);
        let mut pos: Position<N> = self.position(fill.instrument.as_str());
        let old_qty = pos.net_qty;
        let was = old_qty.abs();
        let new_qty = old_qty.plus(signed);
        let same_direction: bool = old_qty.is_equal(zero) || zero.is_below(old_qty)
            == zero.is_below(signed);
        if same_direction {
            let total_qty = was.plus(qty);
            if is_nothing(old_qty) {
                pos.opened_ts = ts;
                pos.entry_price = price;
            } else {
                pos.entry_price = pos.entry_price.times(was).plus(price.times(qty)).over(total_qty);
            }
            pos.avg_cost = if zero.is_below(total_qty) {
                pos.avg_cost.times(was).plus(price.times(qty)).over(total_qty)
            } else {
                zero
            };
            pos.net_qty = new_qty;
        } else {
            let closing = qty.min(was);
            let pnl = if zero.is_below(old_qty) {
                price.minus(pos.avg_cost).times(closing)
            } else {
                pos.avg_cost.minus(price).times(closing)
            };
            let net_pnl = pnl.minus(fee).minus(slip);
            pos.realized_pnl = pos.realized_pnl.plus(net_pnl);
            self.round_trip_pnls.push(net_pnl);
            let entry_ts: i64 = pos.opened_ts;
            let ghost trips_before = self.round_trips@;
            let trip = RoundTrip {
                instrument: fill.instrument.clone(),
                entry_ts,
                exit_ts: ts,
                qty: closing,
                entry_price: pos.entry_price,
                exit_price: price,
                pnl: net_pnl,
            };
            let ghost trip_view = trip@;
            self.round_trips.push(trip);
            proof {
                assert(trip_views(self.round_trips@) =~= trip_views(trips_before).push(trip_view));
            }
            if ts >= entry_ts {
                self.holding_secs_sum = self.holding_secs_sum.plus(
                    N::from_int(ts.wrapping_sub(entry_ts)).over(N::from_int(1_000_000_000)),
                );
                self.holding_count = self.holding_count.wrapping_add(1);
            }
            stat.pnl = stat.pnl.plus(net_pnl);
            stat.num_round_trips = stat.num_round_trips.wrapping_add(1);
            if qty.abs().is_at_most(was.plus(tiny::<N>())) {
                pos.net_qty = new_qty;
                if is_nothing(new_qty) {
                    pos.net_qty = zero;
                    pos.avg_cost = zero;
                    pos.opened_ts = 0;
                    pos.entry_price = zero;
                }
            } else {
                pos.net_qty = new_qty;
                pos.avg_cost = price;
                pos.opened_ts = ts;
                pos.entry_price = price;
            }
        }
        stat.net_position = pos.net_qty;
        self.positions.insert(fill.instrument.clone(), pos);
        self.instrument_stats.insert(fill.instrument.clone(), stat);
    }

    /// Settles the position in an instrument at what a contract pays, without a fee, and returns
    /// what that gains over its cost; 0 where nothing is held.
    pub fn settle_position(&mut self, instrument: &str, payout: N, ts_ns: i64) -> (r: N)
        ensures
            final(self)@ == old(self)@.after_settlement(instrument@, payout, ts_ns),
            r == old(self)@.settlement_gain(instrument@, payout),
    {
        let zero = N::from_int(0);
        let pos = self.position(instrument);
        let q = pos.net_qty;
        if is_nothing(q) {
            return zero;
        }
        let gain = q.times(payout.minus(pos.avg_cost));
        let side = if zero.is_below(q) {
            Side::Ask
        } else {
            Side::Bid
        };
        let fill = Fill {
            ts_ns,
            order_id: 0,
            instrument: instrument.to_owned(),
            side,
            price: Cents::from_dollars(payout),
            qty: q.abs(),
            liquidity: Liquidity::Settle,
            fee: zero,
        };
        self.apply_fill_ex(&fill, zero);
        gain
    }

    /// What the positions would gain at their marks.
    pub fn unrealized(&self, books: &BookSet<N>) -> (r: N)
        ensures
            r == paper_gain(self@.positions, books@),
    {
        let ghost all = self.positions.listing();
        let mut total = N::from_int(0);
        let n: usize = self.positions.len();
        let mut i: usize = 0;
        while i < n
            invariant
                i <= n,
                n == all.len(),
                n == self.positions.keys().len(),
                all == self.positions.listing(),
                total == paper_gain(all.take(i as int), books@),
            decreases n - i,
        {
            let pos: Position<N> = *self.positions.value_at(i);
            let instrument = self.positions.key_at(i);
            proof {
                assert(all.take(i + 1).drop_last() =~= all.take(i as int));
                assert(all[i as int] == (instrument@, pos));
            }
            if !pos.net_qty.is_equal(N::from_int(0)) {
                if let Some(m) = mark_price(books, instrument.as_str()) {
                    total = total.plus(pos.net_qty.times(m.minus(pos.avg_cost)));
                }
            }
            i += 1;
        }
        proof {
            assert(all.take(n as int) =~= all);
        }
        total
    }

    /// Cash and what the positions are worth at their marks.
    pub fn equity(&self, books: &BookSet<N>) -> (r: N)
        ensures
            r == self@.net_worth(books@),
    {
        let ghost all = self.positions.listing();
        let mut total = self.cash;
        let n: usize = self.positions.len();
        let mut i: usize = 0;
        while i < n
            invariant
                i <= n,
                n == all.len(),
                n == self.positions.keys().len(),
                all == self.positions.listing(),
                total == worth(self.cash, all.take(i as int), books@),
            decreases n - i,
        {
            let pos: Position<N> = *self.positions.value_at(i);
            let instrument = self.positions.key_at(i);
            proof {
                assert(all.take(i + 1).drop_last() =~= all.take(i as int));
                assert(all[i as int] == (instrument@, pos));
            }
            if !pos.net_qty.is_equal(N::from_int(0)) {
                if let Some(m) = mark_price(books, instrument.as_str()) {
                    total = total.plus(pos.net_qty.times(m));
                }
            }
            i += 1;
        }
        proof {
            assert(all.take(n as int) =~= all);
        }
        total
    }

    /// Records an equity point if one is due.
    pub fn maybe_snapshot(&mut self, ts_ns: i64, books: &BookSet<N>)
        ensures
            final(self)@ == old(self)@.sampled(ts_ns, books@),
    {
        let due: bool = if self.last_snapshot_ts == i64::MIN {
            true
        } else {
            let passed: i128 = ts_ns as i128 - self.last_snapshot_ts as i128;
            passed >= self.snapshot_secs as i128 * 1_000_000_000
        };
        if due {
            self.last_snapshot_ts = ts_ns;
            self.push_snapshot(ts_ns, books);
        }
    }

    /// Records an equity point, due or not.
    pub fn force_snapshot(&mut self, ts_ns: i64, books: &BookSet<N>)
        ensures
            final(self)@ == old(self)@.recorded(ts_ns, books@),
    {
        self.push_snapshot(ts_ns, books);
    }

    fn push_snapshot(&mut self, ts_ns: i64, books: &BookSet<N>)
        ensures
            final(self)@ == old(self)@.recorded(ts_ns, books@),
    {
        let ghost all = self.positions.listing();
        let n: usize = self.positions.len();
        let mut found = false;
        let mut i: usize = 0;
        while i < n && !found
            invariant
                i <= n,
                n == all.len(),
                n == self.positions.keys().len(),
                all == self.positions.listing(),
                found ==> any_held(all),
                !found ==> forall|j: int|
                    0 <= j < i ==> !speck::<N>().below((#[trigger] all[j]).1.net_qty.magnitude()),
            decreases n - i,
        {
            let pos: Position<N> = *self.positions.value_at(i);
            assert(all[i as int].1 == pos);
            if tiny::<N>().is_below(pos.net_qty.abs()) {
                found = true;
            }
            i += 1;
        }
        let total = self.equity(books);
        if found {
            self.snapshots_with_position = self.snapshots_with_position.wrapping_add(1);
        }
        let ghost before = self.equity_curve@;
        let point = EquityPoint { ts_ns, total, currency: self.currency.clone() };
        let ghost said = point@;
        self.equity_curve.push(point);
        proof {
            assert(equity_views(self.equity_curve@) =~= equity_views(before).push(said));
        }
    }

    /// The average price of what was bought; 0 where nothing was.
    pub fn avg_buy_price(&self) -> (r: N)
        ensures
            r == if N::integer(0).below(self.buy_qty) {
                self.buy_notional.quotient(self.buy_qty)
            } else {
                N::integer(0)
            },
    {
        if N::from_int(0).is_below(self.buy_qty) {
            self.buy_notional.over(self.buy_qty)
        } else {
            N::from_int(0)
        }
    }

    /// The average price of what was sold; 0 where nothing was.
    pub fn avg_sell_price(&self) -> (r: N)
        ensures
            r == if N::integer(0).below(self.sell_qty) {
                self.sell_notional.quotient(self.sell_qty)
            } else {
                N::integer(0)
            },
    {
        if N::from_int(0).is_below(self.sell_qty) {
            self.sell_notional.over(self.sell_qty)
        } else {
            N::from_int(0)
        }
    }

    /// How long round trips took on average, in seconds; 0 where there were none.
    pub fn avg_holding_secs(&self) -> (r: N)
        ensures
            r == if self.holding_count > 0 {
                self.holding_secs_sum.quotient(N::integer(self.holding_count as int))
            } else {
                N::integer(0)
            },
    {
        if self.holding_count > 0 {
            self.holding_secs_sum.over(N::from_int(self.holding_count))
        } else {
            N::from_int(0)
        }
    }

    /// Sets the rewards accrued in all. Where they are credited, what they grew by goes to cash.
    pub fn set_liquidity_rewards(&mut self, total: N, credit_to_cash: bool)
        ensures
            final(self)@ == (PortfolioView {
                liquidity_rewards: total,
                cash: if credit_to_cash {
                    old(self)@.cash.sum(total.difference(old(self)@.liquidity_rewards))
                } else {
                    old(self)@.cash
                },
                ..old(self)@
            }),
    {
        let delta = total.minus(self.liquidity_rewards);
        self.liquidity_rewards = total;
        if credit_to_cash {
            self.cash = self.cash.plus(delta);
        }
    }
}

/// The price that a position is valued at.
pub fn mark_price<N: Number>(books: &BookSet<N>, instrument: &str) -> (r: Option<N>)
    ensures
        r == mark_of(books@, instrument@),
{
    match books.get(instrument) {
        None => None,
        Some(b) => match b.mid() {
            Some(m) => Some(m),
            None => match b.best_bid() {
                Some((p, _)) => Some(p.to_dollars::<N>()),
                None => match b.best_ask() {
                    Some((p, _)) => Some(p.to_dollars::<N>()),
                    None => None,
                },
            },
        },
    }
}

/// A fill touches the position and the totals of its own instrument and of no other.
pub proof fn law_fill_touches_one_instrument<N: Number>(
    p: PortfolioView<N>,
    f: FillView<N>,
    slippage_cost: N,
    other: Seq<char>,
)
    requires
        other != f.instrument,
    ensures
        held(p.after_fill(f, slippage_cost).positions, other) == held(p.positions, other),
        totals(p.after_fill(f, slippage_cost).instrument_stats, other) == totals(
            p.instrument_stats,
            other,
        ),
{
    let slip = slippage_cost.greater(N::integer(0));
    law_put_then_find(p.positions, f.instrument, p.position_after(f, slip), other);
    law_put_then_find(p.instrument_stats, f.instrument, p.totals_after(f, slip), other);
}

/// Every fill is kept, in the order in which it came, and counted as one more.
pub proof fn law_fills_are_kept<N: Number>(
    p: PortfolioView<N>,
    f: FillView<N>,
    slippage_cost: N,
)
    ensures
        p.after_fill(f, slippage_cost).fills == p.fills.push(f),
        p.after_fill(f, slippage_cost).total_fills == p.total_fills.wrapping_add(1),
{
}

/// What is held of an instrument and what its totals say is held are the same after a fill.
pub proof fn law_totals_follow_position<N: Number>(
    p: PortfolioView<N>,
    f: FillView<N>,
    slippage_cost: N,
)
    requires
        ordered(p.positions),
        ordered(p.instrument_stats),
    ensures
        ({
            let q = p.after_fill(f, slippage_cost);
            totals(q.instrument_stats, f.instrument).net_position == held(
                q.positions,
                f.instrument,
            ).net_qty
        }),
{
    let slip = slippage_cost.greater(N::integer(0));
    law_put_then_find(p.positions, f.instrument, p.position_after(f, slip), f.instrument);
    law_put_then_find(p.instrument_stats, f.instrument, p.totals_after(f, slip), f.instrument);
}

/// Where fees are not charged, the fee of a fill stays on the fill alone: neither the cash, the fees
/// that are added up, the positions nor the round trips depend on it.
pub proof fn law_uncharged_fees_stay_on_fills<N: Number>(
    p: PortfolioView<N>,
    f: FillView<N>,
    fee: N,
    slippage_cost: N,
)
    requires
        !p.include_fees,
    ensures
        p.after_fill(f, slippage_cost) == (PortfolioView {
            fills: p.fills.push(f),
            ..p.after_fill((FillView { fee, ..f }), slippage_cost)
        }),
{
}

/// Numbers of six decimals are too coarse for a speck: only 0 counts as nothing.
pub proof fn lemma_speck_is_zero()
    ensures
        speck::<Fixed>() == Fixed::integer(0),
{
    let d = Fixed::integer(1_000_000_000_000);
    assert(d.units == 1_000_000_000_000_000_000);
    let (a, b) = (size(1_000_000_000_000) as int, size(1_000_000_000_000_000_000) as int);
    vstd::arithmetic::div_mod::lemma_basic_div(a, b);
    assert(cut_quotient(1_000_000_000_000, 1_000_000_000_000_000_000) == 0);
    assert(Fixed::integer(1).units * 1_000_000 == 1_000_000_000_000);
}

/// So many contracts on the other side.
pub open spec fn opposite<N: Number>(q: N) -> N {
    if N::integer(0).below(q) {
        q.magnitude().negated()
    } else {
        q.magnitude()
    }
}

/// Contracts can be closed: as many on the other side stand on the other side of 0, and leave
/// nothing. That is so of every number that is finite and not 0.
pub open spec fn can_close<N: Number>(q: N) -> bool {
    &&& N::integer(0).below(q) != N::integer(0).below(opposite(q))
    &&& nothing(q.sum(opposite(q)))
    &&& nothing(N::integer(0))
}

/// Numbers of six decimals can be closed, all but the least of them.
pub proof fn law_six_decimals_can_close(q: Fixed)
    requires
        !nothing(q),
        q.units > i64::MIN,
    ensures
        can_close(q),
{
    assert(Fixed::integer(0).units == 0);
    assert(opposite(q).units == -q.units);
    assert(q.sum(opposite(q)) == Fixed::integer(0));
}

/// A position that was settled is gone, whatever it paid.
pub proof fn law_settling_closes<N: Number>(
    p: PortfolioView<N>,
    instrument: Seq<char>,
    payout: N,
    ts_ns: i64,
)
    requires
        ordered(p.positions),
        p.to_settle(instrument) ==> can_close(held(p.positions, instrument).net_qty),
    ensures
        !p.after_settlement(instrument, payout, ts_ns).to_settle(instrument),
{
    let was = held(p.positions, instrument);
    if p.to_settle(instrument) {
        let f = p.settlement(instrument, payout, ts_ns);
        let slip = N::integer(0).greater(N::integer(0));
        law_put_then_find(p.positions, instrument, p.position_after(f, slip), instrument);
        assert(signed_qty(f) == opposite(was.net_qty));
        assert(!was.grows(signed_qty(f)));
        assert(nothing(p.position_after(f, slip).net_qty));
    }
}

/// A position settles once: to settle it again changes nothing and gains nothing, whatever the
/// payout and the time.
pub proof fn law_settling_twice_is_settling_once<N: Number>(
    p: PortfolioView<N>,
    instrument: Seq<char>,
    payout: N,
    ts_ns: i64,
    again: N,
    later_ns: i64,
)
    requires
        ordered(p.positions),
        p.to_settle(instrument) ==> can_close(held(p.positions, instrument).net_qty),
    ensures
        ({
            let once = p.after_settlement(instrument, payout, ts_ns);
            &&& once.after_settlement(instrument, again, later_ns) == once
            &&& once.settlement_gain(instrument, again) == N::integer(0)
        }),
{
    law_settling_closes(p, instrument, payout, ts_ns);
}

/// A position that opens on nothing held opens at the time and the price of its fill, and the round
/// trip that closes it begins there.
pub proof fn law_trip_begins_with_its_position(
    p: PortfolioView<Fixed>,
    open: FillView<Fixed>,
    close: FillView<Fixed>,
    slip: Fixed,
)
    requires
        ordered(p.positions),
        held(p.positions, open.instrument).net_qty == Fixed::integer(0),
        close.instrument == open.instrument,
        ({
            let q = p.after_fill(open, slip);
            !held(q.positions, open.instrument).grows(signed_qty(close))
        }),
    ensures
        ({
            let t = p.after_fill(open, slip).trip(close, slip);
            &&& t is Some
            &&& t->0.entry_ts == open.ts_ns
            &&& t->0.entry_price == open.price.dollars::<Fixed>()
            &&& t->0.exit_ts == close.ts_ns
            &&& t->0.exit_price == close.price.dollars::<Fixed>()
        }),
{
    let cost = slip.greater(Fixed::integer(0));
    law_put_then_find(
        p.positions,
        open.instrument,
        p.position_after(open, cost),
        open.instrument,
    );
}

/// What a closing fill realizes is what its round trip gains: the fee and the slippage come off
/// both.
pub proof fn law_realized_is_what_trips_gain<N: Number>(
    p: PortfolioView<N>,
    f: FillView<N>,
    slippage_cost: N,
)
    requires
        ordered(p.positions),
    ensures
        ({
            let slip = slippage_cost.greater(N::integer(0));
            let was = held(p.positions, f.instrument).realized_pnl;
            let is = held(p.after_fill(f, slippage_cost).positions, f.instrument).realized_pnl;
            match p.trip(f, slip) {
                Some(t) => is == was.sum(t.pnl),
                None => is == was,
            }
        }),
{
    let slip = slippage_cost.greater(N::integer(0));
    law_put_then_find(p.positions, f.instrument, p.position_after(f, slip), f.instrument);
}

/// Equity is sampled no more often than the cadence asks: once a point was taken, none is due
/// before the whole cadence has passed since.
pub proof fn law_cadence_is_kept<N: Number>(
    p: PortfolioView<N>,
    ts_ns: i64,
    later_ns: i64,
    books: Seq<(Seq<char>, BookView<N>)>,
)
    requires
        ts_ns > i64::MIN,
        p.due(ts_ns),
        p.sampled(ts_ns, books).due(later_ns),
    ensures
        later_ns - ts_ns >= p.snapshot_secs * 1_000_000_000,
{
}

proof fn lemma_payout_price(payout: Fixed)
    requires
        payout == Fixed::integer(0) || payout == Fixed::integer(1),
    ensures
        Cents::of_dollars(payout) == (if payout.units == 0 {
            Cents(0)
        } else {
            Cents(100)
        }),
        Cents::of_dollars(payout).dollars::<Fixed>() == payout,
{
    let hundred = Fixed::integer(100);
    assert(hundred.units == 100_000_000);
    let x = payout.units as int;
    assert(x * 100_000_000 == 0 || x * 100_000_000 == 100_000_000_000_000);
    assert(cut_quotient(0, 1_000_000) == 0);
    assert(cut_quotient(100_000_000_000_000, 1_000_000) == 100_000_000);
    let scaled = payout.product(hundred);
    assert(scaled.units == 0 || scaled.units == 100_000_000);
    assert(cut_quotient(100_000_000, 1_000_000) == 100);
    assert(scaled.nearest() == scaled);
    assert(cut_quotient(100_000_000_000_000, 100_000_000) == 1_000_000);
    assert(cut_quotient(0, 100_000_000) == 0);
    assert(Fixed::integer(0).units == 0);
}

proof fn lemma_whole_product(payout: Fixed, q: Fixed)
    requires
        payout == Fixed::integer(0) || payout == Fixed::integer(1),
        0 <= q.units,
    ensures
        payout.product(q).units == (if payout.units == 0 {
            0
        } else {
            q.units
        }),
{
    let (x, y) = (payout.units as int, q.units as int);
    if x == 0 {
        assert(x * y == 0) by (nonlinear_arith)
            requires
                x == 0,
        ;
        assert(cut_quotient(0, 1_000_000) == 0);
    } else {
        assert(x * y == y * 1_000_000) by (nonlinear_arith)
            requires
                x == 1_000_000,
        ;
        assert(cut_quotient(y * 1_000_000, 1_000_000) == y);
    }
}

/// A number stays what it is when 0 is added to it or taken off it.
pub open spec fn keeps_with_zero<N: Number>(x: N) -> bool {
    x.sum(N::integer(0)) == x && x.difference(N::integer(0)) == x
}

/// A settlement pays what the contracts pay and nothing else: cash rises by the payout of the
/// contracts held, or falls by that of the contracts owed; what is gained is the payout over the
/// cost of each. It is booked as one fill of the whole position at that price, without a fee, and
/// leaves other positions as they are. The payout is one
/// that whole cents write, as 0 and 1 are, and 0 changes neither what is paid nor the fees so far.
pub proof fn law_settlement_pays<N: Number>(
    p: PortfolioView<N>,
    instrument: Seq<char>,
    payout: N,
    ts_ns: i64,
    other: Seq<char>,
)
    requires
        p.to_settle(instrument),
        Cents::of_dollars(payout).dollars::<N>() == payout,
        N::integer(0).greater(N::integer(0)) == N::integer(0),
        keeps_with_zero(payout.product(held(p.positions, instrument).net_qty.magnitude())),
        keeps_with_zero(p.total_fees),
        other != instrument,
    ensures
        ({
            let net = held(p.positions, instrument).net_qty;
            let paid = payout.product(net.magnitude());
            let q = p.after_settlement(instrument, payout, ts_ns);
            let f = q.fills.last();
            &&& q.cash == if N::integer(0).below(net) {
                p.cash.sum(paid)
            } else {
                p.cash.difference(paid)
            }
            &&& q.fills == p.fills.push(f)
            &&& f.liquidity == Liquidity::Settle
            &&& f.fee == N::integer(0)
            &&& f.qty == net.magnitude()
            &&& f.side == Side::Ask <==> N::integer(0).below(net)
            &&& f.price == Cents::of_dollars(payout)
            &&& q.total_fees == p.total_fees
            &&& p.settlement_gain(instrument, payout) == net.product(
                payout.difference(held(p.positions, instrument).avg_cost),
            )
            &&& held(q.positions, other) == held(p.positions, other)
        }),
{
    let f = p.settlement(instrument, payout, ts_ns);
    law_fill_touches_one_instrument(p, f, N::integer(0), other);
    assert(p.charged(f) == N::integer(0));
}

/// With numbers of six decimals a settlement is exact: cash rises by the payout of each contract
/// held, and falls by that of each contract owed, to the last unit.
pub proof fn law_settlement_pays_exactly(
    p: PortfolioView<Fixed>,
    instrument: Seq<char>,
    payout: Fixed,
    ts_ns: i64,
    other: Seq<char>,
)
    requires
        payout == Fixed::integer(0) || payout == Fixed::integer(1),
        p.to_settle(instrument),
        held(p.positions, instrument).net_qty.units > i64::MIN,
        -LARGEST < p.cash.units + held(p.positions, instrument).net_qty.units < LARGEST,
        p.cash.finite(),
        p.total_fees.finite(),
        other != instrument,
    ensures
        ({
            let net = held(p.positions, instrument).net_qty.units;
            let q = p.after_settlement(instrument, payout, ts_ns);
            let f = q.fills.last();
            &&& q.cash.units == p.cash.units + if payout.units == 0 {
                0
            } else {
                net as int
            }
            &&& q.fills == p.fills.push(f)
            &&& f.liquidity == Liquidity::Settle
            &&& f.fee == Fixed::integer(0)
            &&& f.qty.units == size(net as int)
            &&& f.side == Side::Ask <==> net > 0
            &&& f.price == if payout.units == 0 {
                Cents(0)
            } else {
                Cents(100)
            }
            &&& q.total_fees == p.total_fees
            &&& held(q.positions, other) == held(p.positions, other)
        }),
{
    let f = p.settlement(instrument, payout, ts_ns);
    lemma_payout_price(payout);
    lemma_whole_product(payout, f.qty);
    law_settlement_pays(p, instrument, payout, ts_ns, other);
}

fn copy_numbers<N: Number>(numbers: &Vec<N>) -> (r: Vec<N>)
    ensures
        r@ == numbers@,
{
    let mut r: Vec<N> = Vec::new();
    let n: usize = numbers.len();
    let mut i: usize = 0;
    while i < n
        invariant
            i <= n,
            n == numbers@.len(),
            r@ == numbers@.take(i as int),
        decreases n - i,
    {
        r.push(numbers[i]);
        i += 1;
        assert(numbers@.take(i as int) =~= numbers@.take(i - 1).push(numbers@[i - 1]));
    }
    assert(numbers@.take(n as int) =~= numbers@);
    r
}

fn copy_trips<N: Number>(trips: &Vec<RoundTrip<N>>) -> (r: Vec<RoundTrip<N>>)
    ensures
        trip_views(r@) == trip_views(trips@),
{
    let mut r: Vec<RoundTrip<N>> = Vec::new();
    let n: usize = trips.len();
    let mut i: usize = 0;
    while i < n
        invariant
            i <= n,
            n == trips@.len(),
            r@.len() == i,
            forall|j: int| 0 <= j < i ==> (#[trigger] r@[j])@ == trips@[j]@,
        decreases n - i,
    {
        let t = &trips[i];
        r.push(
            RoundTrip {
                instrument: t.instrument.clone(),
                entry_ts: t.entry_ts,
                exit_ts: t.exit_ts,
                qty: t.qty,
                entry_price: t.entry_price,
                exit_price: t.exit_price,
                pnl: t.pnl,
            },
        );
        i += 1;
    }
    assert(trip_views(r@) =~= trip_views(trips@));
    r
}

fn copy_fills<N: Number>(fills: &Vec<Fill<N>>) -> (r: Vec<Fill<N>>)
    ensures
        fill_views(r@) == fill_views(fills@),
{
    let mut r: Vec<Fill<N>> = Vec::new();
    let n: usize = fills.len();
    let mut i: usize = 0;
    while i < n
        invariant
            i <= n,
            n == fills@.len(),
            r@.len() == i,
            forall|j: int| 0 <= j < i ==> (#[trigger] r@[j])@ == fills@[j]@,
        decreases n - i,
    {
        r.push(fills[i].copy());
        i += 1;
    }
    assert(fill_views(r@) =~= fill_views(fills@));
    r
}

pub(crate) fn copy_curve<N: Number>(curve: &Vec<EquityPoint<N>>) -> (r: Vec<EquityPoint<N>>)
    ensures
        equity_views(r@) == equity_views(curve@),
{
    let mut r: Vec<EquityPoint<N>> = Vec::new();
    let n: usize = curve.len();
    let mut i: usize = 0;
    while i < n
        invariant
            i <= n,
            n == curve@.len(),
            r@.len() == i,
            forall|j: int| 0 <= j < i ==> (#[trigger] r@[j])@ == curve@[j]@,
        decreases n - i,
    {
        let p = &curve[i];
        r.push(EquityPoint { ts_ns: p.ts_ns, total: p.total, currency: p.currency.clone() });
        i += 1;
    }
    proof {
        assert(equity_views(r@) =~= equity_views(curve@));
    }
    r
}

impl<N: Number> Clone for Portfolio<N> {
    fn clone(&self) -> (r: Portfolio<N>)
        ensures
            r@ == self@,
    {
        Portfolio {
            cash: self.cash,
            positions: self.positions.copied(),
            total_orders: self.total_orders,
            total_fills: self.total_fills,
            total_fees: self.total_fees,
            total_slippage_cost: self.total_slippage_cost,
            liquidity_rewards: self.liquidity_rewards,
            include_fees: self.include_fees,
            buy_notional: self.buy_notional,
            buy_qty: self.buy_qty,
            sell_notional: self.sell_notional,
            sell_qty: self.sell_qty,
            round_trip_pnls: copy_numbers(&self.round_trip_pnls),
            round_trips: copy_trips(&self.round_trips),
            instrument_stats: self.instrument_stats.copied(),
            total_volume: self.total_volume,
            holding_secs_sum: self.holding_secs_sum,
            holding_count: self.holding_count,
            snapshots_with_position: self.snapshots_with_position,
            fills: copy_fills(&self.fills),
            halted: self.halted,
            halt_reason: self.halt_reason.clone(),
            risk_rejections: self.risk_rejections,
            post_only_rejects: self.post_only_rejects,
            settled_pnl: self.settled_pnl,
            num_settled: self.num_settled,
            currency: self.currency.clone(),
            snapshot_secs: self.snapshot_secs,
            last_snapshot_ts: self.last_snapshot_ts,
            equity_curve: copy_curve(&self.equity_curve),
        }
    }
}

// ---- what an account is worth ------------------------------------------------------------------

/// What a position is worth at its mark, in millionths of millionths; below 0 where contracts are
/// owed. Without a mark it counts for nothing.
pub open spec fn value_at_mark(
    books: Seq<(Seq<char>, BookView<Fixed>)>,
    instrument: Seq<char>,
    p: Position<Fixed>,
) -> int {
    match mark_of(books, instrument) {
        Some(m) => p.net_qty.units * m.units,
        None => 0,
    }
}

/// What all positions are worth at their marks, in millionths of millionths and without a limit.
pub open spec fn exact_worth(
    positions: Seq<(Seq<char>, Position<Fixed>)>,
    books: Seq<(Seq<char>, BookView<Fixed>)>,
) -> int
    decreases positions.len(),
{
    if positions.len() == 0 {
        0
    } else {
        exact_worth(positions.drop_last(), books) + value_at_mark(
            books,
            positions.last().0,
            positions.last().1,
        )
    }
}

/// The sizes of what all positions are worth, added up.
pub open spec fn exact_worth_size(
    positions: Seq<(Seq<char>, Position<Fixed>)>,
    books: Seq<(Seq<char>, BookView<Fixed>)>,
) -> nat
    decreases positions.len(),
{
    if positions.len() == 0 {
        0
    } else {
        exact_worth_size(positions.drop_last(), books) + size(
            value_at_mark(books, positions.last().0, positions.last().1),
        )
    }
}

/// What an account is worth can be held on the way to the sum.
pub open spec fn worth_fits(
    cash: Fixed,
    positions: Seq<(Seq<char>, Position<Fixed>)>,
    books: Seq<(Seq<char>, BookView<Fixed>)>,
) -> bool {
    size(cash.units as int) * 1_000_000 + exact_worth_size(positions, books) < LARGEST * 1_000_000
}

/// All that is held is held in whole contracts.
pub open spec fn whole_contracts(positions: Seq<(Seq<char>, Position<Fixed>)>) -> bool {
    forall|i: int|
        0 <= i < positions.len() ==> (#[trigger] positions[i]).1.net_qty.units % 1_000_000 == 0
}

proof fn lemma_worth(
    cash: Fixed,
    positions: Seq<(Seq<char>, Position<Fixed>)>,
    books: Seq<(Seq<char>, BookView<Fixed>)>,
)
    requires
        worth_fits(cash, positions, books),
    ensures
        ({
            let e = worth(cash, positions, books).units * 1_000_000;
            let exact = cash.units * 1_000_000 + exact_worth(positions, books);
            let n = positions.len() as int;
            let most = size(cash.units as int) * 1_000_000 + exact_worth_size(positions, books);
            &&& -(n * 1_000_000) <= e - exact <= n * 1_000_000
            &&& n > 0 ==> -(n * 1_000_000) < e - exact < n * 1_000_000
            &&& whole_contracts(positions) ==> e == exact
            &&& -most <= e <= most
        }),
    decreases positions.len(),
{
    if positions.len() > 0 {
        let rest = positions.drop_last();
        let (instrument, p) = positions.last();
        lemma_worth(cash, rest, books);
        assert(whole_contracts(positions) ==> whole_contracts(rest)) by {
            if whole_contracts(positions) {
                assert forall|i: int| 0 <= i < rest.len() implies (
                #[trigger] rest[i]).1.net_qty.units % 1_000_000 == 0 by {
                    assert(rest[i] == positions[i]);
                }
            }
        }
        assert(positions[positions.len() - 1] == positions.last());
        if let Some(m) = mark_of(books, instrument) {
            let (x, y) = (p.net_qty.units as int, m.units as int);
            if x == 0 {
                assert(x * y == 0) by (nonlinear_arith)
                    requires
                        x == 0,
                ;
            } else {
                lemma_cut(x * y, 1_000_000);
                let c = cut_quotient(x * y, 1_000_000);
                assert(p.net_qty.product(m).units == c);
                if whole_contracts(positions) {
                    let k = x / 1_000_000;
                    assert(x == k * 1_000_000);
                    assert((k * 1_000_000) * y == (k * y) * 1_000_000) by (nonlinear_arith);
                    lemma_cut_multiple(k * y, 1_000_000);
                }
            }
        }
    }
}

/// The equity of an account is its cash and what its positions are worth at their marks: contracts
/// that are owed count against it. With numbers of six decimals it misses by less than a millionth
/// for each position, and not at all where all contracts are whole.
pub proof fn law_equity_is_cash_and_marks(
    p: PortfolioView<Fixed>,
    books: Seq<(Seq<char>, BookView<Fixed>)>,
)
    requires
        worth_fits(p.cash, p.positions, books),
    ensures
        ({
            let e = p.net_worth(books).units * 1_000_000;
            let exact = p.cash.units * 1_000_000 + exact_worth(p.positions, books);
            let n = p.positions.len() as int;
            &&& n == 0 ==> p.net_worth(books) == p.cash
            &&& n > 0 ==> -(n * 1_000_000) < e - exact < n * 1_000_000
            &&& whole_contracts(p.positions) ==> e == exact
        }),
{
    lemma_worth(p.cash, p.positions, books);
}

/// To owe contracts that are worth something is to be worth less than the cash, and to hold them is to
/// be worth more.
pub proof fn law_owing_is_worth_less(
    p: PortfolioView<Fixed>,
    books: Seq<(Seq<char>, BookView<Fixed>)>,
    mark: Fixed,
)
    requires
        p.positions.len() == 1,
        mark_of(books, p.positions[0].0) == Some(mark),
        mark.units > 0,
        worth_fits(p.cash, p.positions, books),
    ensures
        p.positions[0].1.net_qty.units <= -1_000_000 ==> p.net_worth(books).units < p.cash.units,
        p.positions[0].1.net_qty.units >= 1_000_000 ==> p.net_worth(books).units > p.cash.units,
{
    lemma_worth(p.cash, p.positions, books);
    let (x, m) = (p.positions[0].1.net_qty.units as int, mark.units as int);
    assert(p.positions.drop_last().len() == 0);
    assert(exact_worth(p.positions.drop_last(), books) == 0);
    assert(exact_worth(p.positions, books) == x * m);
    assert(x <= -1_000_000 ==> x * m <= -1_000_000) by (nonlinear_arith)
        requires
            m > 0,
    ;
    assert(x >= 1_000_000 ==> x * m >= 1_000_000) by (nonlinear_arith)
        requires
            m > 0,
    ;
}

proof fn lemma_absent_above<V>(s: Seq<(Seq<char>, V)>, k: Seq<char>)
    requires
        ordered(s),
        s.len() == 0 || text_less(s.last().0, k),
    ensures
        entry(s, k) is None,
    decreases s.len(),
{
    if s.len() > 0 {
        let rest = s.drop_last();
        lemma_text_less_irreflexive(k);
        assert(ordered(rest)) by {
            assert forall|i: int, j: int| 0 <= i < j < rest.len() implies text_less(
                (#[trigger] rest[i]).0,
                (#[trigger] rest[j]).0,
            ) by {
                assert(text_less(s[i].0, s[j].0));
            }
        }
        if rest.len() > 0 {
            assert(text_less(s[rest.len() - 1].0, s[s.len() - 1].0));
            lemma_text_less_transitive(rest.last().0, s.last().0, k);
        }
        lemma_absent_above(rest, k);
    }
}

proof fn lemma_absent_below<V>(s: Seq<(Seq<char>, V)>)
    requires
        ordered(s),
        s.len() > 0,
    ensures
        entry(s.drop_last(), s.last().0) is None,
        ordered(s.drop_last()),
{
    let rest = s.drop_last();
    assert(ordered(rest)) by {
        assert forall|i: int, j: int| 0 <= i < j < rest.len() implies text_less(
            (#[trigger] rest[i]).0,
            (#[trigger] rest[j]).0,
        ) by {
            assert(text_less(s[i].0, s[j].0));
        }
    }
    if rest.len() > 0 {
        assert(text_less(s[rest.len() - 1].0, s[s.len() - 1].0));
    }
    lemma_absent_above(rest, s.last().0);
}

proof fn lemma_worth_put(
    s: Seq<(Seq<char>, Position<Fixed>)>,
    k: Seq<char>,
    v: Position<Fixed>,
    books: Seq<(Seq<char>, BookView<Fixed>)>,
)
    requires
        ordered(s),
    ensures
        exact_worth(put_entry(s, k, v), books) == exact_worth(s, books) - value_at_mark(
            books,
            k,
            held(s, k),
        ) + value_at_mark(books, k, v),
        whole_contracts(s) && v.net_qty.units % 1_000_000 == 0 ==> whole_contracts(
            put_entry(s, k, v),
        ),
    decreases s.len(),
{
    let t = put_entry(s, k, v);
    assert(Fixed::integer(0).units == 0);
    if s.len() == 0 || text_less(s.last().0, k) {
        lemma_absent_above(s, k);
        assert(t.drop_last() =~= s);
        assert(held(s, k).net_qty.units == 0);
        if let Some(m) = mark_of(books, k) {
            assert(0 * m.units == 0);
        }
    } else if s.last().0 == k {
        assert(t.drop_last() =~= s.drop_last());
        assert(whole_contracts(s) && v.net_qty.units % 1_000_000 == 0 ==> whole_contracts(t)) by {
            if whole_contracts(s) && v.net_qty.units % 1_000_000 == 0 {
                assert forall|i: int| 0 <= i < t.len() implies (#[trigger] t[i]).1.net_qty.units
                    % 1_000_000 == 0 by {
                    if i < s.len() - 1 {
                        assert(t[i] == s[i]);
                    }
                }
            }
        }
    } else {
        let rest = s.drop_last();
        lemma_absent_below(s);
        lemma_worth_put(rest, k, v, books);
        assert(t.drop_last() =~= put_entry(rest, k, v));
        assert(whole_contracts(s) && v.net_qty.units % 1_000_000 == 0 ==> whole_contracts(t)) by {
            if whole_contracts(s) && v.net_qty.units % 1_000_000 == 0 {
                assert forall|i: int| 0 <= i < rest.len() implies (
                #[trigger] rest[i]).1.net_qty.units % 1_000_000 == 0 by {
                    assert(rest[i] == s[i]);
                }
                assert(s[s.len() - 1] == s.last());
                assert forall|i: int| 0 <= i < t.len() implies (#[trigger] t[i]).1.net_qty.units
                    % 1_000_000 == 0 by {
                    if i < t.len() - 1 {
                        assert(t[i] == put_entry(rest, k, v)[i]);
                    }
                }
            }
        }
    }
}

/// A number that leaves room for sums.
pub open spec fn modest(x: Fixed) -> bool {
    -1_000_000_000_000_000_000 <= x.units <= 1_000_000_000_000_000_000
}

/// A fill of so many whole contracts, at a price from 0 to one dollar, with a fee that leaves room for
/// sums.
pub open spec fn whole_fill(f: FillView<Fixed>, k: int) -> bool {
    &&& 0 < k <= 1_000_000_000
    &&& f.qty.units == k * 1_000_000
    &&& 0 <= f.price.0 <= 100
    &&& modest(f.fee)
}

/// What a fill adds to the contracts held: a buyer adds them, and a seller takes them off.
pub open spec fn bought(f: FillView<Fixed>, k: int) -> int {
    if f.side == Side::Bid {
        k
    } else {
        -k
    }
}

proof fn lemma_fill_moves(p: PortfolioView<Fixed>, f: FillView<Fixed>, slip: Fixed, k: int)
    requires
        ordered(p.positions),
        whole_fill(f, k),
        modest(p.cash),
        modest(slip),
        slip.units >= 0,
        -1_000_000_000_000_000 <= held(p.positions, f.instrument).net_qty.units
            <= 1_000_000_000_000_000,
    ensures
        ({
            let q = p.after_fill(f, slip);
            let fee = if p.include_fees {
                f.fee.units as int
            } else {
                0
            };
            &&& q.cash.units == p.cash.units - bought(f, k) * (f.price.0 * 10_000) - fee
                - slip.units
            &&& held(q.positions, f.instrument).net_qty.units == held(
                p.positions,
                f.instrument,
            ).net_qty.units + bought(f, k) * 1_000_000
            &&& q.positions == put_entry(
                p.positions,
                f.instrument,
                held(q.positions, f.instrument),
            )
        }),
{
    law_cents_are_hundredths(f.price);
    let c = f.price.dollars::<Fixed>();
    let y = c.units as int;
    assert(0 <= k * y <= 1_000_000_000_000_000) by (nonlinear_arith)
        requires
            0 < k <= 1_000_000_000,
            0 <= y <= 1_000_000,
    ;
    law_whole_products_are_exact(f.qty, c, k);
    assert((-k) * y == -(k * y)) by (nonlinear_arith);
    assert(Fixed::integer(0).units == 0);
    assert(slip.greater(Fixed::integer(0)) == slip);
    law_put_then_find(p.positions, f.instrument, p.position_after(f, slip), f.instrument);
    lemma_speck_is_zero();
    let q = p.after_fill(f, slip);
    let net = held(p.positions, f.instrument).net_qty;
    assert(net.sum(signed_qty(f)).units == net.units + bought(f, k) * 1_000_000);
    assert(held(q.positions, f.instrument).net_qty.units == net.units + bought(f, k) * 1_000_000);
    assert(f.price.0 * 10_000 == y);
    assert(q.cash.units == p.cash.units - bought(f, k) * y - p.charged(f).units - slip.units);
}

/// A fill moves cash and contracts against one another. A buyer pays the price of each contract and
/// gets it, a seller gives it and gets the price; the fee, where fees are charged, and the slippage
/// come off the cash of both.
pub proof fn law_fills_move_cash_and_contracts(
    p: PortfolioView<Fixed>,
    f: FillView<Fixed>,
    slip: Fixed,
    k: int,
)
    requires
        ordered(p.positions),
        whole_fill(f, k),
        modest(p.cash),
        modest(slip),
        slip.units >= 0,
        -1_000_000_000_000_000 <= held(p.positions, f.instrument).net_qty.units
            <= 1_000_000_000_000_000,
    ensures
        ({
            let q = p.after_fill(f, slip);
            let paid = k * f.price.0 * 10_000;
            let costs = slip.units + if p.include_fees {
                f.fee.units as int
            } else {
                0
            };
            let net = held(p.positions, f.instrument).net_qty.units;
            let then = held(q.positions, f.instrument).net_qty.units;
            &&& f.side == Side::Bid ==> q.cash.units == p.cash.units - paid - costs && then == net
                + f.qty.units
            &&& f.side == Side::Ask ==> q.cash.units == p.cash.units + paid - costs && then == net
                - f.qty.units
        }),
{
    lemma_fill_moves(p, f, slip, k);
    let y = f.price.0 * 10_000;
    assert(k * f.price.0 * 10_000 == k * y && (-k) * y == -(k * y)) by (nonlinear_arith)
        requires
            y == f.price.0 * 10_000,
    ;
}

/// A fill at the mark, without a fee and without slippage, leaves the equity as it was: what it takes
/// from the cash it adds to the positions.
pub proof fn law_fills_at_the_mark_keep_the_equity(
    p: PortfolioView<Fixed>,
    f: FillView<Fixed>,
    k: int,
    books: Seq<(Seq<char>, BookView<Fixed>)>,
)
    requires
        ordered(p.positions),
        whole_contracts(p.positions),
        whole_fill(f, k),
        f.fee.units == 0,
        modest(p.cash),
        -1_000_000_000_000_000 <= held(p.positions, f.instrument).net_qty.units
            <= 1_000_000_000_000_000,
        mark_of(books, f.instrument) == Some(f.price.dollars::<Fixed>()),
        worth_fits(p.cash, p.positions, books),
        ({
            let q = p.after_fill(f, Fixed::integer(0));
            worth_fits(q.cash, q.positions, books)
        }),
    ensures
        p.after_fill(f, Fixed::integer(0)).net_worth(books) == p.net_worth(books),
{
    let zero = Fixed::integer(0);
    assert(zero.units == 0);
    let q = p.after_fill(f, zero);
    lemma_fill_moves(p, f, zero, k);
    law_cents_are_hundredths(f.price);
    lemma_mark_balance(
        p.cash,
        p.positions,
        q.cash,
        q.positions,
        f.instrument,
        held(q.positions, f.instrument),
        books,
        f.price.dollars::<Fixed>(),
        bought(f, k),
    );
}

proof fn lemma_mark_balance(
    cash: Fixed,
    positions: Seq<(Seq<char>, Position<Fixed>)>,
    cash_then: Fixed,
    positions_then: Seq<(Seq<char>, Position<Fixed>)>,
    instrument: Seq<char>,
    is: Position<Fixed>,
    books: Seq<(Seq<char>, BookView<Fixed>)>,
    mark: Fixed,
    b: int,
)
    requires
        ordered(positions),
        whole_contracts(positions),
        positions_then == put_entry(positions, instrument, is),
        cash_then.units == cash.units - b * mark.units,
        is.net_qty.units == held(positions, instrument).net_qty.units + b * 1_000_000,
        mark_of(books, instrument) == Some(mark),
        worth_fits(cash, positions, books),
        worth_fits(cash_then, positions_then, books),
    ensures
        worth(cash_then, positions_then, books) == worth(cash, positions, books),
{
    lemma_held_is_whole(positions, instrument);
    lemma_worth_put(positions, instrument, is, books);
    lemma_worth(cash, positions, books);
    lemma_worth(cash_then, positions_then, books);
    let (y, x) = (mark.units as int, held(positions, instrument).net_qty.units as int);
    assert((x + b * 1_000_000) * y == x * y + (b * y) * 1_000_000) by (nonlinear_arith);
}

proof fn lemma_held_is_whole(s: Seq<(Seq<char>, Position<Fixed>)>, k: Seq<char>)
    requires
        whole_contracts(s),
    ensures
        held(s, k).net_qty.units % 1_000_000 == 0,
    decreases s.len(),
{
    if s.len() > 0 {
        assert(s[s.len() - 1] == s.last());
        let rest = s.drop_last();
        assert forall|i: int| 0 <= i < rest.len() implies (#[trigger] rest[i]).1.net_qty.units
            % 1_000_000 == 0 by {
            assert(rest[i] == s[i]);
        }
        lemma_held_is_whole(rest, k);
    }
}

/// A position is marked halfway between the best bid and the best ask; where one of them is missing,
/// at the other; and not at all where both are.
pub proof fn law_marks_come_from_the_book(
    books: Seq<(Seq<char>, BookView<Fixed>)>,
    instrument: Seq<char>,
    b: BookView<Fixed>,
)
    requires
        entry(books, instrument) == Some(b),
    ensures
        match (b.top_bid(), b.top_ask()) {
            (Some((bid, _)), Some((ask, _))) => mark_of(books, instrument) matches Some(m)
                && m.units == (bid.0 + ask.0) * 5_000,
            (Some((bid, _)), None) => mark_of(books, instrument) matches Some(m) && m.units == bid.0
                * 10_000,
            (None, Some((ask, _))) => mark_of(books, instrument) matches Some(m) && m.units == ask.0
                * 10_000,
            (None, None) => mark_of(books, instrument) is None,
        },
{
    law_middle_is_halfway(b);
    if let Some((bid, _)) = b.top_bid() {
        law_cents_are_hundredths(bid);
    }
    if let Some((ask, _)) = b.top_ask() {
        law_cents_are_hundredths(ask);
    }
}

/// A position of so many whole contracts whose cost lies between 0 and one dollar.
pub open spec fn whole_position(p: Position<Fixed>, h: int) -> bool {
    &&& p.net_qty.units == h * 1_000_000
    &&& -1_000_000_000 <= h <= 1_000_000_000
    &&& 0 <= p.avg_cost.units <= 1_000_000
    &&& 0 <= p.entry_price.units <= 1_000_000
    &&& modest(p.realized_pnl)
}

/// The charges that a fill takes off what it realizes: the fee, where fees are charged, and the
/// slippage.
pub open spec fn charges(p: PortfolioView<Fixed>, f: FillView<Fixed>, slip: Fixed) -> int {
    slip.units + if p.include_fees {
        f.fee.units as int
    } else {
        0
    }
}

proof fn lemma_whole_signs(f: FillView<Fixed>, k: int, h: int)
    requires
        whole_fill(f, k),
        -1_000_000_000 <= h <= 1_000_000_000,
    ensures
        signed_qty(f).units == bought(f, k) * 1_000_000,
        f.qty.magnitude() == f.qty,
        Fixed::integer(0).units == 0,
        f.price.dollars::<Fixed>().units == f.price.0 * 10_000,
{
    law_cents_are_hundredths(f.price);
}

/// A fill on nothing held opens a position: the contracts of the fill, at its price and its time.
/// Nothing is realized.
pub proof fn law_opening_a_position(
    p: PortfolioView<Fixed>,
    f: FillView<Fixed>,
    slip: Fixed,
    k: int,
)
    requires
        ordered(p.positions),
        whole_fill(f, k),
        held(p.positions, f.instrument).net_qty.units == 0,
        slip.units >= 0,
    ensures
        ({
            let was = held(p.positions, f.instrument);
            let is = held(p.after_fill(f, slip).positions, f.instrument);
            &&& is.net_qty.units == bought(f, k) * 1_000_000
            &&& is.avg_cost.units == f.price.0 * 10_000
            &&& is.entry_price.units == f.price.0 * 10_000
            &&& is.opened_ts == f.ts_ns
            &&& is.realized_pnl == was.realized_pnl
            &&& p.after_fill(f, slip).round_trips == p.round_trips
        }),
{
    lemma_whole_signs(f, k, 0);
    lemma_speck_is_zero();
    let cost = slip.greater(Fixed::integer(0));
    law_put_then_find(p.positions, f.instrument, p.position_after(f, cost), f.instrument);
    let was = held(p.positions, f.instrument);
    let c = f.price.dollars::<Fixed>();
    let y = c.units as int;
    assert(was.net_qty.magnitude().units == 0);
    let zero = was.net_qty.magnitude();
    assert(was.avg_cost.product(zero).units == 0) by {
        assert(was.avg_cost.units * 0 == 0);
        lemma_cut_multiple(0, 1_000_000);
    }
    assert(0 <= k * y <= 1_000_000_000_000_000) by (nonlinear_arith)
        requires
            0 < k <= 1_000_000_000,
            0 <= y <= 1_000_000,
    ;
    law_whole_products_are_exact(f.qty, c, k);
    let total = zero.sum(f.qty);
    assert(total == f.qty);
    let sum = was.avg_cost.product(zero).sum(c.product(f.qty));
    assert(sum.units == k * y);
    assert((k * y) * 1_000_000 == y * (k * 1_000_000)) by (nonlinear_arith);
    lemma_cut_multiple(y, k * 1_000_000);
    assert(sum.quotient(total).units == y);
}

/// A fill on the side of a position adds to it. Its cost is blended, each part weighed by its
/// contracts: with numbers of six decimals it misses by less than a millionth. The position keeps the
/// time at which it was opened, and nothing is realized.
pub proof fn law_adding_to_a_position(
    p: PortfolioView<Fixed>,
    f: FillView<Fixed>,
    slip: Fixed,
    k: int,
    h: int,
)
    requires
        ordered(p.positions),
        whole_fill(f, k),
        whole_position(held(p.positions, f.instrument), h),
        h > 0 && f.side == Side::Bid || h < 0 && f.side == Side::Ask,
        slip.units >= 0,
    ensures
        ({
            let was = held(p.positions, f.instrument);
            let is = held(p.after_fill(f, slip).positions, f.instrument);
            let n = size(h) as int;
            let cost = n * was.avg_cost.units + k * (f.price.0 * 10_000);
            let entry = n * was.entry_price.units + k * (f.price.0 * 10_000);
            &&& is.net_qty.units == (h + bought(f, k)) * 1_000_000
            &&& is.avg_cost.units * (n + k) <= cost < is.avg_cost.units * (n + k) + (n + k)
            &&& is.entry_price.units * (n + k) <= entry < is.entry_price.units * (n + k) + (n + k)
            &&& is.opened_ts == was.opened_ts
            &&& is.realized_pnl == was.realized_pnl
            &&& p.after_fill(f, slip).round_trips == p.round_trips
        }),
{
    lemma_whole_signs(f, k, h);
    lemma_speck_is_zero();
    let was = held(p.positions, f.instrument);
    let cost = slip.greater(Fixed::integer(0));
    law_put_then_find(p.positions, f.instrument, p.position_after(f, cost), f.instrument);
    let n = size(h) as int;
    let held_qty = was.net_qty.magnitude();
    assert(held_qty.units == n * 1_000_000);
    let c = f.price.dollars::<Fixed>();
    lemma_blend(was.avg_cost, held_qty, n, c, f.qty, k);
    lemma_blend(was.entry_price, held_qty, n, c, f.qty, k);
}

proof fn lemma_blend(a: Fixed, held_qty: Fixed, n: int, c: Fixed, qty: Fixed, k: int)
    requires
        0 < n <= 1_000_000_000,
        0 < k <= 1_000_000_000,
        held_qty.units == n * 1_000_000,
        qty.units == k * 1_000_000,
        0 <= a.units <= 1_000_000,
        0 <= c.units <= 1_000_000,
    ensures
        ({
            let r = a.product(held_qty).sum(c.product(qty)).quotient(held_qty.sum(qty)).units;
            let x = n * a.units + k * c.units;
            &&& held_qty.sum(qty).units > 0
            &&& r * (n + k) <= x < r * (n + k) + (n + k)
        }),
{
    let (u, v) = (a.units as int, c.units as int);
    assert(0 <= n * u <= 1_000_000_000_000_000 && 0 <= k * v <= 1_000_000_000_000_000)
        by (nonlinear_arith)
        requires
            0 < n <= 1_000_000_000,
            0 < k <= 1_000_000_000,
            0 <= u <= 1_000_000,
            0 <= v <= 1_000_000,
    ;
    law_whole_products_are_exact(held_qty, a, n);
    law_whole_products_are_exact(qty, c, k);
    let (x, t) = (n * u + k * v, n + k);
    lemma_cut(x * 1_000_000, t * 1_000_000);
    let q = cut_quotient(x * 1_000_000, t * 1_000_000);
    assert(q * (t * 1_000_000) == (q * t) * 1_000_000) by (nonlinear_arith);
    assert(0 <= q <= x) by (nonlinear_arith)
        requires
            0 <= (q * t) * 1_000_000 <= x * 1_000_000,
            t >= 1,
    ;
}

proof fn lemma_gain(p: Position<Fixed>, h: int, closing: Fixed, n: int, price: Fixed)
    requires
        whole_position(p, h),
        h != 0,
        0 < n <= 1_000_000_000,
        closing.units == n * 1_000_000,
        0 <= price.units <= 1_000_000,
    ensures
        p.gain(closing, price).units == n * if h > 0 {
            price.units - p.avg_cost.units
        } else {
            p.avg_cost.units - price.units
        },
        modest(p.gain(closing, price)),
{
    let d = if h > 0 {
        price.difference(p.avg_cost)
    } else {
        p.avg_cost.difference(price)
    };
    assert(Fixed::integer(0).units == 0);
    let y = d.units as int;
    assert(-1_000_000_000_000_000 <= n * y <= 1_000_000_000_000_000) by (nonlinear_arith)
        requires
            0 < n <= 1_000_000_000,
            -1_000_000 <= y <= 1_000_000,
    ;
    law_whole_products_are_exact(closing, d, n);
}

/// A fill against a position closes it, as far as it goes. What is gained on the contracts that were
/// closed is how much more they brought than they cost, or for contracts that were owed, how much
/// less; the charges of the fill come off that. It is realized, and is the result of a round trip
/// from the opening of the position to the fill. What is left keeps its cost; contracts beyond what
/// was held open a position on the other side, at the price of the fill.
pub proof fn law_closing_a_position(
    p: PortfolioView<Fixed>,
    f: FillView<Fixed>,
    slip: Fixed,
    k: int,
    h: int,
)
    requires
        ordered(p.positions),
        whole_fill(f, k),
        whole_position(held(p.positions, f.instrument), h),
        h > 0 && f.side == Side::Ask || h < 0 && f.side == Side::Bid,
        slip.units >= 0,
        modest(slip),
    ensures
        ({
            let was = held(p.positions, f.instrument);
            let q = p.after_fill(f, slip);
            let is = held(q.positions, f.instrument);
            let n = if k < size(h) {
                k
            } else {
                size(h) as int
            };
            let brought = f.price.0 * 10_000;
            let gained = n * (if h > 0 {
                brought - was.avg_cost.units
            } else {
                was.avg_cost.units - brought
            });
            let t = q.round_trips.last();
            &&& is.net_qty.units == (h + bought(f, k)) * 1_000_000
            &&& is.realized_pnl.units == was.realized_pnl.units + gained - charges(p, f, slip)
            &&& k < size(h) ==> is.avg_cost == was.avg_cost && is.entry_price == was.entry_price
                && is.opened_ts == was.opened_ts
            &&& k > size(h) ==> is.avg_cost.units == brought && is.entry_price.units == brought
                && is.opened_ts == f.ts_ns
            &&& q.round_trips.len() == p.round_trips.len() + 1
            &&& q.round_trips.drop_last() == p.round_trips
            &&& q.round_trip_pnls == p.round_trip_pnls.push(t.pnl)
            &&& t.pnl.units == gained - charges(p, f, slip)
            &&& t.qty.units == n * 1_000_000
            &&& t.instrument == f.instrument
            &&& t.entry_ts == was.opened_ts
            &&& t.exit_ts == f.ts_ns
            &&& t.entry_price == was.entry_price
            &&& t.exit_price.units == brought
        }),
{
    lemma_whole_signs(f, k, h);
    lemma_speck_is_zero();
    let was = held(p.positions, f.instrument);
    let cost = slip.greater(Fixed::integer(0));
    assert(cost == slip);
    law_put_then_find(p.positions, f.instrument, p.position_after(f, cost), f.instrument);
    let m = size(h) as int;
    let held_qty = was.net_qty.magnitude();
    assert(held_qty.units == m * 1_000_000);
    let closing = f.qty.lesser(held_qty);
    let n = if k < m {
        k
    } else {
        m
    };
    assert(closing.units == n * 1_000_000);
    let c = f.price.dollars::<Fixed>();
    lemma_gain(was, h, closing, n, c);
    assert(!was.grows(signed_qty(f)));
    let q = p.after_fill(f, slip);
    assert(q.round_trips.drop_last() =~= p.round_trips);
    let g = was.gain(closing, c);
    assert(g.difference(p.charged(f)).difference(slip).units == g.units - charges(p, f, slip));
}

/// What the positions would gain at their marks over their costs, in millionths of millionths.
pub open spec fn exact_paper_gain(
    positions: Seq<(Seq<char>, Position<Fixed>)>,
    books: Seq<(Seq<char>, BookView<Fixed>)>,
) -> int
    decreases positions.len(),
{
    if positions.len() == 0 {
        0
    } else {
        let (instrument, p) = positions.last();
        exact_paper_gain(positions.drop_last(), books) + match mark_of(books, instrument) {
            Some(m) => p.net_qty.units * (m.units - p.avg_cost.units),
            None => 0,
        }
    }
}

/// The sizes of what the positions would gain, added up.
pub open spec fn exact_paper_size(
    positions: Seq<(Seq<char>, Position<Fixed>)>,
    books: Seq<(Seq<char>, BookView<Fixed>)>,
) -> nat
    decreases positions.len(),
{
    if positions.len() == 0 {
        0
    } else {
        let (instrument, p) = positions.last();
        exact_paper_size(positions.drop_last(), books) + match mark_of(books, instrument) {
            Some(m) => size(p.net_qty.units * (m.units - p.avg_cost.units)),
            None => 0,
        }
    }
}

/// No mark or cost lies so far out that the two cannot be set against one another.
pub open spec fn modest_marks(
    positions: Seq<(Seq<char>, Position<Fixed>)>,
    books: Seq<(Seq<char>, BookView<Fixed>)>,
) -> bool {
    forall|i: int|
        0 <= i < positions.len() ==> modest((#[trigger] positions[i]).1.avg_cost) && (mark_of(
            books,
            positions[i].0,
        ) matches Some(m) ==> modest(m))
}

/// What the positions would gain is what they are worth at their marks over what they cost. With
/// numbers of six decimals it misses by less than a millionth for each position, and not at all where
/// all contracts are whole.
pub proof fn law_paper_gain_is_worth_over_cost(
    positions: Seq<(Seq<char>, Position<Fixed>)>,
    books: Seq<(Seq<char>, BookView<Fixed>)>,
)
    requires
        modest_marks(positions, books),
        exact_paper_size(positions, books) < LARGEST * 1_000_000,
    ensures
        ({
            let g = paper_gain(positions, books).units * 1_000_000;
            let n = positions.len() as int;
            let most = exact_paper_size(positions, books) as int;
            &&& -(n * 1_000_000) <= g - exact_paper_gain(positions, books) <= n * 1_000_000
            &&& whole_contracts(positions) ==> g == exact_paper_gain(positions, books)
            &&& -most <= g <= most
        }),
    decreases positions.len(),
{
    assert(Fixed::integer(0).units == 0);
    if positions.len() > 0 {
        let rest = positions.drop_last();
        let (instrument, p) = positions.last();
        assert(positions[positions.len() - 1] == positions.last());
        assert forall|i: int| 0 <= i < rest.len() implies modest(
            (#[trigger] rest[i]).1.avg_cost,
        ) && (mark_of(books, rest[i].0) matches Some(m) ==> modest(m)) by {
            assert(rest[i] == positions[i]);
        }
        law_paper_gain_is_worth_over_cost(rest, books);
        assert(whole_contracts(positions) ==> whole_contracts(rest)) by {
            if whole_contracts(positions) {
                assert forall|i: int| 0 <= i < rest.len() implies (
                #[trigger] rest[i]).1.net_qty.units % 1_000_000 == 0 by {
                    assert(rest[i] == positions[i]);
                }
            }
        }
        if let Some(m) = mark_of(books, instrument) {
            let d = m.difference(p.avg_cost);
            let (x, y) = (p.net_qty.units as int, m.units - p.avg_cost.units);
            assert(d.units == y);
            if x == 0 {
                assert(x * y == 0) by (nonlinear_arith)
                    requires
                        x == 0,
                ;
            } else {
                lemma_cut(x * y, 1_000_000);
                assert(p.net_qty.product(d).units == cut_quotient(x * y, 1_000_000));
                if whole_contracts(positions) {
                    let k = x / 1_000_000;
                    assert(x == k * 1_000_000);
                    assert((k * 1_000_000) * y == (k * y) * 1_000_000) by (nonlinear_arith);
                    lemma_cut_multiple(k * y, 1_000_000);
                }
            }
        }
    }
}

/// What the positions cost, in millionths of millionths; below 0 where contracts are owed.
pub open spec fn exact_cost(positions: Seq<(Seq<char>, Position<Fixed>)>) -> int
    decreases positions.len(),
{
    if positions.len() == 0 {
        0
    } else {
        exact_cost(positions.drop_last()) + positions.last().1.net_qty.units
            * positions.last().1.avg_cost.units
    }
}

proof fn lemma_cost_and_gain(
    positions: Seq<(Seq<char>, Position<Fixed>)>,
    books: Seq<(Seq<char>, BookView<Fixed>)>,
)
    requires
        forall|i: int|
            0 <= i < positions.len() ==> mark_of(books, (#[trigger] positions[i]).0) is Some,
    ensures
        exact_worth(positions, books) == exact_cost(positions) + exact_paper_gain(positions, books),
    decreases positions.len(),
{
    if positions.len() > 0 {
        let rest = positions.drop_last();
        assert forall|i: int| 0 <= i < rest.len() implies mark_of(
            books,
            (#[trigger] rest[i]).0,
        ) is Some by {
            assert(rest[i] == positions[i]);
        }
        lemma_cost_and_gain(rest, books);
        assert(positions[positions.len() - 1] == positions.last());
        let (instrument, p) = positions.last();
        let (x, m, a) = (
            p.net_qty.units as int,
            mark_of(books, instrument)->0.units as int,
            p.avg_cost.units as int,
        );
        assert(x * m == x * a + x * (m - a)) by (nonlinear_arith);
    }
}

/// The equity of an account whose positions all have marks is what it began with, and what it has
/// gained since, realized or on paper: where its cash is what it began with and what it has realized,
/// less what its positions cost.
pub proof fn law_equity_is_the_start_and_the_gains(
    p: PortfolioView<Fixed>,
    books: Seq<(Seq<char>, BookView<Fixed>)>,
    start: int,
    realized: int,
)
    requires
        forall|i: int|
            0 <= i < p.positions.len() ==> mark_of(books, (#[trigger] p.positions[i]).0) is Some,
        whole_contracts(p.positions),
        worth_fits(p.cash, p.positions, books),
        modest_marks(p.positions, books),
        exact_paper_size(p.positions, books) < LARGEST * 1_000_000,
        p.cash.units * 1_000_000 == (start + realized) * 1_000_000 - exact_cost(p.positions),
    ensures
        p.net_worth(books).units == start + realized + paper_gain(p.positions, books).units,
{
    lemma_worth(p.cash, p.positions, books);
    lemma_cost_and_gain(p.positions, books);
    law_paper_gain_is_worth_over_cost(p.positions, books);
}

// ---- what an account adds up -------------------------------------------------------------------

/// Every fill is added up: its fee where fees are charged, its slippage, its contracts, and what was
/// paid for those that were bought or got for those that were sold.
pub proof fn law_totals_count_the_fill(
    p: PortfolioView<Fixed>,
    f: FillView<Fixed>,
    slip: Fixed,
    k: int,
)
    requires
        whole_fill(f, k),
        slip.units >= 0,
        modest(slip),
        modest(p.total_fees),
        modest(p.total_slippage_cost),
        modest(p.total_volume),
        modest(p.buy_notional),
        modest(p.buy_qty),
        modest(p.sell_notional),
        modest(p.sell_qty),
        modest(totals(p.instrument_stats, f.instrument).volume),
    ensures
        ({
            let q = p.after_fill(f, slip);
            let paid = k * f.price.0 * 10_000;
            let was = totals(p.instrument_stats, f.instrument);
            let is = totals(q.instrument_stats, f.instrument);
            &&& q.total_fees.units == p.total_fees.units + if p.include_fees {
                f.fee.units as int
            } else {
                0
            }
            &&& q.total_slippage_cost.units == p.total_slippage_cost.units + slip.units
            &&& q.total_volume.units == p.total_volume.units + k * 1_000_000
            &&& f.side == Side::Bid ==> {
                &&& q.buy_notional.units == p.buy_notional.units + paid
                &&& q.buy_qty.units == p.buy_qty.units + k * 1_000_000
                &&& q.sell_notional == p.sell_notional
                &&& q.sell_qty == p.sell_qty
            }
            &&& f.side == Side::Ask ==> {
                &&& q.sell_notional.units == p.sell_notional.units + paid
                &&& q.sell_qty.units == p.sell_qty.units + k * 1_000_000
                &&& q.buy_notional == p.buy_notional
                &&& q.buy_qty == p.buy_qty
            }
            &&& is.volume.units == was.volume.units + k * 1_000_000
            &&& was.num_fills < i64::MAX ==> is.num_fills == was.num_fills + 1
            &&& p.total_fills < i64::MAX ==> q.total_fills == p.total_fills + 1
            &&& q.total_orders == p.total_orders
            &&& q.liquidity_rewards == p.liquidity_rewards
            &&& q.equity_curve == p.equity_curve
        }),
{
    law_cents_are_hundredths(f.price);
    let c = f.price.dollars::<Fixed>();
    let y = f.price.0 * 10_000;
    assert(k * f.price.0 * 10_000 == k * y) by (nonlinear_arith)
        requires
            y == f.price.0 * 10_000,
    ;
    assert(0 <= k * y <= 1_000_000_000_000_000) by (nonlinear_arith)
        requires
            0 < k <= 1_000_000_000,
            0 <= y <= 1_000_000,
    ;
    law_whole_products_are_exact(f.qty, c, k);
    assert(Fixed::integer(0).units == 0);
    assert(slip.greater(Fixed::integer(0)) == slip);
    law_put_then_find(
        p.instrument_stats,
        f.instrument,
        p.totals_after(f, slip),
        f.instrument,
    );
}

/// What a closing fill gains is added to the gains of its instrument, and its round trip is counted
/// there and, where it has a length, in the time that round trips take: in seconds, from the opening
/// of the position to the fill. A fill that closes nothing adds to none of these.
pub proof fn law_trips_are_counted(
    p: PortfolioView<Fixed>,
    f: FillView<Fixed>,
    slip: Fixed,
    k: int,
    h: int,
)
    requires
        ordered(p.positions),
        whole_fill(f, k),
        whole_position(held(p.positions, f.instrument), h),
        slip.units >= 0,
        modest(slip),
        modest(totals(p.instrument_stats, f.instrument).pnl),
        modest(p.holding_secs_sum),
        0 <= p.holding_count < i64::MAX,
        0 <= totals(p.instrument_stats, f.instrument).num_round_trips < i64::MAX,
    ensures
        ({
            let q = p.after_fill(f, slip);
            let was = totals(p.instrument_stats, f.instrument);
            let is = totals(q.instrument_stats, f.instrument);
            let took = f.ts_ns - held(p.positions, f.instrument).opened_ts;
            let closes = h > 0 && f.side == Side::Ask || h < 0 && f.side == Side::Bid;
            &&& closes ==> {
                &&& is.pnl.units == was.pnl.units + q.round_trip_pnls.last().units
                &&& is.num_round_trips == was.num_round_trips + 1
                &&& q.round_trips.len() == p.round_trips.len() + 1
                &&& q.round_trip_pnls.len() == p.round_trip_pnls.len() + 1
                &&& 0 <= took <= 9_000_000_000_000 ==> q.holding_count == p.holding_count + 1
                    && q.holding_secs_sum.units == p.holding_secs_sum.units + took / 1_000
                &&& took < 0 ==> q.holding_count == p.holding_count && q.holding_secs_sum
                    == p.holding_secs_sum
            }
            &&& !closes ==> {
                &&& is.pnl == was.pnl
                &&& is.num_round_trips == was.num_round_trips
                &&& q.round_trips == p.round_trips
                &&& q.round_trip_pnls == p.round_trip_pnls
                &&& q.holding_count == p.holding_count
                &&& q.holding_secs_sum == p.holding_secs_sum
            }
        }),
{
    lemma_whole_signs(f, k, h);
    let was = held(p.positions, f.instrument);
    let closes = h > 0 && f.side == Side::Ask || h < 0 && f.side == Side::Bid;
    assert(slip.greater(Fixed::integer(0)) == slip);
    law_put_then_find(
        p.instrument_stats,
        f.instrument,
        p.totals_after(f, slip),
        f.instrument,
    );
    assert(was.grows(signed_qty(f)) == !closes);
    if closes {
        law_closing_a_position(p, f, slip, k, h);
        let t = p.trip(f, slip)->0;
        let n = if k < size(h) {
            k
        } else {
            size(h) as int
        };
        let each = if h > 0 {
            f.price.0 * 10_000 - was.avg_cost.units
        } else {
            was.avg_cost.units - f.price.0 * 10_000
        };
        assert(-1_000_000_000_000_000 <= n * each <= 1_000_000_000_000_000) by (nonlinear_arith)
            requires
                0 <= n <= 1_000_000_000,
                -1_000_000 <= each <= 1_000_000,
        ;
        assert(p.after_fill(f, slip).round_trips.last() == t);
        let took = f.ts_ns - was.opened_ts;
        if 0 <= took <= 9_000_000_000_000 {
            let a = Fixed::integer(took);
            let b = Fixed::integer(1_000_000_000);
            assert(a.units == took * 1_000_000);
            assert(b.units == 1_000_000_000_000_000);
            assert((took * 1_000_000) * 1_000_000 / 1_000_000_000_000_000 == took / 1_000);
            assert(a.quotient(b).units == took / 1_000);
        }
    }
}

/// A point of the equity curve shows what the account is worth at its time, and the points before
/// it stay. A point with anything held is counted.
pub proof fn law_points_show_the_equity(
    p: PortfolioView<Fixed>,
    ts_ns: i64,
    books: Seq<(Seq<char>, BookView<Fixed>)>,
)
    requires
        worth_fits(p.cash, p.positions, books),
        whole_contracts(p.positions),
        p.snapshots_with_position < i64::MAX,
    ensures
        ({
            let q = p.recorded(ts_ns, books);
            let some = exists|i: int|
                0 <= i < p.positions.len() && (#[trigger] p.positions[i]).1.net_qty.units != 0;
            &&& q.equity_curve.len() == p.equity_curve.len() + 1
            &&& q.equity_curve.drop_last() == p.equity_curve
            &&& q.equity_curve.last().ts_ns == ts_ns
            &&& q.equity_curve.last().currency == p.currency
            &&& q.equity_curve.last().total.units * 1_000_000 == p.cash.units * 1_000_000
                + exact_worth(p.positions, books)
            &&& some ==> q.snapshots_with_position == p.snapshots_with_position + 1
            &&& !some ==> q.snapshots_with_position == p.snapshots_with_position
            &&& q.cash == p.cash
            &&& q.positions == p.positions
        }),
{
    lemma_worth(p.cash, p.positions, books);
    lemma_speck_is_zero();
    let q = p.recorded(ts_ns, books);
    assert(q.equity_curve.drop_last() =~= p.equity_curve);
    assert forall|i: int| 0 <= i < p.positions.len() implies speck::<Fixed>().below(
        (#[trigger] p.positions[i]).1.net_qty.magnitude(),
    ) == (p.positions[i].1.net_qty.units != 0) by {}
    if exists|i: int|
        0 <= i < p.positions.len() && (#[trigger] p.positions[i]).1.net_qty.units != 0 {
        let i = choose|i: int|
            0 <= i < p.positions.len() && (#[trigger] p.positions[i]).1.net_qty.units != 0;
        assert(speck::<Fixed>().below(p.positions[i].1.net_qty.magnitude()));
        assert(any_held(p.positions));
    }
}

/// The first point is always taken, and a later one exactly where the whole cadence has passed since
/// the last one that was. Otherwise nothing changes.
pub proof fn law_points_are_taken_when_due<N: Number>(
    p: PortfolioView<N>,
    ts_ns: i64,
    books: Seq<(Seq<char>, BookView<N>)>,
)
    ensures
        ({
            let q = p.sampled(ts_ns, books);
            let whole = p.last_snapshot_ts == i64::MIN || p.last_snapshot_ts + p.snapshot_secs
                * 1_000_000_000 <= ts_ns;
            &&& whole ==> q.equity_curve.len() == p.equity_curve.len() + 1 && q.last_snapshot_ts
                == ts_ns && q.equity_curve.last().ts_ns == ts_ns
            &&& !whole ==> q == p
        }),
{
}

} // verus!
