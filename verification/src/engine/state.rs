//! The states of the engine, and what leads from one to the next.
use crate::config::{QueueModel, RiskConfig};
use crate::event_curves::ladders_with_mid;
use crate::execution::{maker_fill, met, taker_fills, RestingView};
use crate::fees::FeeModel;
use crate::latency::LatencyView;
use crate::number::{Analytic, Number};
use crate::orderbook::{books_after, middle_of, size_of, BookView};
use crate::portfolio::{held, speck, PortfolioView, Position};
use crate::rewards::{quotes_of, QuoteState, RewardsModel};
use crate::settlement::{outcome_of, payout_of, Outcome};
use crate::slippage::SlippageModel;
use crate::strategy::{ActionView, CtxView, Strategy};
use crate::strmap::entry;
use crate::types::{
    Cents, DeltaView, EventView, FillView, Liquidity, Side, Tif, TradeView,
};
use vstd::prelude::*;

verus! {

/// A cancel that has not taken effect yet.
#[derive(Debug, Clone, Copy, PartialEq, Eq)]
pub struct PendingCancel {
    pub order_id: u64,
    pub effective_ts: i64,
}

/// An order on its way to the market that is to take there.
#[derive(Debug, Clone, PartialEq)]
pub struct PendingMarket<N> {
    pub order_id: u64,
    pub instrument: String,
    pub side: Side,
    pub qty: N,
    /// When it arrives.
    pub activation_ts: i64,
    /// The worst price that it accepts.
    pub price_bound: Option<Cents>,
}

/// What an order on its way that is to take says.
#[verifier::ext_equal]
pub struct MarketView<N> {
    pub order_id: u64,
    pub instrument: Seq<char>,
    pub side: Side,
    pub qty: N,
    pub activation_ts: i64,
    pub price_bound: Option<Cents>,
}

impl<N> View for PendingMarket<N> {
    type V = MarketView<N>;

    open spec fn view(&self) -> MarketView<N> {
        MarketView {
            order_id: self.order_id,
            instrument: self.instrument@,
            side: self.side,
            qty: self.qty,
            activation_ts: self.activation_ts,
            price_bound: self.price_bound,
        }
    }
}

/// A limit order on its way to the market.
#[derive(Debug, Clone, PartialEq)]
pub struct PendingLimit<N> {
    pub order_id: u64,
    pub instrument: String,
    pub side: Side,
    pub price: Cents,
    pub qty: N,
    pub tif: Tif,
    pub post_only: bool,
    /// When it arrives.
    pub activation_ts: i64,
}

/// What a limit order on its way says.
#[verifier::ext_equal]
pub struct LimitView<N> {
    pub order_id: u64,
    pub instrument: Seq<char>,
    pub side: Side,
    pub price: Cents,
    pub qty: N,
    pub tif: Tif,
    pub post_only: bool,
    pub activation_ts: i64,
}

impl<N> View for PendingLimit<N> {
    type V = LimitView<N>;

    open spec fn view(&self) -> LimitView<N> {
        LimitView {
            order_id: self.order_id,
            instrument: self.instrument@,
            side: self.side,
            price: self.price,
            qty: self.qty,
            tif: self.tif,
            post_only: self.post_only,
            activation_ts: self.activation_ts,
        }
    }
}

/// What each of some orders on their way says.
pub open spec fn market_views<N>(orders: Seq<PendingMarket<N>>) -> Seq<MarketView<N>> {
    orders.map_values(|o: PendingMarket<N>| o@)
}

/// What each of some orders on their way says.
pub open spec fn limit_views<N>(orders: Seq<PendingLimit<N>>) -> Seq<LimitView<N>> {
    orders.map_values(|o: PendingLimit<N>| o@)
}

/// What the engine says.
#[verifier::ext_equal]
pub struct EngineView<N> {
    pub ctx: CtxView<N>,
    pub pending_cancels: Seq<PendingCancel>,
    pub pending_market: Seq<MarketView<N>>,
    pub pending_limit: Seq<LimitView<N>>,
    pub queue_model: QueueModel,
    pub fees: FeeModel<N>,
    pub latency: LatencyView,
    pub slippage: SlippageModel<N>,
    pub rewards: RewardsModel<N>,
    pub include_rewards: bool,
    pub reward_band_cents: i32,
    pub next_order_id: u64,
    pub observed_trades: Seq<TradeView<N>>,
    pub risk: RiskConfig<N>,
    pub halted: bool,
    pub equity_peak: N,
    pub risk_rejections: i64,
    pub settlement: Seq<(Seq<char>, Outcome)>,
}

/// The account once fills were applied to it, each with the slippage of its kind.
pub open spec fn with_fills<N: Number>(
    p: PortfolioView<N>,
    fills: Seq<FillView<N>>,
    slippage: SlippageModel<N>,
    liquidity: Liquidity,
) -> PortfolioView<N>
    decreases fills.len(),
{
    if fills.len() == 0 {
        p
    } else {
        let f = fills.last();
        with_fills(p, fills.drop_last(), slippage, liquidity).after_fill(
            f,
            slippage.extra(f.price, f.qty, liquidity),
        )
    }
}

/// The sizes on the levels that a limit price reaches, added up from the lowest price on.
pub open spec fn depth_within<N: Number>(levels: Seq<(i64, N)>, side: Side, price: Cents) -> N
    decreases levels.len(),
{
    if levels.len() == 0 {
        N::integer(0)
    } else {
        let before = depth_within(levels.drop_last(), side, price);
        let (px, size) = levels.last();
        let inside = match side {
            Side::Bid => px <= price.0,
            Side::Ask => px >= price.0,
        };
        if inside {
            before.sum(size)
        } else {
            before
        }
    }
}

/// How much of a limit order would take, in a book as it stands.
pub open spec fn crossing_qty<N: Number>(
    book: Option<BookView<N>>,
    side: Side,
    price: Cents,
    qty: N,
) -> N {
    match book {
        None => N::integer(0),
        Some(b) => match side {
            Side::Bid => match b.top_ask() {
                Some((ask, _)) => if price.0 >= ask.0 {
                    qty.lesser(depth_within(b.asks, side, price))
                } else {
                    N::integer(0)
                },
                None => N::integer(0),
            },
            Side::Ask => match b.top_bid() {
                Some((bid, _)) => if price.0 <= bid.0 {
                    qty.lesser(depth_within(b.bids, side, price))
                } else {
                    N::integer(0)
                },
                None => N::integer(0),
            },
        },
    }
}

/// The size that rests at a price of an instrument.
pub open spec fn level_size_of<N: Number>(
    books: Seq<(Seq<char>, BookView<N>)>,
    instrument: Seq<char>,
    side: Side,
    price: Cents,
) -> N {
    match entry(books, instrument) {
        Some(b) => size_of(b.levels(side), price),
        None => N::integer(0),
    }
}

/// The resting orders without those of some numbers.
pub open spec fn without_orders<N>(resting: Seq<RestingView<N>>, ids: Seq<u64>) -> Seq<
    RestingView<N>,
>
    decreases resting.len(),
{
    if resting.len() == 0 {
        resting
    } else if ids.contains(resting.last().id) {
        without_orders(resting.drop_last(), ids)
    } else {
        without_orders(resting.drop_last(), ids).push(resting.last())
    }
}

/// The orders whose cancels take effect by a time.
pub open spec fn cancelled_by(cancels: Seq<PendingCancel>, now: i64) -> Seq<u64>
    decreases cancels.len(),
{
    if cancels.len() == 0 {
        Seq::empty()
    } else if cancels.last().effective_ts <= now {
        cancelled_by(cancels.drop_last(), now).push(cancels.last().order_id)
    } else {
        cancelled_by(cancels.drop_last(), now)
    }
}

/// The cancels that take effect after a time.
pub open spec fn cancels_after(cancels: Seq<PendingCancel>, now: i64) -> Seq<PendingCancel>
    decreases cancels.len(),
{
    if cancels.len() == 0 {
        cancels
    } else if cancels.last().effective_ts <= now {
        cancels_after(cancels.drop_last(), now)
    } else {
        cancels_after(cancels.drop_last(), now).push(cancels.last())
    }
}

/// The limit orders that have arrived by a time, or those that have not.
pub open spec fn limits_split<N>(orders: Seq<LimitView<N>>, now: i64, arrived: bool) -> Seq<
    LimitView<N>,
>
    decreases orders.len(),
{
    if orders.len() == 0 {
        orders
    } else if (orders.last().activation_ts <= now) == arrived {
        limits_split(orders.drop_last(), now, arrived).push(orders.last())
    } else {
        limits_split(orders.drop_last(), now, arrived)
    }
}

/// The orders to take that have arrived by a time, or those that have not.
pub open spec fn markets_split<N>(orders: Seq<MarketView<N>>, now: i64, arrived: bool) -> Seq<
    MarketView<N>,
>
    decreases orders.len(),
{
    if orders.len() == 0 {
        orders
    } else if (orders.last().activation_ts <= now) == arrived {
        markets_split(orders.drop_last(), now, arrived).push(orders.last())
    } else {
        markets_split(orders.drop_last(), now, arrived)
    }
}

/// A resting order once the size at a price has shrunk by what stood ahead.
pub open spec fn moved_up<N: Number>(
    o: RestingView<N>,
    instrument: Seq<char>,
    side: Side,
    price: Cents,
    decrease: N,
) -> RestingView<N> {
    if o.instrument == instrument && o.side == side && o.price == price && N::integer(0).below(
        o.queue_ahead,
    ) {
        RestingView {
            queue_ahead: o.queue_ahead.difference(decrease).greater(N::integer(0)),
            ..o
        }
    } else {
        o
    }
}

/// Resting orders once the size at a price has shrunk by what stood ahead.
pub open spec fn all_moved_up<N: Number>(
    resting: Seq<RestingView<N>>,
    instrument: Seq<char>,
    side: Side,
    price: Cents,
    decrease: N,
) -> Seq<RestingView<N>> {
    if decrease.at_most(N::integer(0)) {
        resting
    } else {
        resting.map_values(|o: RestingView<N>| moved_up(o, instrument, side, price, decrease))
    }
}

/// A resting order after a trade; one that has not arrived is left alone.
pub open spec fn order_after<N: Number>(o: RestingView<N>, t: TradeView<N>, now: i64) -> RestingView<
    N,
> {
    if o.activation_ts > now {
        o
    } else {
        met(o, t).0
    }
}

/// What a trade fills of a resting order.
pub open spec fn fill_after<N: Number>(
    o: RestingView<N>,
    t: TradeView<N>,
    now: i64,
    fees: FeeModel<N>,
) -> Option<FillView<N>> {
    if o.activation_ts > now {
        None
    } else {
        match met(o, t).1 {
            Some(qty) => Some(maker_fill(o, t, qty, fees)),
            None => None,
        }
    }
}

/// What a trade fills of resting orders.
pub open spec fn maker_fills<N: Number>(
    resting: Seq<RestingView<N>>,
    t: TradeView<N>,
    now: i64,
    fees: FeeModel<N>,
) -> Seq<FillView<N>>
    decreases resting.len(),
{
    if resting.len() == 0 {
        Seq::empty()
    } else {
        let before = maker_fills(resting.drop_last(), t, now, fees);
        match fill_after(resting.last(), t, now, fees) {
            Some(f) => before.push(f),
            None => before,
        }
    }
}

/// The resting orders that have something left.
pub open spec fn unfilled<N: Number>(resting: Seq<RestingView<N>>) -> Seq<RestingView<N>>
    decreases resting.len(),
{
    if resting.len() == 0 {
        resting
    } else if speck::<N>().below(resting.last().remaining) {
        unfilled(resting.drop_last()).push(resting.last())
    } else {
        unfilled(resting.drop_last())
    }
}

/// The resting orders of an instrument, as the rewards look at them.
pub open spec fn quotes_in<N>(resting: Seq<RestingView<N>>, instrument: Seq<char>) -> Seq<
    (Side, i32, N),
>
    decreases resting.len(),
{
    if resting.len() == 0 {
        Seq::empty()
    } else {
        let before = quotes_in(resting.drop_last(), instrument);
        let o = resting.last();
        if o.instrument == instrument {
            before.push((o.side, o.price.0, o.remaining))
        } else {
            before
        }
    }
}

/// The quotes of the instrument with the most size near its middle; the first of several.
pub open spec fn strongest<N: Number>(
    books: Seq<(Seq<char>, BookView<N>)>,
    resting: Seq<RestingView<N>>,
    band: i32,
) -> QuoteState<N>
    decreases books.len(),
{
    if books.len() == 0 {
        QuoteState::none()
    } else {
        let best = strongest(books.drop_last(), resting, band);
        let (instrument, book) = books.last();
        let quotes = quotes_in(resting, instrument);
        let mid_cents = match book.middle() {
            Some(m) => Some(m.product(N::integer(100))),
            None => None,
        };
        let q = quotes_of(quotes, mid_cents, band);
        if quotes.len() > 0 && q.has_mid && best.bid_size_in_band.sum(best.ask_size_in_band).below(
            q.bid_size_in_band.sum(q.ask_size_in_band),
        ) {
            q
        } else {
            best
        }
    }
}

/// The positions that are open, and what is held of each.
pub open spec fn open_positions<N: Number>(positions: Seq<(Seq<char>, Position<N>)>) -> Seq<
    (Seq<char>, N),
>
    decreases positions.len(),
{
    if positions.len() == 0 {
        Seq::empty()
    } else {
        let before = open_positions(positions.drop_last());
        let (instrument, p) = positions.last();
        if speck::<N>().below(p.net_qty.magnitude()) {
            before.push((instrument, p.net_qty))
        } else {
            before
        }
    }
}

/// The positions among some whose outcome is known, and what each pays.
pub open spec fn known_payouts<N: Number>(
    open: Seq<(Seq<char>, N)>,
    known: Seq<(Seq<char>, Outcome)>,
) -> Seq<(Seq<char>, N)>
    decreases open.len(),
{
    if open.len() == 0 {
        Seq::empty()
    } else {
        let before = known_payouts(open.drop_last(), known);
        match payout_of::<N>(outcome_of(known, open.last().0)) {
            Some(p) => before.push((open.last().0, p)),
            None => before,
        }
    }
}

/// The sum of what is held, each position without its sign.
pub open spec fn gross<N: Number>(positions: Seq<(Seq<char>, Position<N>)>) -> N
    decreases positions.len(),
{
    if positions.len() == 0 {
        N::integer(0)
    } else {
        gross(positions.drop_last()).sum(positions.last().1.net_qty.magnitude())
    }
}

/// The side that closes a position.
pub open spec fn closing_side<N: Number>(net: N) -> Side {
    if N::integer(0).below(net) {
        Side::Ask
    } else {
        Side::Bid
    }
}

impl<N: Analytic> EngineView<N> {
    /// The rewards can be counted.
    pub open spec fn sound(self) -> bool {
        self.rewards.sound()
    }

    pub open spec fn with_ctx(self, ctx: CtxView<N>) -> EngineView<N> {
        EngineView { ctx, ..self }
    }

    pub open spec fn with_portfolio(self, portfolio: PortfolioView<N>) -> EngineView<N> {
        EngineView { ctx: CtxView { portfolio, ..self.ctx }, ..self }
    }

    pub open spec fn with_resting(self, resting: Seq<RestingView<N>>) -> EngineView<N> {
        EngineView { ctx: CtxView { resting, ..self.ctx }, ..self }
    }

    /// An order has taken, in the book as it stands.
    pub open spec fn taken(
        self,
        id: u64,
        instrument: Seq<char>,
        side: Side,
        qty: N,
        bound: Option<Cents>,
        ts_ns: i64,
    ) -> EngineView<N> {
        let fills = match entry(self.ctx.books, instrument) {
            Some(b) => taker_fills(id, instrument, side, qty, bound, b, self.fees, ts_ns),
            None => Seq::empty(),
        };
        self.with_portfolio(
            with_fills(self.ctx.portfolio, fills, self.slippage, Liquidity::Taker),
        )
    }

    /// What is left of a limit order rests, behind all that rests at its price.
    pub open spec fn rested(self, l: LimitView<N>, qty: N) -> EngineView<N> {
        if qty.at_most(N::integer(0)) {
            self
        } else {
            self.with_resting(
                self.ctx.resting.push(
                    RestingView {
                        id: l.order_id,
                        instrument: l.instrument,
                        side: l.side,
                        price: l.price,
                        remaining: qty,
                        queue_ahead: level_size_of(
                            self.ctx.books,
                            l.instrument,
                            l.side,
                            l.price,
                        ),
                        activation_ts: l.activation_ts,
                    },
                ),
            )
        }
    }

    /// A limit order has arrived. One that is only to rest is refused where any of it would take.
    /// Of another one, what would take does, at no price beyond its own, and the rest of it rests
    /// or is dropped.
    pub open spec fn resolved(self, l: LimitView<N>) -> EngineView<N> {
        let m = crossing_qty(entry(self.ctx.books, l.instrument), l.side, l.price, l.qty);
        let takes = N::integer(0).below(m);
        if l.post_only {
            if takes {
                self.with_portfolio(
                    PortfolioView {
                        post_only_rejects: self.ctx.portfolio.post_only_rejects.wrapping_add(1),
                        ..self.ctx.portfolio
                    },
                )
            } else {
                self.rested(l, l.qty)
            }
        } else {
            let after = if takes {
                self.taken(l.order_id, l.instrument, l.side, m, Some(l.price), self.ctx.cur_ts)
            } else {
                self
            };
            let left = l.qty.difference(m).greater(N::integer(0));
            if l.tif == Tif::Gtc && speck::<N>().below(left) {
                after.rested(l, left)
            } else {
                after
            }
        }
    }

    /// Limit orders have arrived, one after the other.
    pub open spec fn all_resolved(self, orders: Seq<LimitView<N>>) -> EngineView<N>
        decreases orders.len(),
    {
        if orders.len() == 0 {
            self
        } else {
            self.all_resolved(orders.drop_last()).resolved(orders.last())
        }
    }

    /// Orders to take have arrived, one after the other.
    pub open spec fn all_taken(self, orders: Seq<MarketView<N>>) -> EngineView<N>
        decreases orders.len(),
    {
        if orders.len() == 0 {
            self
        } else {
            let o = orders.last();
            self.all_taken(orders.drop_last()).taken(
                o.order_id,
                o.instrument,
                o.side,
                o.qty,
                o.price_bound,
                self.ctx.cur_ts,
            )
        }
    }

    /// One more order has been counted and given a number.
    pub open spec fn numbered(self) -> EngineView<N> {
        EngineView {
            next_order_id: self.next_order_id.wrapping_add(1),
            ..self.with_portfolio(
                PortfolioView {
                    total_orders: self.ctx.portfolio.total_orders.wrapping_add(1),
                    ..self.ctx.portfolio
                },
            )
        }
    }

    /// One more order has been sent: it has a number, and a delay was found for it.
    pub open spec fn sent(self) -> EngineView<N> {
        EngineView {
            latency: if self.latency.enabled {
                self.latency.drawn()
            } else {
                self.latency
            },
            ..self.numbered()
        }
    }

    /// When the next order to be sent arrives.
    pub open spec fn arrival(self) -> i64 {
        self.latency.activation::<N>(self.ctx.cur_ts, self.next_order_id)
    }

    /// A limit order has been sent. One without delay arrives at once.
    pub open spec fn limit_sent(
        self,
        instrument: Seq<char>,
        side: Side,
        price: Cents,
        qty: N,
        tif: Tif,
        post_only: bool,
    ) -> EngineView<N> {
        let l = LimitView {
            order_id: self.next_order_id,
            instrument,
            side,
            price,
            qty,
            tif,
            post_only,
            activation_ts: self.arrival(),
        };
        if qty.at_most(N::integer(0)) {
            self
        } else if self.arrival() <= self.ctx.cur_ts {
            self.sent().resolved(l)
        } else {
            EngineView { pending_limit: self.pending_limit.push(l), ..self.sent() }
        }
    }

    /// An order that takes at any price has been sent. One without delay arrives at once.
    pub open spec fn market_sent(self, instrument: Seq<char>, side: Side, qty: N) -> EngineView<N> {
        if qty.at_most(N::integer(0)) {
            self
        } else if self.arrival() <= self.ctx.cur_ts {
            self.sent().taken(self.next_order_id, instrument, side, qty, None, self.ctx.cur_ts)
        } else {
            EngineView {
                pending_market: self.pending_market.push(
                    MarketView {
                        order_id: self.next_order_id,
                        instrument,
                        side,
                        qty,
                        activation_ts: self.arrival(),
                        price_bound: None,
                    },
                ),
                ..self.sent()
            }
        }
    }

    /// Whether an order would bring a position closer to nothing.
    pub open spec fn reduces(self, instrument: Seq<char>, side: Side) -> bool {
        let net = held(self.ctx.portfolio.positions, instrument).net_qty;
        !net.equals(N::integer(0)) && N::integer(0).below(net) != (side == Side::Bid)
    }

    /// How many contracts of an order the limits leave. Contracts that reduce a position are held to
    /// no limit on positions; those beyond it open one on the other side, and are.
    pub open spec fn within_limits(self, instrument: Seq<char>, side: Side, qty: N) -> N {
        let zero = N::integer(0);
        let net = held(self.ctx.portfolio.positions, instrument).net_qty;
        let q1 = match self.risk.max_order_qty {
            Some(cap) => if zero.at_most(cap) {
                qty.lesser(cap)
            } else {
                qty
            },
            None => qty,
        };
        let q2 = match self.risk.max_position_per_instrument {
            Some(cap) => q1.lesser(
                if self.reduces(instrument, side) {
                    net.magnitude().sum(cap.greater(zero))
                } else {
                    cap.greater(zero).difference(net.magnitude()).greater(zero)
                },
            ),
            None => q1,
        };
        match self.risk.max_gross_position {
            Some(cap) => {
                let total = gross(self.ctx.portfolio.positions);
                q2.lesser(
                    if self.reduces(instrument, side) {
                        net.magnitude().sum(
                            cap.greater(zero).difference(
                                total.difference(net.magnitude()),
                            ).greater(zero),
                        )
                    } else {
                        cap.greater(zero).difference(total).greater(zero)
                    },
                )
            },
            None => q2,
        }
    }

    /// How many contracts of an order are sent; none where it is dropped.
    pub open spec fn allowed(self, instrument: Seq<char>, side: Side, qty: N) -> Option<N> {
        let q = self.within_limits(instrument, side, qty);
        if self.halted {
            None
        } else if self.risk == RiskConfig::<N>::standard() {
            Some(qty)
        } else if qty.at_most(N::integer(0)) || q.at_most(speck::<N>()) {
            None
        } else {
            Some(q)
        }
    }

    /// Whether an order is dropped. Every order that is counts as a rejection.
    pub open spec fn rejects(self, instrument: Seq<char>, side: Side, qty: N) -> bool {
        self.allowed(instrument, side, qty) is None
    }

    /// The engine once the limits have looked at an order.
    pub open spec fn screened(self, instrument: Seq<char>, side: Side, qty: N) -> EngineView<N> {
        if self.rejects(instrument, side, qty) {
            EngineView { risk_rejections: self.risk_rejections.wrapping_add(1), ..self }
        } else {
            self
        }
    }

    /// A cancel has been asked for. Without delay it takes effect at once.
    pub open spec fn cancel_sent(self, order_id: u64) -> EngineView<N> {
        if self.latency.enabled {
            EngineView {
                pending_cancels: self.pending_cancels.push(
                    PendingCancel {
                        order_id,
                        effective_ts: self.latency.cancel_time(self.ctx.cur_ts),
                    },
                ),
                ..self
            }
        } else {
            self.with_resting(without_orders(self.ctx.resting, seq![order_id]))
        }
    }

    /// What a strategy asked for has been carried out.
    pub open spec fn applied(self, a: ActionView<N>) -> EngineView<N> {
        match a {
            ActionView::PlaceLimit { instrument, side, price, qty, tif, post_only } => {
                let s = self.screened(instrument, side, qty);
                match self.allowed(instrument, side, qty) {
                    Some(q) => s.limit_sent(instrument, side, price, q, tif, post_only),
                    None => s,
                }
            },
            ActionView::PlaceMarket { instrument, side, qty } => {
                let s = self.screened(instrument, side, qty);
                match self.allowed(instrument, side, qty) {
                    Some(q) => s.market_sent(instrument, side, q),
                    None => s,
                }
            },
            ActionView::Cancel { order_id } => self.cancel_sent(order_id),
        }
    }

    /// Several things that a strategy asked for have been carried out, one after the other.
    pub open spec fn all_applied(self, actions: Seq<ActionView<N>>) -> EngineView<N>
        decreases actions.len(),
    {
        if actions.len() == 0 {
            self
        } else {
            self.all_applied(actions.drop_last()).applied(actions.last())
        }
    }

    /// All that the strategy asked for has been carried out.
    pub open spec fn drained(self) -> EngineView<N> {
        self.with_ctx(CtxView { pending: Seq::empty(), ..self.ctx }).all_applied(self.ctx.pending)
    }

    /// The cancels that take effect by now have.
    pub open spec fn cancels_done(self) -> EngineView<N> {
        let now = self.ctx.cur_ts;
        EngineView {
            pending_cancels: cancels_after(self.pending_cancels, now),
            ..self.with_resting(
                without_orders(self.ctx.resting, cancelled_by(self.pending_cancels, now)),
            )
        }
    }

    /// All cancels have taken effect.
    pub open spec fn all_cancels_done(self) -> EngineView<N> {
        EngineView {
            pending_cancels: Seq::empty(),
            ..self.with_resting(
                without_orders(self.ctx.resting, cancelled_by(self.pending_cancels, i64::MAX)),
            )
        }
    }

    /// The limit orders that have arrived by now have been dealt with.
    pub open spec fn limits_done(self) -> EngineView<N> {
        let now = self.ctx.cur_ts;
        EngineView {
            pending_limit: limits_split(self.pending_limit, now, false),
            ..self
        }.all_resolved(limits_split(self.pending_limit, now, true))
    }

    /// All limit orders have been dealt with.
    pub open spec fn all_limits_done(self) -> EngineView<N> {
        EngineView { pending_limit: Seq::empty(), ..self }.all_resolved(self.pending_limit)
    }

    /// The orders to take that have arrived by now have.
    pub open spec fn markets_done(self) -> EngineView<N> {
        let now = self.ctx.cur_ts;
        EngineView {
            pending_market: markets_split(self.pending_market, now, false),
            ..self
        }.all_taken(markets_split(self.pending_market, now, true))
    }

    /// All orders to take have.
    pub open spec fn all_markets_done(self) -> EngineView<N> {
        EngineView { pending_market: Seq::empty(), ..self }.all_taken(self.pending_market)
    }

    /// A delta has been applied to its book. Where queues are taken to shrink from the front, own
    /// orders at its price move up by what the size there has shrunk.
    pub open spec fn delta_applied(self, d: DeltaView<N>) -> EngineView<N> {
        let books = books_after(self.ctx.books, d);
        let before = level_size_of(self.ctx.books, d.instrument, d.side, d.price);
        let after = level_size_of(books, d.instrument, d.side, d.price);
        let resting = if self.queue_model == QueueModel::Optimistic && after.below(before) {
            all_moved_up(self.ctx.resting, d.instrument, d.side, d.price, before.difference(after))
        } else {
            self.ctx.resting
        };
        self.with_ctx(
            CtxView {
                books,
                resting,
                curves: ladders_with_mid(
                    self.ctx.curves,
                    d.instrument,
                    middle_of(books, d.instrument),
                ),
                ..self.ctx
            },
        )
    }

    /// A trade has been matched with the resting orders.
    pub open spec fn trade_matched(self, t: TradeView<N>) -> EngineView<N> {
        let now = self.ctx.cur_ts;
        let fills = maker_fills(self.ctx.resting, t, now, self.fees);
        EngineView {
            observed_trades: self.observed_trades.push(t),
            ..self.with_ctx(
                CtxView {
                    resting: unfilled(
                        self.ctx.resting.map_values(|o: RestingView<N>| order_after(o, t, now)),
                    ),
                    portfolio: with_fills(
                        self.ctx.portfolio,
                        fills,
                        self.slippage,
                        Liquidity::Maker,
                    ),
                    ..self.ctx
                },
            )
        }
    }

    /// The rewards have looked at the quotes.
    pub open spec fn rewards_seen(self) -> EngineView<N> {
        if !self.rewards.enabled {
            self
        } else {
            EngineView {
                rewards: self.rewards.observed(
                    self.ctx.cur_ts,
                    strongest(self.ctx.books, self.ctx.resting, self.reward_band_cents),
                ),
                ..self
            }
        }
    }

    /// An event has been taken in, up to the point where the strategy is called: what was due at
    /// its time happens first, in the book as it stood before.
    pub open spec fn begun(self, ev: EventView<N>) -> EngineView<N> {
        let due = self.with_ctx(
            CtxView { cur_ts: ev.ts(), ..self.ctx },
        ).cancels_done().limits_done().markets_done();
        match ev {
            EventView::Delta(d) => due.delta_applied(d).rewards_seen(),
            EventView::Trade(t) => due.trade_matched(t).rewards_seen(),
        }
    }

    /// Every open position among some is closed at once, without delay.
    pub open spec fn all_closed(self, open: Seq<(Seq<char>, N)>) -> EngineView<N>
        decreases open.len(),
    {
        if open.len() == 0 {
            self
        } else {
            let before = self.all_closed(open.drop_last());
            let (instrument, net) = open.last();
            before.numbered().taken(
                before.next_order_id,
                instrument,
                closing_side(net),
                net.magnitude(),
                None,
                self.ctx.cur_ts,
            )
        }
    }

    /// The run has been halted: nothing rests or is on its way any more, and every position is
    /// closed.
    pub open spec fn stopped(self, reason: Seq<char>) -> EngineView<N> {
        let s = EngineView {
            halted: true,
            pending_cancels: Seq::empty(),
            pending_market: Seq::empty(),
            pending_limit: Seq::empty(),
            ctx: CtxView {
                portfolio: PortfolioView {
                    halted: true,
                    halt_reason: reason,
                    ..self.ctx.portfolio
                },
                resting: Seq::empty(),
                pending: Seq::empty(),
                ..self.ctx
            },
            ..self
        };
        s.all_closed(open_positions(s.ctx.portfolio.positions))
    }

    /// Why an equity breaks the limits, if it does: it is at the floor or below, or it has fallen
    /// too far from its peak.
    pub open spec fn breach(self, equity: N) -> Option<Seq<char>> {
        let peak = self.equity_peak;
        let dd = peak.difference(equity).quotient(peak).product(N::integer(100));
        match self.risk.equity_floor {
            Some(f) => if equity.at_most(f) {
                Some(
                    "equity "@ + equity.shown_fixed(2) + " <= equity_floor "@ + f.shown_fixed(2),
                )
            } else {
                self.drawdown_breach(equity, dd)
            },
            None => self.drawdown_breach(equity, dd),
        }
    }

    pub open spec fn drawdown_breach(self, equity: N, dd: N) -> Option<Seq<char>> {
        let peak = self.equity_peak;
        match self.risk.max_drawdown_pct {
            Some(p) => if speck::<N>().below(peak.magnitude()) && p.at_most(dd) {
                Some(
                    "drawdown "@ + dd.shown_fixed(2) + "% >= max_drawdown_pct "@ + p.shown_fixed(2)
                        + "% (peak "@ + peak.shown_fixed(2) + ", equity "@ + equity.shown_fixed(2)
                        + ")"@,
                )
            } else {
                None
            },
            None => None,
        }
    }

    /// The limits on equity have been looked at, and the run halted where one is broken.
    pub open spec fn checked(self) -> EngineView<N> {
        if self.halted || self.risk.equity_floor is None && self.risk.max_drawdown_pct is None {
            self
        } else {
            let equity = self.ctx.portfolio.net_worth(self.ctx.books);
            let s = EngineView {
                equity_peak: if self.equity_peak.below(equity) {
                    equity
                } else {
                    self.equity_peak
                },
                ..self
            };
            match s.breach(equity) {
                Some(reason) => s.stopped(reason),
                None => s,
            }
        }
    }

    /// An event has been dealt with, from the point where the strategy has returned.
    pub open spec fn ended(self) -> EngineView<N> {
        self.drained().checked()
    }

    /// Positions have been settled, one after the other.
    pub open spec fn all_settled(self, payouts: Seq<(Seq<char>, N)>, ts_ns: i64) -> EngineView<N>
        decreases payouts.len(),
    {
        if payouts.len() == 0 {
            self
        } else {
            let before = self.all_settled(payouts.drop_last(), ts_ns);
            let (instrument, payout) = payouts.last();
            let p = before.ctx.portfolio;
            let q = p.after_settlement(instrument, payout, ts_ns);
            before.with_portfolio(
                PortfolioView {
                    settled_pnl: q.settled_pnl.sum(p.settlement_gain(instrument, payout)),
                    num_settled: q.num_settled.wrapping_add(1),
                    ..q
                },
            )
        }
    }

    /// The time that the end of the run is stamped with.
    pub open spec fn end_time(self) -> i64 {
        if self.ctx.cur_ts < 1 {
            1
        } else {
            self.ctx.cur_ts
        }
    }

    /// The positions whose outcome is known have been settled.
    pub open spec fn settled(self) -> EngineView<N> {
        if self.settlement.len() == 0 {
            self
        } else {
            self.all_settled(
                known_payouts(open_positions(self.ctx.portfolio.positions), self.settlement),
                self.end_time(),
            )
        }
    }

    /// Orders that close positions have been sent, one after the other.
    pub open spec fn all_flattened(self, open: Seq<(Seq<char>, N)>) -> EngineView<N>
        decreases open.len(),
    {
        if open.len() == 0 {
            self
        } else {
            let (instrument, net) = open.last();
            self.all_flattened(open.drop_last()).market_sent(
                instrument,
                closing_side(net),
                net.magnitude(),
            )
        }
    }

    /// The rewards have been credited.
    pub open spec fn rewarded(self) -> EngineView<N> {
        let p = self.ctx.portfolio;
        if self.rewards.enabled {
            self.with_portfolio(
                PortfolioView {
                    liquidity_rewards: self.rewards.accrued,
                    cash: if self.include_rewards {
                        p.cash.sum(self.rewards.accrued.difference(p.liquidity_rewards))
                    } else {
                        p.cash
                    },
                    ..p
                },
            )
        } else {
            self
        }
    }

    /// The run has ended, from the point where the strategy has returned for the last time. Orders
    /// on their way arrive; positions with a known outcome are settled, and the others closed if
    /// that is asked for.
    pub open spec fn finished(self, flatten: bool) -> EngineView<N> {
        let settled =
            self.drained().all_cancels_done().all_limits_done().all_markets_done().rewards_seen().settled();
        let flat = if flatten {
            settled.all_flattened(
                open_positions(settled.ctx.portfolio.positions),
            ).all_markets_done()
        } else {
            settled
        };
        let r = flat.rewarded();
        r.with_portfolio(
            PortfolioView {
                risk_rejections: r.risk_rejections,
                ..r.ctx.portfolio
            }.recorded(r.end_time(), r.ctx.books),
        )
    }

    /// The equity curve has been brought up to date.
    pub open spec fn snapshot_taken(self, now: i64) -> EngineView<N> {
        self.with_portfolio(self.ctx.portfolio.sampled(now, self.ctx.books))
    }

    /// Dealing with an event, with a strategy that is called once in it, can lead here, and make
    /// the strategy `later`.
    pub open spec fn steps_to<S: Strategy<N>>(
        self,
        strat: S,
        ev: EventView<N>,
        next: EngineView<N>,
        later: S,
    ) -> bool {
        let b = self.begun(ev);
        exists|c: CtxView<N>| #[trigger]
            strat.can_react(ev, b.ctx, later, c) && b.ctx.asked(c) && next == b.with_ctx(c).ended()
    }

    /// Dealing with an event, and recording the equity if that is due, can lead here.
    #[verifier::opaque]
    pub open spec fn advances_to<S: Strategy<N>>(
        self,
        strat: S,
        ev: EventView<N>,
        next: EngineView<N>,
        later: S,
    ) -> bool {
        exists|mid: EngineView<N>| #[trigger]
            self.steps_to(strat, ev, mid, later) && next == mid.snapshot_taken(mid.ctx.cur_ts)
    }

    /// Dealing with some events, one after the other, can lead here.
    pub open spec fn runs_to<S: Strategy<N>>(
        self,
        strat: S,
        events: Seq<EventView<N>>,
        next: EngineView<N>,
        later: S,
    ) -> bool
        decreases events.len(),
    {
        if events.len() == 0 {
            next == self && later == strat
        } else {
            exists|before: EngineView<N>, earlier: S|
                self.runs_to(strat, events.drop_last(), before, earlier)
                    && #[trigger] before.advances_to(earlier, events.last(), next, later)
        }
    }

    /// Ending the run, with a strategy that is called once more, can lead here.
    pub open spec fn finishes_to<S: Strategy<N>>(
        self,
        strat: S,
        flatten: bool,
        next: EngineView<N>,
        later: S,
    ) -> bool {
        exists|c: CtxView<N>| #[trigger]
            strat.can_close(self.ctx, later, c) && self.ctx.asked(c) && next == self.with_ctx(
                c,
            ).finished(flatten)
    }
}

} // verus!
