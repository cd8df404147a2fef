//! What becomes of orders.
use crate::config::{BacktestConfig, QueueModel};
use crate::engine::{opened, FilesView};
use crate::engine::laws::{law_halting_clears, law_one_is_not_more_than_all};
use crate::engine::state::{
    cancels_after, closing_side, crossing_qty, depth_within, gross, known_payouts, limits_split,
    maker_fills, markets_split, open_positions, order_after, quotes_in, strongest, unfilled,
    with_fills, EngineView, LimitView, MarketView, PendingCancel,
};
use crate::event_curves::ladders_with_mid;
use crate::execution::{
    beyond, facing, filled_units, law_takers_take_all_they_can, maker_fill, met, taken_from,
    taker_fills, within_reach, RestingView,
};
use crate::fees::FeeModel;
use crate::fixed::{cut_quotient, law_whole_products_are_exact, lemma_cut, size, Fixed, LARGEST};
use crate::intmap::{
    climbing, law_remove_then_read, law_set_then_read, value_at, with_value, without_key,
};
use crate::number::{Analytic, Number};
use crate::orderbook::{books_after, size_of, BookView};
use crate::portfolio::{
    held, law_fill_touches_one_instrument, law_fills_move_cash_and_contracts,
    law_settlement_pays_exactly, lemma_speck_is_zero, modest, signed_qty, whole_fill, PortfolioView,
    Position,
};
use crate::rewards::{quotes_of, QuoteState};
use crate::settlement::Outcome;
use crate::slippage::SlippageModel;
use crate::strategy::{ActionView, CtxView};
use crate::strmap::{entry, law_put_then_find, lemma_entry_found, ordered};
use crate::text::{lemma_text_less_irreflexive, text_less};
use crate::types::{Action, Cents, DeltaView, EventView, FillView, Liquidity, Side, Tif, TradeView};
use vstd::prelude::*;

verus! {

// ---- limit orders ------------------------------------------------------------------------------

/// A book of which a buyer or a seller can make sense: prices that cents can write, in strictly
/// ascending order, and something at each of them.
pub open spec fn proper(levels: Seq<(i64, Fixed)>) -> bool {
    &&& climbing(levels)
    &&& forall|i: int|
        0 <= i < levels.len() ==> i32::MIN <= (#[trigger] levels[i]).0 <= i32::MAX
            && levels[i].1.units > 0
}

/// What rests at the prices that a limit order accepts: a buyer pays no more than its price, and a
/// seller takes no less.
pub open spec fn on_offer(levels: Seq<(i64, Fixed)>, side: Side, price: Cents) -> int
    decreases levels.len(),
{
    if levels.len() == 0 {
        0
    } else {
        let (px, there) = levels.last();
        on_offer(levels.drop_last(), side, price) + if side == Side::Bid && px <= price.0 || side
            == Side::Ask && px >= price.0 {
            there.units as int
        } else {
            0
        }
    }
}

/// The levels on the other side of an order.
pub open spec fn against(book: BookView<Fixed>, side: Side) -> Seq<(i64, Fixed)> {
    if side == Side::Bid {
        book.asks
    } else {
        book.bids
    }
}

proof fn lemma_proper_before(levels: Seq<(i64, Fixed)>)
    requires
        proper(levels),
        levels.len() > 0,
    ensures
        proper(levels.drop_last()),
        proper(levels.drop_first()),
{
    assert forall|i: int| 0 <= i < levels.len() - 1 implies i32::MIN <= (
    #[trigger] levels.drop_first()[i]).0 <= i32::MAX && levels.drop_first()[i].1.units > 0 by {
        assert(levels.drop_first()[i] == levels[i + 1]);
    }
    assert forall|i: int| 0 <= i < levels.len() - 1 implies i32::MIN <= (
    #[trigger] levels.drop_last()[i]).0 <= i32::MAX && levels.drop_last()[i].1.units > 0 by {
        assert(levels.drop_last()[i] == levels[i]);
    }
}

proof fn lemma_on_offer(levels: Seq<(i64, Fixed)>, side: Side, price: Cents)
    requires
        proper(levels),
        on_offer(levels, side, price) <= LARGEST,
    ensures
        on_offer(levels, side, price) >= 0,
        depth_within(levels, side, price).units == on_offer(levels, side, price),
    decreases levels.len(),
{
    if levels.len() > 0 {
        lemma_proper_before(levels);
        assert(levels.last() == levels[levels.len() - 1]);
        assert(on_offer(levels.drop_last(), side, price) <= on_offer(levels, side, price));
        lemma_on_offer(levels.drop_last(), side, price);
    }
}

proof fn lemma_nothing_on_offer(levels: Seq<(i64, Fixed)>, side: Side, price: Cents)
    requires
        proper(levels),
        levels.len() > 0,
        side == Side::Bid ==> levels[0].0 > price.0,
        side == Side::Ask ==> levels.last().0 < price.0,
    ensures
        on_offer(levels, side, price) == 0,
    decreases levels.len(),
{
    lemma_proper_before(levels);
    assert(levels.last() == levels[levels.len() - 1]);
    if levels.len() > 1 {
        assert(levels.drop_last().last() == levels[levels.len() - 2]);
        assert(levels.drop_last()[0] == levels[0]);
        lemma_nothing_on_offer(levels.drop_last(), side, price);
    } else {
        assert(on_offer(levels.drop_last(), side, price) == 0);
    }
    assert(levels[0].0 <= levels[levels.len() - 1].0);
}

proof fn lemma_on_offer_from_below(levels: Seq<(i64, Fixed)>, side: Side, price: Cents)
    requires
        levels.len() > 0,
    ensures
        on_offer(levels, side, price) == on_offer(levels.drop_first(), side, price) + if side
            == Side::Bid && levels[0].0 <= price.0 || side == Side::Ask && levels[0].0 >= price.0 {
            levels[0].1.units as int
        } else {
            0
        },
    decreases levels.len(),
{
    if levels.len() == 1 {
        assert(levels.last() == levels[0]);
        assert(levels.drop_last() =~= levels.drop_first());
    } else {
        lemma_on_offer_from_below(levels.drop_last(), side, price);
        assert(levels.drop_last().drop_first() =~= levels.drop_first().drop_last());
        assert(levels.drop_first().last() == levels.last());
        assert(levels.drop_last()[0] == levels[0]);
    }
}

proof fn lemma_reach_of_asks(levels: Seq<(i64, Fixed)>, price: Cents)
    requires
        proper(levels),
    ensures
        within_reach(levels, Side::Bid, Some(price)) == on_offer(levels, Side::Bid, price),
    decreases levels.len(),
{
    if levels.len() > 0 {
        lemma_proper_before(levels);
        lemma_on_offer_from_below(levels, Side::Bid, price);
        if levels[0].0 > price.0 {
            lemma_nothing_on_offer(levels, Side::Bid, price);
        } else {
            lemma_reach_of_asks(levels.drop_first(), price);
        }
    }
}

proof fn lemma_reach_of_bids(levels: Seq<(i64, Fixed)>, price: Cents)
    requires
        proper(levels),
    ensures
        within_reach(levels.reverse(), Side::Ask, Some(price)) == on_offer(levels, Side::Ask, price),
    decreases levels.len(),
{
    if levels.len() > 0 {
        lemma_proper_before(levels);
        let back = levels.reverse();
        assert(back[0] == levels.last());
        assert(back.drop_first() =~= levels.drop_last().reverse());
        assert(levels.last() == levels[levels.len() - 1]);
        if levels.last().0 < price.0 {
            lemma_nothing_on_offer(levels, Side::Ask, price);
        } else {
            lemma_reach_of_bids(levels.drop_last(), price);
        }
    }
}

/// Of a limit order that arrives, as much takes as rests on the other side at prices that it accepts,
/// and no more than it is for.
pub proof fn law_limits_take_what_is_on_offer(
    book: BookView<Fixed>,
    side: Side,
    price: Cents,
    qty: Fixed,
)
    requires
        proper(against(book, side)),
        qty.units >= 0,
        on_offer(against(book, side), side, price) <= LARGEST,
    ensures
        ({
            let there = on_offer(against(book, side), side, price);
            crossing_qty(Some(book), side, price, qty).units == if qty.units < there {
                qty.units as int
            } else {
                there
            }
        }),
        crossing_qty(None::<BookView<Fixed>>, side, price, qty).units == 0,
{
    let levels = against(book, side);
    lemma_on_offer(levels, side, price);
    assert(Fixed::integer(0).units == 0);
    if levels.len() > 0 {
        assert(levels.last() == levels[levels.len() - 1]);
        if side == Side::Bid && levels[0].0 > price.0 {
            lemma_nothing_on_offer(levels, side, price);
        }
        if side == Side::Ask && levels.last().0 < price.0 {
            lemma_nothing_on_offer(levels, side, price);
        }
    }
}

proof fn lemma_fills_are_added<N: Number>(
    p: PortfolioView<N>,
    fills: Seq<FillView<N>>,
    slippage: SlippageModel<N>,
    liquidity: Liquidity,
)
    ensures
        with_fills(p, fills, slippage, liquidity).fills == p.fills + fills,
        with_fills(p, fills, slippage, liquidity).post_only_rejects == p.post_only_rejects,
        with_fills(p, fills, slippage, liquidity).total_orders == p.total_orders,
        with_fills(p, fills, slippage, liquidity).halted == p.halted,
        with_fills(p, fills, slippage, liquidity).halt_reason == p.halt_reason,
    decreases fills.len(),
{
    if fills.len() == 0 {
        assert(p.fills + fills =~= p.fills);
    } else {
        lemma_fills_are_added(p, fills.drop_last(), slippage, liquidity);
        assert((p.fills + fills.drop_last()).push(fills.last()) =~= p.fills + fills);
    }
}

/// Some fills all belong to an order: they carry its number, its instrument and its side, at prices
/// that it accepts.
pub open spec fn fills_of(fills: Seq<FillView<Fixed>>, l: LimitView<Fixed>, now: i64) -> bool {
    forall|i: int|
        0 <= i < fills.len() ==> {
            let f = #[trigger] fills[i];
            &&& f.order_id == l.order_id
            &&& f.instrument == l.instrument
            &&& f.side == l.side
            &&& f.ts_ns == now
            &&& f.liquidity == Liquidity::Taker
        }
}

/// What a limit order takes and what is left of it to rest are together what it is for. A limit order
/// that arrives takes all that is on offer to it. What is left of one that is good till cancelled
/// rests, under its number, at its price and on its side, behind all that rests there; what is left
/// of an immediate one is dropped. One that is only to rest takes nothing: it is refused and counted
/// where anything is on offer to it, and rests whole where nothing is.
pub proof fn law_limits_take_or_rest(e: EngineView<Fixed>, l: LimitView<Fixed>, book: BookView<Fixed>)
    requires
        entry(e.ctx.books, l.instrument) == Some(book),
        proper(against(book, l.side)),
        l.qty.units > 0,
        on_offer(against(book, l.side), l.side, l.price) <= LARGEST,
        e.ctx.portfolio.post_only_rejects < i64::MAX,
    ensures
        ({
            let there = on_offer(against(book, l.side), l.side, l.price);
            let takes = if l.qty.units < there {
                l.qty.units as int
            } else {
                there
            };
            let after = e.resolved(l);
            let was = e.ctx.portfolio;
            let is = after.ctx.portfolio;
            let new = is.fills.skip(was.fills.len() as int);
            let queue = match value_at(book.levels(l.side), l.price.0 as i64) {
                Some(s) => s.units as int,
                None => 0,
            };
            let rests = after.ctx.resting.last();
            &&& is.fills == was.fills + new
            &&& l.post_only && takes > 0 ==> {
                &&& is.post_only_rejects == was.post_only_rejects + 1
                &&& after.ctx.resting == e.ctx.resting
                &&& new.len() == 0
                &&& is.cash == was.cash
                &&& is.positions == was.positions
            }
            &&& l.post_only && takes == 0 || !l.post_only && l.tif == Tif::Gtc && takes
                < l.qty.units ==> {
                &&& after.ctx.resting == e.ctx.resting.push(rests)
                &&& rests.id == l.order_id
                &&& rests.instrument == l.instrument
                &&& rests.side == l.side
                &&& rests.price == l.price
                &&& rests.remaining.units == l.qty.units - takes
                &&& rests.queue_ahead.units == queue
                &&& rests.activation_ts == l.activation_ts
                &&& is.post_only_rejects == was.post_only_rejects
            }
            &&& !l.post_only ==> {
                &&& filled_units(new) == takes
                &&& fills_of(new, l, e.ctx.cur_ts)
                &&& is == with_fills(was, new, e.slippage, Liquidity::Taker)
            }
            &&& !l.post_only && (l.tif != Tif::Gtc || takes == l.qty.units) ==> after.ctx.resting
                == e.ctx.resting
            &&& l.post_only && takes == 0 ==> new.len() == 0 && is == was
            &&& after.ctx.books == e.ctx.books
        }),
{
    let there = on_offer(against(book, l.side), l.side, l.price);
    law_limits_take_what_is_on_offer(book, l.side, l.price, l.qty);
    lemma_on_offer(against(book, l.side), l.side, l.price);
    let m = crossing_qty(Some(book), l.side, l.price, l.qty);
    let was = e.ctx.portfolio;
    let is = e.resolved(l).ctx.portfolio;
    let new = is.fills.skip(was.fills.len() as int);
    lemma_speck_is_zero();
    assert(Fixed::integer(0).units == 0);
    assert(was.fills.skip(was.fills.len() as int) =~= Seq::empty());
    if !l.post_only && m.units > 0 {
        let fills = taker_fills(
            l.order_id,
            l.instrument,
            l.side,
            m,
            Some(l.price),
            book,
            e.fees,
            e.ctx.cur_ts,
        );
        lemma_fills_are_added(was, fills, e.slippage, Liquidity::Taker);
        assert((was.fills + fills).skip(was.fills.len() as int) =~= fills);
        law_takers_take_all_they_can(
            l.order_id,
            l.instrument,
            l.side,
            m,
            Some(l.price),
            book,
            e.fees,
            e.ctx.cur_ts,
        );
        if l.side == Side::Bid {
            lemma_reach_of_asks(book.asks, l.price);
        } else {
            lemma_reach_of_bids(book.bids, l.price);
        }
        assert(is.fills == was.fills + fills);
        assert(new == fills);
        assert(filled_units(fills) == m.units);
    }
    assert(is.fills =~= was.fills + new);
}

/// Each of some fills is booked, in its order, with the slippage of its kind: one fill more moves the
/// cash and the contracts by what it trades, and the cash by its fee and its slippage as well.
pub proof fn law_fills_are_booked_in_turn(
    p: PortfolioView<Fixed>,
    fills: Seq<FillView<Fixed>>,
    f: FillView<Fixed>,
    slippage: SlippageModel<Fixed>,
    liquidity: Liquidity,
    k: int,
)
    requires
        ({
            let q = with_fills(p, fills, slippage, liquidity);
            let slip = slippage.extra(f.price, f.qty, liquidity);
            &&& ordered(q.positions)
            &&& whole_fill(f, k)
            &&& modest(q.cash)
            &&& modest(slip)
            &&& slip.units >= 0
            &&& modest(q.total_slippage_cost)
            &&& -1_000_000_000_000_000 <= held(q.positions, f.instrument).net_qty.units
                <= 1_000_000_000_000_000
        }),
    ensures
        ({
            let q = with_fills(p, fills, slippage, liquidity);
            let r = with_fills(p, fills.push(f), slippage, liquidity);
            let slip = slippage.extra(f.price, f.qty, liquidity).units;
            let fee = if q.include_fees {
                f.fee.units as int
            } else {
                0
            };
            let paid = k * f.price.0 * 10_000;
            let net = held(q.positions, f.instrument).net_qty.units;
            &&& r.fills == q.fills.push(f)
            &&& r.total_slippage_cost.units == q.total_slippage_cost.units + slip
            &&& f.side == Side::Bid ==> r.cash.units == q.cash.units - paid - fee - slip && held(
                r.positions,
                f.instrument,
            ).net_qty.units == net + f.qty.units
            &&& f.side == Side::Ask ==> r.cash.units == q.cash.units + paid - fee - slip && held(
                r.positions,
                f.instrument,
            ).net_qty.units == net - f.qty.units
        }),
        with_fills(p, Seq::empty(), slippage, liquidity) == p,
{
    let q = with_fills(p, fills, slippage, liquidity);
    let slip = slippage.extra(f.price, f.qty, liquidity);
    assert(fills.push(f).drop_last() =~= fills);
    assert(with_fills(p, fills.push(f), slippage, liquidity) == q.after_fill(f, slip));
    law_fills_move_cash_and_contracts(q, f, slip, k);
}

// ---- sending and arriving ----------------------------------------------------------------------

/// An order is sent under the next number, which is then used up, and counted. Without delays it is
/// dealt with at once: one that takes does so in the book as it stands, for all of its contracts and
/// at any price.
pub proof fn law_orders_without_delay_act_at_once<N: Analytic>(
    e: EngineView<N>,
    instrument: Seq<char>,
    side: Side,
    qty: N,
    book: BookView<N>,
)
    requires
        !e.latency.enabled,
        !qty.at_most(N::integer(0)),
        entry(e.ctx.books, instrument) == Some(book),
        e.next_order_id < u64::MAX,
        e.ctx.portfolio.total_orders < i64::MAX,
    ensures
        ({
            let after = e.market_sent(instrument, side, qty);
            let fills = taker_fills(
                e.next_order_id,
                instrument,
                side,
                qty,
                None,
                book,
                e.fees,
                e.ctx.cur_ts,
            );
            let one_more = PortfolioView {
                total_orders: (e.ctx.portfolio.total_orders + 1) as i64,
                ..e.ctx.portfolio
            };
            &&& after.next_order_id == e.next_order_id + 1
            &&& after.ctx.portfolio.total_orders == e.ctx.portfolio.total_orders + 1
            &&& after.ctx.portfolio.fills == e.ctx.portfolio.fills + fills
            &&& after.ctx.portfolio == with_fills(one_more, fills, e.slippage, Liquidity::Taker)
            &&& after.pending_market == e.pending_market
            &&& after.ctx.resting == e.ctx.resting
            &&& after.ctx.books == e.ctx.books
            &&& after.latency == e.latency
        }),
{
    let fills = taker_fills(
        e.next_order_id,
        instrument,
        side,
        qty,
        None,
        book,
        e.fees,
        e.ctx.cur_ts,
    );
    lemma_fills_are_added(e.sent().ctx.portfolio, fills, e.slippage, Liquidity::Taker);
}

/// An order that takes time to arrive waits, as it was asked for and under its number, until the
/// time at which it arrives: no fill, no resting order and no cash come of it before.
pub proof fn law_delayed_orders_wait<N: Analytic>(
    e: EngineView<N>,
    instrument: Seq<char>,
    side: Side,
    price: Cents,
    qty: N,
    tif: Tif,
    post_only: bool,
)
    requires
        e.latency.activation::<N>(e.ctx.cur_ts, e.next_order_id) > e.ctx.cur_ts,
        !qty.at_most(N::integer(0)),
        e.next_order_id < u64::MAX,
        e.ctx.portfolio.total_orders < i64::MAX,
    ensures
        ({
            let at = e.latency.activation::<N>(e.ctx.cur_ts, e.next_order_id);
            let market = e.market_sent(instrument, side, qty);
            let limit = e.limit_sent(instrument, side, price, qty, tif, post_only);
            let one_more = PortfolioView {
                total_orders: (e.ctx.portfolio.total_orders + 1) as i64,
                ..e.ctx.portfolio
            };
            &&& market.pending_market == e.pending_market.push(
                MarketView {
                    order_id: e.next_order_id,
                    instrument,
                    side,
                    qty,
                    activation_ts: at,
                    price_bound: None,
                },
            )
            &&& limit.pending_limit == e.pending_limit.push(
                LimitView {
                    order_id: e.next_order_id,
                    instrument,
                    side,
                    price,
                    qty,
                    tif,
                    post_only,
                    activation_ts: at,
                },
            )
            &&& market.pending_limit == e.pending_limit
            &&& limit.pending_market == e.pending_market
            &&& market.ctx == (CtxView { portfolio: one_more, ..e.ctx })
            &&& limit.ctx == (CtxView { portfolio: one_more, ..e.ctx })
            &&& market.next_order_id == e.next_order_id + 1
            &&& limit.next_order_id == e.next_order_id + 1
        }),
{
}

/// Orders that wait arrive when their time has come, and only those: they are dealt with in the order
/// in which they were sent, and the others go on waiting, in theirs.
pub proof fn law_orders_arrive_in_time<N: Analytic>(e: EngineView<N>)
    ensures
        ({
            let now = e.ctx.cur_ts;
            let due = e.pending_limit.filter(|l: LimitView<N>| l.activation_ts <= now);
            let early = e.pending_limit.filter(|l: LimitView<N>| l.activation_ts > now);
            e.limits_done() == (EngineView { pending_limit: early, ..e }).all_resolved(due)
        }),
        ({
            let now = e.ctx.cur_ts;
            let due = e.pending_market.filter(|o: MarketView<N>| o.activation_ts <= now);
            let early = e.pending_market.filter(|o: MarketView<N>| o.activation_ts > now);
            e.markets_done() == (EngineView { pending_market: early, ..e }).all_taken(due)
        }),
{
    let now = e.ctx.cur_ts;
    lemma_limits_split(e.pending_limit, now);
    lemma_markets_split(e.pending_market, now);
}

proof fn lemma_limits_split<N>(orders: Seq<LimitView<N>>, now: i64)
    ensures
        limits_split(orders, now, true) == orders.filter(
            |l: LimitView<N>| l.activation_ts <= now,
        ),
        limits_split(orders, now, false) == orders.filter(
            |l: LimitView<N>| l.activation_ts > now,
        ),
    decreases orders.len(),
{
    reveal(Seq::filter);
    if orders.len() > 0 {
        lemma_limits_split(orders.drop_last(), now);
    } else {
        assert(orders =~= Seq::empty());
    }
}

proof fn lemma_markets_split<N>(orders: Seq<MarketView<N>>, now: i64)
    ensures
        markets_split(orders, now, true) == orders.filter(
            |o: MarketView<N>| o.activation_ts <= now,
        ),
        markets_split(orders, now, false) == orders.filter(
            |o: MarketView<N>| o.activation_ts > now,
        ),
    decreases orders.len(),
{
    reveal(Seq::filter);
    if orders.len() > 0 {
        lemma_markets_split(orders.drop_last(), now);
    } else {
        assert(orders =~= Seq::empty());
    }
}

/// Orders that arrive together are dealt with one after the other, the first that was sent first. One
/// that takes does so in the book as it stands, for what it asked for.
pub proof fn law_arrivals_keep_their_order<N: Analytic>(
    e: EngineView<N>,
    limits: Seq<LimitView<N>>,
    l: LimitView<N>,
    markets: Seq<MarketView<N>>,
    o: MarketView<N>,
    book: BookView<N>,
)
    requires
        entry(e.ctx.books, o.instrument) == Some(book),
    ensures
        e.all_resolved(limits.push(l)) == e.all_resolved(limits).resolved(l),
        e.all_resolved(Seq::empty()) == e,
        e.all_taken(Seq::empty()) == e,
        ({
            let before = e.all_taken(markets);
            let fills = taker_fills(
                o.order_id,
                o.instrument,
                o.side,
                o.qty,
                o.price_bound,
                book,
                e.fees,
                e.ctx.cur_ts,
            );
            e.all_taken(markets.push(o)) == before.with_portfolio(
                with_fills(before.ctx.portfolio, fills, e.slippage, Liquidity::Taker),
            )
        }),
{
    assert(limits.push(l).drop_last() =~= limits);
    assert(markets.push(o).drop_last() =~= markets);
    lemma_taking_keeps(e, markets);
}

proof fn lemma_taking_keeps<N: Analytic>(e: EngineView<N>, markets: Seq<MarketView<N>>)
    ensures
        ({
            let r = e.all_taken(markets);
            r == e.with_portfolio(r.ctx.portfolio)
        }),
    decreases markets.len(),
{
    if markets.len() > 0 {
        lemma_taking_keeps(e, markets.drop_last());
    }
}

// ---- trades and deltas -------------------------------------------------------------------------

proof fn lemma_unfilled(resting: Seq<RestingView<Fixed>>)
    ensures
        unfilled(resting) == resting.filter(|o: RestingView<Fixed>| o.remaining.units > 0),
    decreases resting.len(),
{
    reveal(Seq::filter);
    lemma_speck_is_zero();
    if resting.len() > 0 {
        lemma_unfilled(resting.drop_last());
    } else {
        assert(resting =~= Seq::empty());
    }
}

/// A trade meets the resting orders that have arrived, and leaves the others alone; an order with
/// nothing left is gone, and all others stay, in their order. What is filled is booked as filled by a
/// maker, and the trade itself is kept.
pub proof fn law_trades_meet_resting_orders(e: EngineView<Fixed>, t: TradeView<Fixed>)
    ensures
        ({
            let now = e.ctx.cur_ts;
            let after = e.trade_matched(t);
            let moved = Seq::new(
                e.ctx.resting.len(),
                |i: int|
                    if e.ctx.resting[i].activation_ts <= now {
                        met(e.ctx.resting[i], t).0
                    } else {
                        e.ctx.resting[i]
                    },
            );
            let fills = maker_fills(e.ctx.resting, t, now, e.fees);
            &&& after.ctx.resting == moved.filter(|o: RestingView<Fixed>| o.remaining.units > 0)
            &&& after.ctx.portfolio == with_fills(
                e.ctx.portfolio,
                fills,
                e.slippage,
                Liquidity::Maker,
            )
            &&& after.ctx.portfolio.fills == e.ctx.portfolio.fills + fills
            &&& after.observed_trades == e.observed_trades.push(t)
            &&& after.ctx.books == e.ctx.books
            &&& after.pending_limit == e.pending_limit
            &&& after.pending_market == e.pending_market
        }),
{
    let now = e.ctx.cur_ts;
    let moved = Seq::new(
        e.ctx.resting.len(),
        |i: int|
            if e.ctx.resting[i].activation_ts <= now {
                met(e.ctx.resting[i], t).0
            } else {
                e.ctx.resting[i]
            },
    );
    assert(e.ctx.resting.map_values(|o: RestingView<Fixed>| order_after(o, t, now)) =~= moved);
    lemma_unfilled(moved);
    lemma_fills_are_added(
        e.ctx.portfolio,
        maker_fills(e.ctx.resting, t, now, e.fees),
        e.slippage,
        Liquidity::Maker,
    );
}

/// Each resting order that has arrived and that a trade fills gets one fill, after those of the orders
/// before it, for what the trade fills of it; one that has not arrived gets none.
pub proof fn law_each_resting_order_gets_its_fill<N: Number>(
    resting: Seq<RestingView<N>>,
    o: RestingView<N>,
    t: TradeView<N>,
    now: i64,
    fees: FeeModel<N>,
)
    ensures
        ({
            let before = maker_fills(resting, t, now, fees);
            let all = maker_fills(resting.push(o), t, now, fees);
            match met(o, t).1 {
                Some(q) => if o.activation_ts <= now {
                    all == before.push(maker_fill(o, t, q, fees))
                } else {
                    all == before
                },
                None => all == before,
            }
        }),
        maker_fills(Seq::empty(), t, now, fees) == Seq::<FillView<N>>::empty(),
{
    assert(resting.push(o).drop_last() =~= resting);
}

/// Where queues shrink from the front, a resting order moves up by what the size at its price has
/// shrunk, and never past the front; an order at another price, on the other side, in another
/// instrument or already at the front stays where it is, and so does every order where the size has
/// not shrunk or where queues do not shrink. Nothing else of an order changes.
pub proof fn law_queues_move_up(e: EngineView<Fixed>, d: DeltaView<Fixed>, i: int)
    requires
        0 <= i < e.ctx.resting.len(),
        ({
            let book = entry(e.ctx.books, d.instrument);
            book is Some && size_of(book->0.levels(d.side), d.price).units >= 0
        }),
        0 <= e.ctx.resting[i].queue_ahead.units,
        !d.is_snapshot,
        climbing(entry(e.ctx.books, d.instrument)->0.levels(d.side)),
    ensures
        ({
            let o = e.ctx.resting[i];
            let after = e.delta_applied(d).ctx.resting[i];
            let was = size_of(entry(e.ctx.books, d.instrument)->0.levels(d.side), d.price).units;
            let shrunk = was - if d.action == Action::Delete || d.size.units <= 0 {
                0
            } else {
                d.size.units as int
            };
            let there = o.instrument == d.instrument && o.side == d.side && o.price == d.price;
            &&& e.delta_applied(d).ctx.resting.len() == e.ctx.resting.len()
            &&& e.queue_model == QueueModel::Optimistic && there && shrunk > 0 ==> {
                &&& after.queue_ahead.units == if o.queue_ahead.units < shrunk {
                    0
                } else {
                    o.queue_ahead.units - shrunk
                }
                &&& after == (RestingView { queue_ahead: after.queue_ahead, ..o })
            }
            &&& e.queue_model != QueueModel::Optimistic || !there || shrunk <= 0 ==> after == o
            &&& e.delta_applied(d).ctx.portfolio == e.ctx.portfolio
        }),
{
    let book = entry(e.ctx.books, d.instrument)->0;
    law_put_then_find(e.ctx.books, d.instrument, book.after(d), d.instrument);
    let levels = book.levels(d.side);
    let k = d.price.0 as i64;
    law_set_then_read(levels, k, d.size, k);
    law_remove_then_read(levels, k, k);
    assert(Fixed::integer(0).units == 0);
    let later = book.after(d).levels(d.side);
    if d.action == Action::Delete || d.size.units <= 0 {
        assert(later == without_key(levels, k));
    } else {
        assert(later == with_value(levels, k, d.size));
    }
}

/// What was due at the time of an event happens before the event: two events at one time find the
/// same account and the same resting orders, whatever they change afterwards. A delta changes the
/// book and no account; a trade changes no book.
pub proof fn law_what_is_due_comes_first<N: Analytic>(
    e: EngineView<N>,
    d: DeltaView<N>,
    other: DeltaView<N>,
    t: TradeView<N>,
)
    requires
        d.ts_ns == t.ts_ns,
        other.ts_ns == d.ts_ns,
    ensures
        ({
            let delta = e.begun(EventView::Delta(d));
            let another = e.begun(EventView::Delta(other));
            let trade = e.begun(EventView::Trade(t));
            &&& delta.ctx.cur_ts == d.ts_ns
            &&& trade.ctx.cur_ts == t.ts_ns
            &&& delta.ctx.portfolio == another.ctx.portfolio
            &&& delta.pending_limit == another.pending_limit
            &&& delta.pending_market == another.pending_market
            &&& delta.pending_limit == trade.pending_limit
            &&& delta.pending_market == trade.pending_market
            &&& delta.pending_cancels == trade.pending_cancels
            &&& trade.ctx.books == e.ctx.books
            &&& delta.ctx.books == books_after(e.ctx.books, d)
        }),
{
    let due = e.with_ctx(
        CtxView { cur_ts: d.ts_ns, ..e.ctx },
    ).cancels_done().limits_done().markets_done();
    let now = e.with_ctx(CtxView { cur_ts: d.ts_ns, ..e.ctx }).cancels_done();
    lemma_limits_keep(
        EngineView { pending_limit: limits_split(now.pending_limit, d.ts_ns, false), ..now },
        limits_split(now.pending_limit, d.ts_ns, true),
    );
    let after = now.limits_done();
    lemma_taking_keeps(
        EngineView { pending_market: markets_split(after.pending_market, d.ts_ns, false), ..after },
        markets_split(after.pending_market, d.ts_ns, true),
    );
    assert(due.ctx.books == e.ctx.books);
    assert(due.ctx.cur_ts == d.ts_ns);
}

proof fn lemma_limits_keep<N: Analytic>(e: EngineView<N>, limits: Seq<LimitView<N>>)
    ensures
        ({
            let r = e.all_resolved(limits);
            r == e.with_portfolio(r.ctx.portfolio).with_resting(r.ctx.resting)
        }),
    decreases limits.len(),
{
    if limits.len() > 0 {
        lemma_limits_keep(e, limits.drop_last());
        let b = e.all_resolved(limits.drop_last());
        let r = b.resolved(limits.last());
        assert(r == b.with_portfolio(r.ctx.portfolio).with_resting(r.ctx.resting));
    }
}

// ---- limits ------------------------------------------------------------------------------------

/// The limits cut no more than they have to: where an order was cut, or dropped, one unit more would
/// break a cap, on the order, on its position or on all positions.
pub proof fn law_limits_cut_no_more_than_they_must(
    e: EngineView<Fixed>,
    instrument: Seq<char>,
    side: Side,
    qty: Fixed,
)
    requires
        !e.halted,
        qty.units > 0,
        modest(held(e.ctx.portfolio.positions, instrument).net_qty),
        modest(gross(e.ctx.portfolio.positions)),
        e.risk.max_position_per_instrument matches Some(cap) ==> modest(cap),
        e.risk.max_gross_position matches Some(cap) ==> modest(cap),
    ensures
        ({
            let sent = match e.allowed(instrument, side, qty) {
                Some(q) => q.units as int,
                None => 0,
            };
            let more = sent + 1;
            let net = held(e.ctx.portfolio.positions, instrument).net_qty.units as int;
            let moved = if side == Side::Bid {
                net + more
            } else {
                net - more
            };
            let all = gross(e.ctx.portfolio.positions).units - size(net) + size(moved);
            &&& sent <= qty.units
            &&& sent < qty.units ==> {
                ||| e.risk.max_order_qty matches Some(cap) && 0 <= cap.units < more
                ||| e.risk.max_position_per_instrument matches Some(cap) && cap.units < size(moved)
                ||| e.risk.max_gross_position matches Some(cap) && cap.units < all
            }
        }),
{
    lemma_speck_is_zero();
    assert(Fixed::integer(0).units == 0);
    law_one_is_not_more_than_all(e.ctx.portfolio.positions, instrument);
}

/// An equity at the floor or below it halts the run, and so does a fall from the peak by the limit or
/// more, in percent of the peak; the peak is the highest equity seen so far. Otherwise the run goes
/// on as it was. A halted run rests nothing and sends nothing that was on its way.
pub proof fn law_broken_limits_halt(e: EngineView<Fixed>)
    requires
        !e.halted,
        e.risk.equity_floor is Some || e.risk.max_drawdown_pct is Some,
        1_000_000 <= e.equity_peak.units <= 1_000_000_000_000_000,
        ({
            let worth = e.ctx.portfolio.net_worth(e.ctx.books).units;
            -1_000_000_000_000_000 <= worth <= 1_000_000_000_000_000
        }),
    ensures
        ({
            let worth = e.ctx.portfolio.net_worth(e.ctx.books).units as int;
            let peak = if e.equity_peak.units < worth {
                worth
            } else {
                e.equity_peak.units as int
            };
            let fallen = (peak - worth) * 1_000_000 / peak * 100;
            let broken = (e.risk.equity_floor matches Some(f) && worth <= f.units) || (
            e.risk.max_drawdown_pct matches Some(p) && p.units <= fallen);
            let after = e.checked();
            &&& after.equity_peak.units == peak
            &&& after.halted == broken
            &&& broken ==> {
                &&& after.ctx.portfolio.halted
                &&& after.ctx.resting.len() == 0
                &&& after.ctx.pending.len() == 0
                &&& after.pending_cancels.len() == 0
                &&& after.pending_market.len() == 0
                &&& after.pending_limit.len() == 0
            }
            &&& !broken ==> after == (EngineView { equity_peak: after.equity_peak, ..e })
        }),
{
    let worth = e.ctx.portfolio.net_worth(e.ctx.books);
    let s = EngineView {
        equity_peak: if e.equity_peak.below(worth) {
            worth
        } else {
            e.equity_peak
        },
        ..e
    };
    let (w, p) = (worth.units as int, s.equity_peak.units as int);
    lemma_speck_is_zero();
    let gap = s.equity_peak.difference(worth);
    assert(gap.units == p - w);
    let part = gap.quotient(s.equity_peak);
    let c = cut_quotient((p - w) * 1_000_000, p);
    lemma_cut((p - w) * 1_000_000, p);
    assert(c == (p - w) * 1_000_000 / p);
    assert(0 <= c <= 2_000_000_000_000_000) by (nonlinear_arith)
        requires
            0 <= c * p <= (p - w) * 1_000_000,
            p >= 1_000_000,
            p - w <= 2_000_000_000_000_000,
    ;
    assert(part.units == c);
    let hundred = Fixed::integer(100);
    assert(hundred.units == 100 * 1_000_000);
    law_whole_products_are_exact(hundred, part, 100);
    assert(part.product(hundred).units == c * 100);
    match s.breach(worth) {
        Some(reason) => {
            law_halting_clears(s, reason);
            lemma_closing_keeps_peak(s, reason);
        },
        None => {},
    }
}

proof fn lemma_closing_keeps_peak(e: EngineView<Fixed>, reason: Seq<char>)
    ensures
        e.stopped(reason).equity_peak == e.equity_peak,
        e.stopped(reason).ctx.portfolio.halted,
        e.stopped(reason).ctx.portfolio.halt_reason == reason,
{
    let s = EngineView {
        halted: true,
        pending_cancels: Seq::empty(),
        pending_market: Seq::empty(),
        pending_limit: Seq::empty(),
        ctx: CtxView {
            portfolio: PortfolioView { halted: true, halt_reason: reason, ..e.ctx.portfolio },
            resting: Seq::empty(),
            pending: Seq::empty(),
            ..e.ctx
        },
        ..e
    };
    lemma_closing_keeps(s, open_positions(s.ctx.portfolio.positions));
}

proof fn lemma_closing_keeps<N: Analytic>(e: EngineView<N>, open: Seq<(Seq<char>, N)>)
    ensures
        ({
            let r = e.all_closed(open);
            &&& r == (EngineView { next_order_id: r.next_order_id, ..e }).with_portfolio(
                r.ctx.portfolio,
            )
            &&& r.ctx.portfolio.halted == e.ctx.portfolio.halted
            &&& r.ctx.portfolio.halt_reason == e.ctx.portfolio.halt_reason
        }),
    decreases open.len(),
{
    if open.len() > 0 {
        lemma_closing_keeps(e, open.drop_last());
        let before = e.all_closed(open.drop_last());
        let (instrument, net) = open.last();
        let fills = match entry(e.ctx.books, instrument) {
            Some(b) => taker_fills(
                before.next_order_id,
                instrument,
                closing_side(net),
                net.magnitude(),
                None,
                b,
                e.fees,
                e.ctx.cur_ts,
            ),
            None => Seq::empty(),
        };
        lemma_fills_are_added(
            before.numbered().ctx.portfolio,
            fills,
            e.slippage,
            Liquidity::Taker,
        );
    }
}

// ---- closing and settling ----------------------------------------------------------------------

proof fn lemma_filled_from_the_end(fills: Seq<FillView<Fixed>>)
    requires
        fills.len() > 0,
    ensures
        filled_units(fills) == filled_units(fills.drop_last()) + fills.last().qty.units,
    decreases fills.len(),
{
    if fills.len() == 1 {
        assert(fills.drop_first() =~= fills.drop_last());
        assert(fills[0] == fills.last());
        assert(filled_units(fills.drop_first()) == 0);
    } else {
        lemma_filled_from_the_end(fills.drop_first());
        assert(fills.drop_first().drop_last() =~= fills.drop_last().drop_first());
        assert(fills.drop_first().last() == fills.last());
        assert(fills.drop_last()[0] == fills[0]);
    }
}

/// All of some fills are of one instrument and on one side, and for something.
spec fn all_on(fills: Seq<FillView<Fixed>>, instrument: Seq<char>, side: Side) -> bool {
    forall|i: int|
        0 <= i < fills.len() ==> (#[trigger] fills[i]).instrument == instrument && fills[i].side
            == side && fills[i].qty.units > 0
}

proof fn lemma_fills_move_contracts(
    p: PortfolioView<Fixed>,
    fills: Seq<FillView<Fixed>>,
    slippage: SlippageModel<Fixed>,
    liquidity: Liquidity,
    instrument: Seq<char>,
    side: Side,
    other: Seq<char>,
)
    requires
        all_on(fills, instrument, side),
        modest(held(p.positions, instrument).net_qty),
        filled_units(fills) <= 1_000_000_000_000_000_000,
        other != instrument,
    ensures
        ({
            let q = with_fills(p, fills, slippage, liquidity);
            &&& filled_units(fills) >= 0
            &&& held(q.positions, instrument).net_qty.units == held(
                p.positions,
                instrument,
            ).net_qty.units + if side == Side::Bid {
                filled_units(fills)
            } else {
                -filled_units(fills)
            }
            &&& held(q.positions, other) == held(p.positions, other)
        }),
    decreases fills.len(),
{
    if fills.len() > 0 {
        let rest = fills.drop_last();
        let f = fills.last();
        assert(f == fills[fills.len() - 1]);
        lemma_filled_from_the_end(fills);
        assert forall|i: int| 0 <= i < rest.len() implies (#[trigger] rest[i]).instrument
            == instrument && rest[i].side == side && rest[i].qty.units > 0 by {
            assert(rest[i] == fills[i]);
        }
        lemma_fills_move_contracts(p, rest, slippage, liquidity, instrument, side, other);
        let b = with_fills(p, rest, slippage, liquidity);
        let cost = slippage.extra(f.price, f.qty, liquidity);
        let slip = cost.greater(Fixed::integer(0));
        law_fill_touches_one_instrument(b, f, cost, other);
        law_put_then_find(b.positions, instrument, b.position_after(f, slip), instrument);
        lemma_speck_is_zero();
        assert(Fixed::integer(0).units == 0);
        let net = held(b.positions, instrument).net_qty;
        assert(signed_qty(f).units == if side == Side::Bid {
            f.qty.units as int
        } else {
            -f.qty.units
        });
        assert(net.sum(signed_qty(f)).units == net.units + signed_qty(f).units);
        assert(b.position_after(f, slip).net_qty.units == net.units + signed_qty(f).units);
    }
}

/// The book of an instrument has enough on the other side to close a position of it.
pub open spec fn can_be_closed(
    books: Seq<(Seq<char>, BookView<Fixed>)>,
    instrument: Seq<char>,
    net: Fixed,
) -> bool {
    entry(books, instrument) matches Some(b) && {
        let levels = if net.units > 0 {
            b.bids
        } else {
            b.asks
        };
        &&& all_above_zero(levels)
        &&& size(net.units as int) <= all_there(levels)
        &&& modest(net)
        &&& net.units != 0
    }
}

/// Something rests on each of some levels.
pub open spec fn all_above_zero(levels: Seq<(i64, Fixed)>) -> bool {
    forall|i: int| 0 <= i < levels.len() ==> (#[trigger] levels[i]).1.units > 0
}

/// What rests on some levels together.
pub open spec fn all_there(levels: Seq<(i64, Fixed)>) -> int
    decreases levels.len(),
{
    if levels.len() == 0 {
        0
    } else {
        all_there(levels.drop_last()) + levels.last().1.units
    }
}

proof fn lemma_all_there_from_below(levels: Seq<(i64, Fixed)>)
    requires
        levels.len() > 0,
    ensures
        all_there(levels) == all_there(levels.drop_first()) + levels[0].1.units,
    decreases levels.len(),
{
    if levels.len() == 1 {
        assert(levels.last() == levels[0]);
        assert(levels.drop_last() =~= levels.drop_first());
    } else {
        lemma_all_there_from_below(levels.drop_last());
        assert(levels.drop_last().drop_first() =~= levels.drop_first().drop_last());
        assert(levels.drop_first().last() == levels.last());
        assert(levels.drop_last()[0] == levels[0]);
    }
}

proof fn lemma_all_reached(levels: Seq<(i64, Fixed)>, side: Side)
    requires
        forall|i: int| 0 <= i < levels.len() ==> (#[trigger] levels[i]).1.units > 0,
    ensures
        within_reach(levels, side, None) == all_there(levels),
    decreases levels.len(),
{
    if levels.len() > 0 {
        lemma_all_there_from_below(levels);
        assert forall|i: int| 0 <= i < levels.drop_first().len() implies (
        #[trigger] levels.drop_first()[i]).1.units > 0 by {
            assert(levels.drop_first()[i] == levels[i + 1]);
        }
        lemma_all_reached(levels.drop_first(), side);
    }
}

proof fn lemma_all_there_reversed(levels: Seq<(i64, Fixed)>)
    ensures
        all_there(levels.reverse()) == all_there(levels),
    decreases levels.len(),
{
    if levels.len() > 0 {
        let back = levels.reverse();
        lemma_all_there_from_below(back);
        assert(back[0] == levels.last());
        assert(back.drop_first() =~= levels.drop_last().reverse());
        lemma_all_there_reversed(levels.drop_last());
    } else {
        assert(levels.reverse() =~= levels);
    }
}

proof fn lemma_closing_order(
    e: EngineView<Fixed>,
    id: u64,
    instrument: Seq<char>,
    net: Fixed,
    side: Side,
    qty: Fixed,
    ts_ns: i64,
    other: Seq<char>,
)
    requires
        held(e.ctx.portfolio.positions, instrument).net_qty == net,
        can_be_closed(e.ctx.books, instrument, net),
        side == if net.units > 0 {
            Side::Ask
        } else {
            Side::Bid
        },
        qty.units == size(net.units as int),
        other != instrument,
    ensures
        ({
            let r = e.taken(id, instrument, side, qty, None, ts_ns);
            &&& held(r.ctx.portfolio.positions, instrument).net_qty.units == 0
            &&& held(r.ctx.portfolio.positions, other) == held(e.ctx.portfolio.positions, other)
            &&& r.ctx.books == e.ctx.books
        }),
{
    let b = entry(e.ctx.books, instrument)->0;
    let fills = taker_fills(id, instrument, side, qty, None, b, e.fees, ts_ns);
    law_takers_take_all_they_can(id, instrument, side, qty, None, b, e.fees, ts_ns);
    let levels = if net.units > 0 {
        b.bids
    } else {
        b.asks
    };
    let faced = facing(b, side);
    assert(all_above_zero(levels));
    assert forall|i: int| 0 <= i < faced.len() implies (#[trigger] faced[i]).1.units > 0 by {
        if net.units > 0 {
            assert(faced[i] == levels[levels.len() - 1 - i]);
        } else {
            assert(faced[i] == levels[i]);
        }
    }
    lemma_all_reached(faced, side);
    lemma_all_there_reversed(levels);
    assert(filled_units(fills) == qty.units);
    let taken = taken_from(faced, side, qty, None);
    lemma_takes_something(faced, side, qty, None);
    assert forall|i: int| 0 <= i < fills.len() implies (#[trigger] fills[i]).instrument == instrument
        && fills[i].side == side && fills[i].qty.units > 0 by {
        assert(fills[i].qty == taken[i].1);
    }
    lemma_fills_move_contracts(
        e.ctx.portfolio,
        fills,
        e.slippage,
        Liquidity::Taker,
        instrument,
        side,
        other,
    );
}

proof fn lemma_takes_something(
    levels: Seq<(i64, Fixed)>,
    side: Side,
    qty: Fixed,
    bound: Option<Cents>,
)
    ensures
        ({
            let taken = taken_from(levels, side, qty, bound);
            forall|i: int| 0 <= i < taken.len() ==> (#[trigger] taken[i]).1.units > 0
        }),
    decreases levels.len(),
{
    assert(Fixed::integer(0).units == 0);
    if levels.len() > 0 {
        let take = qty.lesser(levels[0].1);
        lemma_takes_something(levels.drop_first(), side, qty, bound);
        lemma_takes_something(levels.drop_first(), side, qty.difference(take), bound);
        let taken = taken_from(levels, side, qty, bound);
        let more = taken_from(levels.drop_first(), side, qty.difference(take), bound);
        assert forall|i: int| 0 <= i < taken.len() implies (#[trigger] taken[i]).1.units > 0 by {
            if qty.units > 0 && !beyond(side, levels[0].0, bound) {
                if take.units <= 0 {
                    assert(taken == taken_from(levels.drop_first(), side, qty, bound));
                } else {
                    assert(taken == seq![(levels[0].0, take)] + more);
                    if i > 0 {
                        assert(taken[i] == more[i - 1]);
                    }
                }
            }
        }
    }
}

/// Some positions, each once, as an account holds them.
pub open spec fn lists_positions(
    open: Seq<(Seq<char>, Fixed)>,
    positions: Seq<(Seq<char>, Position<Fixed>)>,
) -> bool {
    &&& forall|i: int|
        0 <= i < open.len() ==> held(positions, (#[trigger] open[i]).0).net_qty == open[i].1
    &&& forall|i: int, j: int|
        0 <= i < j < open.len() ==> (#[trigger] open[i]).0 != (#[trigger] open[j]).0
}

proof fn lemma_closing(e: EngineView<Fixed>, open: Seq<(Seq<char>, Fixed)>, name: Seq<char>)
    requires
        lists_positions(open, e.ctx.portfolio.positions),
        forall|i: int|
            0 <= i < open.len() ==> can_be_closed(
                e.ctx.books,
                (#[trigger] open[i]).0,
                open[i].1,
            ),
    ensures
        ({
            let r = e.all_closed(open);
            let listed = exists|i: int| 0 <= i < open.len() && (#[trigger] open[i]).0 == name;
            &&& r.ctx.books == e.ctx.books
            &&& listed ==> held(r.ctx.portfolio.positions, name).net_qty.units == 0
            &&& !listed ==> held(r.ctx.portfolio.positions, name) == held(
                e.ctx.portfolio.positions,
                name,
            )
        }),
    decreases open.len(),
{
    if open.len() > 0 {
        let rest = open.drop_last();
        let (instrument, net) = open.last();
        let n = open.len() - 1;
        assert(open[n] == open.last());
        assert forall|i: int| 0 <= i < rest.len() implies (#[trigger] rest[i]) == open[i] by {}
        assert(forall|i: int| 0 <= i < rest.len() ==> (#[trigger] rest[i]).0 != instrument) by {
            assert forall|i: int| 0 <= i < rest.len() implies (#[trigger] rest[i]).0 != instrument by {
                assert(open[i].0 != open[n].0);
            }
        }
        lemma_closing(e, rest, instrument);
        lemma_closing(e, rest, name);
        let before = e.all_closed(rest);
        let side = if net.units > 0 {
            Side::Ask
        } else {
            Side::Bid
        };
        assert(Fixed::integer(0).units == 0);
        assert(closing_side(net) == side);
        assert(net.magnitude().units == size(net.units as int));
        let b = before.numbered();
        if name != instrument {
            lemma_closing_order(
                b,
                before.next_order_id,
                instrument,
                net,
                side,
                net.magnitude(),
                e.ctx.cur_ts,
                name,
            );
            if exists|i: int| 0 <= i < open.len() && (#[trigger] open[i]).0 == name {
                let i = choose|i: int| 0 <= i < open.len() && (#[trigger] open[i]).0 == name;
                assert(rest[i].0 == name);
            }
            if exists|i: int| 0 <= i < rest.len() && (#[trigger] rest[i]).0 == name {
                let i = choose|i: int| 0 <= i < rest.len() && (#[trigger] rest[i]).0 == name;
                assert(open[i].0 == name);
            }
        } else {
            let other = instrument.push('x');
            assert(other.len() != instrument.len());
            lemma_closing_order(
                b,
                before.next_order_id,
                instrument,
                net,
                side,
                net.magnitude(),
                e.ctx.cur_ts,
                other,
            );
        }
    }
}

/// The positions that are open are those with contracts, held or owed: each of them is listed, with
/// its contracts, and nothing else is.
pub proof fn law_open_positions_are_those_held(positions: Seq<(Seq<char>, Position<Fixed>)>)
    ensures
        open_positions(positions) == positions.filter(
            |e: (Seq<char>, Position<Fixed>)| e.1.net_qty.units != 0,
        ).map_values(|e: (Seq<char>, Position<Fixed>)| (e.0, e.1.net_qty)),
    decreases positions.len(),
{
    reveal(Seq::filter);
    lemma_speck_is_zero();
    let keep = |e: (Seq<char>, Position<Fixed>)| e.1.net_qty.units != 0;
    let say = |e: (Seq<char>, Position<Fixed>)| (e.0, e.1.net_qty);
    if positions.len() > 0 {
        let rest = positions.drop_last();
        law_open_positions_are_those_held(rest);
        if keep(positions.last()) {
            assert(rest.filter(keep).push(positions.last()).map_values(say) =~= rest.filter(
                keep,
            ).map_values(say).push(say(positions.last())));
        }
    } else {
        assert(open_positions(positions) =~= positions.filter(keep).map_values(say));
    }
}

/// A run that is halted closes what it holds: where the books have enough on the other side, nothing
/// is held of a listed position afterwards, and other positions stay as they are.
pub proof fn law_positions_are_closed(
    e: EngineView<Fixed>,
    open: Seq<(Seq<char>, Fixed)>,
    name: Seq<char>,
)
    requires
        lists_positions(open, e.ctx.portfolio.positions),
        forall|i: int|
            0 <= i < open.len() ==> can_be_closed(
                e.ctx.books,
                (#[trigger] open[i]).0,
                open[i].1,
            ),
    ensures
        ({
            let r = e.all_closed(open);
            let listed = exists|i: int| 0 <= i < open.len() && (#[trigger] open[i]).0 == name;
            &&& listed ==> held(r.ctx.portfolio.positions, name).net_qty.units == 0
            &&& !listed ==> held(r.ctx.portfolio.positions, name) == held(
                e.ctx.portfolio.positions,
                name,
            )
        }),
{
    lemma_closing(e, open, name);
}

spec fn from_position(
    positions: Seq<(Seq<char>, Position<Fixed>)>,
    instrument: Seq<char>,
    net: Fixed,
) -> bool {
    exists|i: int|
        0 <= i < positions.len() && (#[trigger] positions[i]).0 == instrument
            && positions[i].1.net_qty == net && net.units != 0
}

spec fn is_listed(open: Seq<(Seq<char>, Fixed)>, name: Seq<char>) -> bool {
    exists|j: int| 0 <= j < open.len() && (#[trigger] open[j]).0 == name
}

proof fn lemma_open_is_held(positions: Seq<(Seq<char>, Position<Fixed>)>)
    requires
        ordered(positions),
    ensures
        ({
            let open = open_positions(positions);
            forall|j: int|
                0 <= j < open.len() ==> from_position(
                    positions,
                    (#[trigger] open[j]).0,
                    open[j].1,
                )
        }),
    decreases positions.len(),
{
    lemma_speck_is_zero();
    if positions.len() > 0 {
        let rest = positions.drop_last();
        let n = positions.len() - 1;
        lemma_open_is_held(rest);
        let before = open_positions(rest);
        let open = open_positions(positions);
        assert(positions.last() == positions[n]);
        assert forall|j: int| 0 <= j < open.len() implies from_position(
            positions,
            (#[trigger] open[j]).0,
            open[j].1,
        ) by {
            if j < before.len() {
                assert(open[j] == before[j]);
                let i = choose|i: int|
                    0 <= i < rest.len() && (#[trigger] rest[i]).0 == before[j].0
                        && rest[i].1.net_qty == before[j].1 && before[j].1.units != 0;
                assert(positions[i] == rest[i]);
            } else {
                assert(positions[n].0 == open[j].0);
            }
        }
    }
}

proof fn lemma_open_is_listed(positions: Seq<(Seq<char>, Position<Fixed>)>, i: int)
    requires
        0 <= i < positions.len(),
        positions[i].1.net_qty.units != 0,
    ensures
        is_listed(open_positions(positions), positions[i].0),
    decreases positions.len(),
{
    lemma_speck_is_zero();
    let rest = positions.drop_last();
    let n = positions.len() - 1;
    let before = open_positions(rest);
    let open = open_positions(positions);
    assert(positions.last() == positions[n]);
    if i < n {
        assert(rest[i] == positions[i]);
        lemma_open_is_listed(rest, i);
        let j = choose|j: int| 0 <= j < before.len() && (#[trigger] before[j]).0 == rest[i].0;
        assert(open[j] == before[j]);
    } else {
        assert(open[open.len() - 1].0 == positions[n].0);
    }
}

proof fn lemma_open_is_distinct(positions: Seq<(Seq<char>, Position<Fixed>)>, j: int, k: int)
    requires
        ordered(positions),
        0 <= j < k < open_positions(positions).len(),
    ensures
        open_positions(positions)[j].0 != open_positions(positions)[k].0,
    decreases positions.len(),
{
    let rest = positions.drop_last();
    let n = positions.len() - 1;
    let before = open_positions(rest);
    let open = open_positions(positions);
    assert(positions.last() == positions[n]);
    assert(open[j] == before[j]);
    if k < before.len() {
        assert(open[k] == before[k]);
        lemma_open_is_distinct(rest, j, k);
    } else {
        lemma_open_is_held(rest);
        assert(from_position(rest, before[j].0, before[j].1));
        let i = choose|i: int|
            0 <= i < rest.len() && (#[trigger] rest[i]).0 == before[j].0 && rest[i].1.net_qty
                == before[j].1 && before[j].1.units != 0;
        assert(positions[i] == rest[i]);
        assert(text_less(positions[i].0, positions[n].0));
        lemma_text_less_irreflexive(positions[n].0);
    }
}

/// A run that is halted holds nothing any more, where the books have enough on the other side of
/// every open position.
pub proof fn law_halting_closes_what_is_held(e: EngineView<Fixed>, reason: Seq<char>, i: int)
    requires
        ordered(e.ctx.portfolio.positions),
        forall|j: int|
            0 <= j < e.ctx.portfolio.positions.len() && (
            #[trigger] e.ctx.portfolio.positions[j]).1.net_qty.units != 0 ==> can_be_closed(
                e.ctx.books,
                e.ctx.portfolio.positions[j].0,
                e.ctx.portfolio.positions[j].1.net_qty,
            ),
        0 <= i < e.ctx.portfolio.positions.len(),
    ensures
        held(
            e.stopped(reason).ctx.portfolio.positions,
            e.ctx.portfolio.positions[i].0,
        ).net_qty.units == 0,
{
    let positions = e.ctx.portfolio.positions;
    let s = EngineView {
        halted: true,
        pending_cancels: Seq::empty(),
        pending_market: Seq::empty(),
        pending_limit: Seq::empty(),
        ctx: CtxView {
            portfolio: PortfolioView { halted: true, halt_reason: reason, ..e.ctx.portfolio },
            resting: Seq::empty(),
            pending: Seq::empty(),
            ..e.ctx
        },
        ..e
    };
    lemma_listed_can_be_closed(e);
    lemma_closing(s, open_positions(positions), positions[i].0);
    lemma_entry_found(positions, positions[i].0, i);
    if positions[i].1.net_qty.units != 0 {
        lemma_open_is_listed(positions, i);
    }
    assert(held(positions, positions[i].0) == positions[i].1);
    assert(e.stopped(reason) == s.all_closed(open_positions(positions)));
}

proof fn lemma_listed_can_be_closed(e: EngineView<Fixed>)
    requires
        ordered(e.ctx.portfolio.positions),
        forall|j: int|
            0 <= j < e.ctx.portfolio.positions.len() && (
            #[trigger] e.ctx.portfolio.positions[j]).1.net_qty.units != 0 ==> can_be_closed(
                e.ctx.books,
                e.ctx.portfolio.positions[j].0,
                e.ctx.portfolio.positions[j].1.net_qty,
            ),
    ensures
        ({
            let open = open_positions(e.ctx.portfolio.positions);
            &&& lists_positions(open, e.ctx.portfolio.positions)
            &&& forall|i: int|
                0 <= i < open.len() ==> can_be_closed(
                    e.ctx.books,
                    (#[trigger] open[i]).0,
                    open[i].1,
                )
        }),
{
    let positions = e.ctx.portfolio.positions;
    let open = open_positions(positions);
    lemma_open_is_held(positions);
    assert forall|j: int| 0 <= j < open.len() implies held(positions, (#[trigger] open[j]).0).net_qty
        == open[j].1 && can_be_closed(e.ctx.books, open[j].0, open[j].1) by {
        assert(from_position(positions, open[j].0, open[j].1));
        let i = choose|i: int|
            0 <= i < positions.len() && (#[trigger] positions[i]).0 == open[j].0
                && positions[i].1.net_qty == open[j].1 && open[j].1.units != 0;
        lemma_entry_found(positions, open[j].0, i);
    }
    assert forall|j: int, k: int| 0 <= j < k < open.len() implies (#[trigger] open[j]).0 != (
    #[trigger] open[k]).0 by {
        lemma_open_is_distinct(positions, j, k);
    }
}

/// Where positions are to be closed at the end and orders are not delayed, nothing is held at the
/// end, where the books have enough on the other side of every open position.
pub proof fn law_flattening_closes_what_is_held(e: EngineView<Fixed>, i: int)
    requires
        !e.latency.enabled,
        ordered(e.ctx.portfolio.positions),
        forall|j: int|
            0 <= j < e.ctx.portfolio.positions.len() && (
            #[trigger] e.ctx.portfolio.positions[j]).1.net_qty.units != 0 ==> can_be_closed(
                e.ctx.books,
                e.ctx.portfolio.positions[j].0,
                e.ctx.portfolio.positions[j].1.net_qty,
            ),
        0 <= i < e.ctx.portfolio.positions.len(),
    ensures
        held(
            e.all_flattened(
                open_positions(e.ctx.portfolio.positions),
            ).ctx.portfolio.positions,
            e.ctx.portfolio.positions[i].0,
        ).net_qty.units == 0,
{
    let positions = e.ctx.portfolio.positions;
    lemma_listed_can_be_closed(e);
    lemma_flattening(e, open_positions(positions), positions[i].0);
    lemma_entry_found(positions, positions[i].0, i);
    if positions[i].1.net_qty.units != 0 {
        lemma_open_is_listed(positions, i);
    }
    assert(held(positions, positions[i].0) == positions[i].1);
}

proof fn lemma_flattening(e: EngineView<Fixed>, open: Seq<(Seq<char>, Fixed)>, name: Seq<char>)
    requires
        !e.latency.enabled,
        lists_positions(open, e.ctx.portfolio.positions),
        forall|i: int|
            0 <= i < open.len() ==> can_be_closed(
                e.ctx.books,
                (#[trigger] open[i]).0,
                open[i].1,
            ),
    ensures
        ({
            let r = e.all_flattened(open);
            let listed = exists|i: int| 0 <= i < open.len() && (#[trigger] open[i]).0 == name;
            &&& r.ctx.books == e.ctx.books
            &&& r.latency == e.latency
            &&& listed ==> held(r.ctx.portfolio.positions, name).net_qty.units == 0
            &&& !listed ==> held(r.ctx.portfolio.positions, name) == held(
                e.ctx.portfolio.positions,
                name,
            )
        }),
    decreases open.len(),
{
    if open.len() > 0 {
        let rest = open.drop_last();
        let (instrument, net) = open.last();
        let n = open.len() - 1;
        assert(open[n] == open.last());
        assert forall|i: int| 0 <= i < rest.len() implies (#[trigger] rest[i]) == open[i] by {}
        assert forall|i: int| 0 <= i < rest.len() implies (#[trigger] rest[i]).0 != instrument by {
            assert(open[i].0 != open[n].0);
        }
        lemma_flattening(e, rest, instrument);
        lemma_flattening(e, rest, name);
        let before = e.all_flattened(rest);
        let side = if net.units > 0 {
            Side::Ask
        } else {
            Side::Bid
        };
        assert(Fixed::integer(0).units == 0);
        assert(closing_side(net) == side);
        assert(net.magnitude().units == size(net.units as int));
        let b = before.sent();
        let other = if name != instrument {
            name
        } else {
            instrument.push('x')
        };
        if name == instrument {
            assert(other.len() != instrument.len());
        }
        lemma_closing_order(
            b,
            before.next_order_id,
            instrument,
            net,
            side,
            net.magnitude(),
            before.ctx.cur_ts,
            other,
        );
        if name != instrument {
            if exists|i: int| 0 <= i < open.len() && (#[trigger] open[i]).0 == name {
                let i = choose|i: int| 0 <= i < open.len() && (#[trigger] open[i]).0 == name;
                assert(rest[i].0 == name);
            }
            if exists|i: int| 0 <= i < rest.len() && (#[trigger] rest[i]).0 == name {
                let i = choose|i: int| 0 <= i < rest.len() && (#[trigger] rest[i]).0 == name;
                assert(open[i].0 == name);
            }
        }
    }
}

/// A position is paid by its outcome: one dollar for each contract where it is yes, nothing where it
/// is no. A position whose outcome is not known is not paid.
pub proof fn law_payouts_follow_outcomes(
    open: Seq<(Seq<char>, Fixed)>,
    instrument: Seq<char>,
    net: Fixed,
    known: Seq<(Seq<char>, Outcome)>,
)
    ensures
        ({
            let before = known_payouts(open, known);
            let all = known_payouts(open.push((instrument, net)), known);
            match entry(known, instrument) {
                Some(Outcome::Yes) => all == before.push(
                    (instrument, Fixed { units: 1_000_000 }),
                ),
                Some(Outcome::No) => all == before.push((instrument, Fixed { units: 0 })),
                _ => all == before,
            }
        }),
        known_payouts(Seq::<(Seq<char>, Fixed)>::empty(), known).len() == 0,
{
    assert(open.push((instrument, net)).drop_last() =~= open);
    assert(open.push((instrument, net)).last() == (instrument, net));
}

/// Each position with a payout is settled, after those before it: cash moves by the payout of its
/// contracts, what is gained over their cost is added to what settling has gained, and it is counted.
pub proof fn law_positions_are_settled_in_turn(
    e: EngineView<Fixed>,
    payouts: Seq<(Seq<char>, Fixed)>,
    instrument: Seq<char>,
    payout: Fixed,
    ts_ns: i64,
    h: int,
    other: Seq<char>,
)
    requires
        payout.units == 0 || payout.units == 1_000_000,
        ({
            let p = e.all_settled(payouts, ts_ns).ctx.portfolio;
            let at = held(p.positions, instrument);
            &&& at.net_qty.units == h * 1_000_000
            &&& h != 0
            &&& -1_000_000_000 <= h <= 1_000_000_000
            &&& 0 <= at.avg_cost.units <= 1_000_000
            &&& modest(p.cash)
            &&& modest(p.settled_pnl)
            &&& p.total_fees.finite()
            &&& p.num_settled < i64::MAX
        }),
        other != instrument,
    ensures
        ({
            let p = e.all_settled(payouts, ts_ns).ctx.portfolio;
            let q = e.all_settled(payouts.push((instrument, payout)), ts_ns).ctx.portfolio;
            let cost = held(p.positions, instrument).avg_cost.units;
            &&& q.cash.units == p.cash.units + h * payout.units
            &&& q.settled_pnl.units == p.settled_pnl.units + h * (payout.units - cost)
            &&& q.num_settled == p.num_settled + 1
            &&& q.fills.len() == p.fills.len() + 1
            &&& q.fills.last().ts_ns == ts_ns
            &&& q.fills.last().instrument == instrument
            &&& q.total_fees == p.total_fees
            &&& held(q.positions, other) == held(p.positions, other)
        }),
        e.all_settled(Seq::empty(), ts_ns) == e,
{
    let all = payouts.push((instrument, payout));
    assert(all.drop_last() =~= payouts);
    assert(all.last() == (instrument, payout));
    let p = e.all_settled(payouts, ts_ns).ctx.portfolio;
    let at = held(p.positions, instrument);
    lemma_speck_is_zero();
    assert(Fixed::integer(0).units == 0 && Fixed::integer(1).units == 1_000_000);
    assert(payout == Fixed::integer(0) || payout == Fixed::integer(1));
    assert(p.to_settle(instrument));
    law_settlement_pays_exactly(p, instrument, payout, ts_ns, other);
    let each = payout.difference(at.avg_cost);
    assert(each.units == payout.units - at.avg_cost.units);
    let y = each.units as int;
    assert(-1_000_000_000_000_000 <= h * y <= 1_000_000_000_000_000) by (nonlinear_arith)
        requires
            -1_000_000_000 <= h <= 1_000_000_000,
            -1_000_000 <= y <= 1_000_000,
    ;
    law_whole_products_are_exact(at.net_qty, each, h);
}

/// The positions that are open when the run ends are settled, at its time, where outcomes are known.
pub proof fn law_known_outcomes_settle<N: Analytic>(e: EngineView<N>)
    ensures
        ({
            let at = if e.ctx.cur_ts < 1 {
                1
            } else {
                e.ctx.cur_ts
            };
            let due = known_payouts(open_positions(e.ctx.portfolio.positions), e.settlement);
            &&& e.settlement.len() > 0 ==> e.settled() == e.all_settled(due, at)
            &&& e.settlement.len() == 0 ==> e.settled() == e
        }),
{
}

/// At the end the account says what rewards were earned. Where they are credited, cash grows by what
/// they have grown since the account was last told.
pub proof fn law_rewards_are_credited(e: EngineView<Fixed>)
    requires
        modest(e.ctx.portfolio.cash),
        modest(e.ctx.portfolio.liquidity_rewards),
        modest(e.rewards.accrued),
    ensures
        ({
            let was = e.ctx.portfolio;
            let is = e.rewarded().ctx.portfolio;
            &&& e.rewards.enabled ==> is.liquidity_rewards == e.rewards.accrued
            &&& e.rewards.enabled && e.include_rewards ==> is.cash.units == was.cash.units
                + e.rewards.accrued.units - was.liquidity_rewards.units
            &&& e.rewards.enabled && !e.include_rewards ==> is.cash == was.cash
            &&& !e.rewards.enabled ==> is == was
            &&& is.positions == was.positions
        }),
{
}

/// When the run has ended nothing is on its way any more, the account shows what it was refused, and
/// the equity curve ends with what the account is worth at the end.
pub proof fn law_ends_are_settled<N: Analytic>(e: EngineView<N>, flatten: bool)
    ensures
        ({
            let r = e.finished(flatten);
            let p = r.ctx.portfolio;
            &&& r.ctx.pending.len() == 0
            &&& r.pending_cancels.len() == 0
            &&& r.pending_limit.len() == 0
            &&& r.pending_market.len() == 0
            &&& p.equity_curve.len() > 0
            &&& p.equity_curve.last().total == p.net_worth(r.ctx.books)
            &&& p.equity_curve.last().ts_ns == if r.ctx.cur_ts < 1 {
                1
            } else {
                r.ctx.cur_ts
            }
            &&& p.risk_rejections == r.risk_rejections
            &&& r.rewards.enabled ==> p.liquidity_rewards == r.rewards.accrued
        }),
{
    let s = e.with_ctx(CtxView { pending: Seq::empty(), ..e.ctx });
    lemma_asking_pends_nothing(s, e.ctx.pending);
    let d = e.drained();
    let c = d.all_cancels_done();
    lemma_limits_keep(EngineView { pending_limit: Seq::empty(), ..c }, c.pending_limit);
    let l = c.all_limits_done();
    lemma_taking_keeps(EngineView { pending_market: Seq::empty(), ..l }, l.pending_market);
    let m = l.all_markets_done();
    let w = m.rewards_seen();
    let t = w.settled();
    lemma_settling_keeps(
        w,
        known_payouts(open_positions(w.ctx.portfolio.positions), w.settlement),
        w.end_time(),
    );
    let open = open_positions(t.ctx.portfolio.positions);
    lemma_flattening_keeps(t, open);
    let f = t.all_flattened(open);
    lemma_taking_keeps(EngineView { pending_market: Seq::empty(), ..f }, f.pending_market);
}

proof fn lemma_asking_pends_nothing<N: Analytic>(e: EngineView<N>, actions: Seq<ActionView<N>>)
    ensures
        e.all_applied(actions).ctx.pending == e.ctx.pending,
    decreases actions.len(),
{
    if actions.len() > 0 {
        lemma_asking_pends_nothing(e, actions.drop_last());
    }
}

proof fn lemma_settling_keeps<N: Analytic>(
    e: EngineView<N>,
    payouts: Seq<(Seq<char>, N)>,
    ts_ns: i64,
)
    ensures
        ({
            let r = e.all_settled(payouts, ts_ns);
            r == e.with_portfolio(r.ctx.portfolio)
        }),
    decreases payouts.len(),
{
    if payouts.len() > 0 {
        lemma_settling_keeps(e, payouts.drop_last(), ts_ns);
    }
}

proof fn lemma_flattening_keeps<N: Analytic>(e: EngineView<N>, open: Seq<(Seq<char>, N)>)
    ensures
        ({
            let r = e.all_flattened(open);
            &&& r.ctx.pending == e.ctx.pending
            &&& r.pending_cancels == e.pending_cancels
            &&& r.pending_limit == e.pending_limit
            &&& r.ctx.resting == e.ctx.resting
            &&& r.ctx.books == e.ctx.books
            &&& r.ctx.cur_ts == e.ctx.cur_ts
        }),
    decreases open.len(),
{
    if open.len() > 0 {
        lemma_flattening_keeps(e, open.drop_last());
    }
}

/// Where no outcome is known and no rewards are modelled, the end changes no position beyond what the
/// orders on their way do, unless positions are to be closed: those that are open then are, and no
/// others.
pub proof fn law_ends_flatten_only_when_asked(e: EngineView<Fixed>)
    requires
        ({
            let due = e.drained().all_cancels_done().all_limits_done().all_markets_done();
            due.settlement.len() == 0 && !due.rewards.enabled
        }),
    ensures
        ({
            let due = e.drained().all_cancels_done().all_limits_done().all_markets_done();
            let open = open_positions(due.ctx.portfolio.positions);
            let flat = due.all_flattened(open).all_markets_done();
            &&& e.finished(false).ctx.portfolio.positions == due.ctx.portfolio.positions
            &&& e.finished(false).ctx.portfolio.cash == due.ctx.portfolio.cash
            &&& e.finished(true).ctx.portfolio.positions == flat.ctx.portfolio.positions
        }),
{
}

/// Each open position is closed at the end by one order more: a sale of what is held, or a purchase of
/// what is owed.
pub proof fn law_each_position_is_flattened(
    e: EngineView<Fixed>,
    open: Seq<(Seq<char>, Fixed)>,
    instrument: Seq<char>,
    net: Fixed,
)
    requires
        net.units > i64::MIN,
    ensures
        e.all_flattened(open.push((instrument, net))) == e.all_flattened(open).market_sent(
            instrument,
            if net.units > 0 {
                Side::Ask
            } else {
                Side::Bid
            },
            Fixed { units: size(net.units as int) as i64 },
        ),
        e.all_flattened(Seq::empty()) == e,
{
    assert(open.push((instrument, net)).drop_last() =~= open);
    assert(open.push((instrument, net)).last() == (instrument, net));
    assert(Fixed::integer(0).units == 0);
}

// ---- quotes ------------------------------------------------------------------------------------

/// The quotes of an instrument are its resting orders, in their order: the side, the price and what is
/// left of each.
pub proof fn law_quotes_are_the_resting_orders<N>(
    resting: Seq<RestingView<N>>,
    o: RestingView<N>,
    instrument: Seq<char>,
)
    ensures
        o.instrument == instrument ==> quotes_in(resting.push(o), instrument) == quotes_in(
            resting,
            instrument,
        ).push((o.side, o.price.0, o.remaining)),
        o.instrument != instrument ==> quotes_in(resting.push(o), instrument) == quotes_in(
            resting,
            instrument,
        ),
        quotes_in(Seq::<RestingView<N>>::empty(), instrument).len() == 0,
{
    assert(resting.push(o).drop_last() =~= resting);
}

/// The quotes of an instrument, as the rewards look at them.
pub open spec fn quoted(
    books: Seq<(Seq<char>, BookView<Fixed>)>,
    resting: Seq<RestingView<Fixed>>,
    band: i32,
    i: int,
) -> QuoteState<Fixed> {
    quotes_of(
        quotes_in(resting, books[i].0),
        match books[i].1.middle() {
            Some(m) => Some(m.product(Fixed::integer(100))),
            None => None,
        },
        band,
    )
}

/// The rewards look at one instrument: no instrument with resting orders has more near its middle
/// than the one that they look at.
pub proof fn law_rewards_look_at_the_most(
    books: Seq<(Seq<char>, BookView<Fixed>)>,
    resting: Seq<RestingView<Fixed>>,
    band: i32,
    i: int,
    mid: Fixed,
)
    requires
        0 <= i < books.len(),
        books[i].1.middle() == Some(mid),
        quotes_in(resting, books[i].0).len() > 0,
    ensures
        ({
            let best = strongest(books, resting, band);
            let q = quotes_of(
                quotes_in(resting, books[i].0),
                Some(mid.product(Fixed::integer(100))),
                band,
            );
            q.bid_size_in_band.sum(q.ask_size_in_band).units <= best.bid_size_in_band.sum(
                best.ask_size_in_band,
            ).units
        }),
        ({
            let best = strongest(books, resting, band);
            best == QuoteState::<Fixed>::none() || exists|j: int|
                0 <= j < books.len() && best == #[trigger] quoted(books, resting, band, j)
        }),
    decreases books.len(),
{
    let n = books.len() - 1;
    let rest = books.drop_last();
    lemma_strongest_is_one(books, resting, band);
    if i < n {
        assert(rest[i] == books[i]);
        law_rewards_look_at_the_most(rest, resting, band, i, mid);
    } else {
        assert(books.last() == books[i]);
    }
}

proof fn lemma_strongest_is_one(
    books: Seq<(Seq<char>, BookView<Fixed>)>,
    resting: Seq<RestingView<Fixed>>,
    band: i32,
)
    ensures
        ({
            let best = strongest(books, resting, band);
            best == QuoteState::<Fixed>::none() || exists|j: int|
                0 <= j < books.len() && best == #[trigger] quoted(books, resting, band, j)
        }),
    decreases books.len(),
{
    if books.len() > 0 {
        let rest = books.drop_last();
        let n = books.len() - 1;
        lemma_strongest_is_one(rest, resting, band);
        assert(books.last() == books[n]);
        let best = strongest(books, resting, band);
        let was = strongest(rest, resting, band);
        if best == was {
            if best != QuoteState::<Fixed>::none() {
                let j = choose|j: int|
                    0 <= j < rest.len() && was == #[trigger] quoted(rest, resting, band, j);
                assert(rest[j] == books[j]);
                assert(quoted(books, resting, band, j) == best);
            }
        } else {
            assert(best == quoted(books, resting, band, n));
        }
    }
}

// ---- the beginning -----------------------------------------------------------------------------

/// A new engine is what its settings say: an account with the starting balance and nothing else,
/// fees, delays, slippage, rewards and limits as they are set, and nothing on its way.
pub proof fn law_new_engines_follow_their_settings<N: Analytic>(
    cfg: BacktestConfig<N>,
    files: FilesView,
    e: EngineView<N>,
)
    requires
        opened(cfg, files, e),
    ensures
        e.ctx.portfolio.cash == cfg.starting_balance,
        e.equity_peak == cfg.starting_balance,
        e.ctx.portfolio.currency == cfg.currency@,
        e.ctx.portfolio.include_fees == cfg.execution.include_fees,
        cfg.equity_snapshot_secs >= 0 ==> e.ctx.portfolio.snapshot_secs == cfg.equity_snapshot_secs,
        e.ctx.portfolio.positions.len() == 0,
        e.ctx.portfolio.fills.len() == 0,
        e.ctx.portfolio.equity_curve.len() == 0,
        e.ctx.portfolio.total_orders == 0,
        e.ctx.portfolio.total_fees == N::integer(0),
        e.ctx.books.len() == 0,
        e.ctx.resting.len() == 0,
        e.pending_limit.len() == 0,
        e.pending_market.len() == 0,
        e.pending_cancels.len() == 0,
        e.fees.use_formula == cfg.fee_bps_formula,
        e.fees.maker_fee_per_contract == cfg.maker_fee,
        e.fees.taker_fee_rate == cfg.taker_fee_rate,
        e.latency.enabled == cfg.execution.latency.enabled,
        ({
            let set = cfg.execution.latency;
            &&& set.enabled && set.order_latency_ns >= 0 ==> e.latency.order_latency_ns
                == set.order_latency_ns
            &&& set.enabled && set.cancel_latency_ns >= 0 ==> e.latency.cancel_latency_ns
                == set.cancel_latency_ns
            &&& set.enabled && set.market_data_latency_ns >= 0
                ==> e.latency.market_data_latency_ns == set.market_data_latency_ns
            &&& set.enabled && set.jitter_ns >= 0 ==> e.latency.jitter_ns == set.jitter_ns
            &&& set.enabled && set.dist !is Empirical ==> e.latency.dist == set.dist
            &&& set.enabled && set.dist is Empirical && files.samples.len() > 0
                ==> e.latency.empirical == files.samples && e.latency.dist == set.dist
            &&& e.latency.rng.state == set.seed
        }),
        e.slippage.enabled == cfg.execution.slippage.enabled,
        e.slippage.taker_ticks == cfg.execution.slippage.taker_ticks,
        e.slippage.taker_bps == cfg.execution.slippage.taker_bps,
        e.slippage.maker_adverse_selection_bps
            == cfg.execution.slippage.maker_adverse_selection_bps,
        e.rewards.enabled == cfg.execution.rewards.enabled,
        e.rewards.both_sides_required == cfg.execution.rewards.both_sides_required,
        1 <= cfg.execution.rewards.period_secs <= 9_000_000_000 ==> e.rewards.period_ns
            == cfg.execution.rewards.period_secs * 1_000_000_000,
        e.rewards.accrued == N::integer(0),
        e.include_rewards == cfg.execution.include_rewards,
        e.reward_band_cents == cfg.execution.rewards.max_spread_cents,
        e.queue_model == cfg.execution.queue.model,
        e.risk == cfg.execution.risk,
        e.settlement == files.outcomes,
        !e.halted,
        e.next_order_id == 1,
{
}

// ---- steps -------------------------------------------------------------------------------------

/// What a strategy asks for is carried out in the order in which it was asked for, and nothing of it
/// is left to do.
pub proof fn law_actions_are_carried_out_in_turn<N: Analytic>(
    e: EngineView<N>,
    actions: Seq<ActionView<N>>,
    a: ActionView<N>,
)
    ensures
        e.all_applied(actions.push(a)) == e.all_applied(actions).applied(a),
        e.all_applied(Seq::empty()) == e,
        e.drained().ctx.pending.len() == 0,
        e.drained() == (EngineView {
            ctx: CtxView { pending: Seq::empty(), ..e.ctx },
            ..e
        }).all_applied(e.ctx.pending),
{
    assert(actions.push(a).drop_last() =~= actions);
    lemma_asking_pends_nothing(
        e.with_ctx(CtxView { pending: Seq::empty(), ..e.ctx }),
        e.ctx.pending,
    );
}

/// An order that the limits let through is sent, for the contracts that they leave and otherwise as it
/// was asked for; one that they drop is counted, and changes nothing else.
pub proof fn law_orders_are_sent_as_asked<N: Analytic>(
    e: EngineView<N>,
    instrument: Seq<char>,
    side: Side,
    price: Cents,
    qty: N,
    tif: Tif,
    post_only: bool,
)
    requires
        e.risk_rejections < i64::MAX,
    ensures
        ({
            let limit = e.applied(
                ActionView::PlaceLimit { instrument, side, price, qty, tif, post_only },
            );
            let market = e.applied(ActionView::PlaceMarket { instrument, side, qty });
            let dropped = EngineView {
                risk_rejections: (e.risk_rejections + 1) as i64,
                ..e
            };
            match e.allowed(instrument, side, qty) {
                Some(q) => limit == e.limit_sent(instrument, side, price, q, tif, post_only)
                    && market == e.market_sent(instrument, side, q),
                None => limit == dropped && market == dropped,
            }
        }),
{
}

/// The limits on equity are looked at when an event has been dealt with: a floor that is reached then
/// halts the run.
pub proof fn law_events_end_with_a_look_at_the_equity(e: EngineView<Fixed>, floor: Fixed)
    requires
        ({
            let d = e.drained();
            &&& !d.halted
            &&& d.risk.equity_floor == Some(floor)
            &&& d.ctx.portfolio.net_worth(d.ctx.books).units <= floor.units
        }),
    ensures
        e.ended().halted,
        e.ended().ctx.resting.len() == 0,
{
    let d = e.drained();
    let worth = d.ctx.portfolio.net_worth(d.ctx.books);
    let s = EngineView {
        equity_peak: if d.equity_peak.below(worth) {
            worth
        } else {
            d.equity_peak
        },
        ..d
    };
    law_halting_clears(s, s.breach(worth)->0);
}

/// The rewards look at the quotes when an event has changed the book or the orders, at its time, and
/// once more when the run ends.
pub proof fn law_rewards_look_at_each_event<N: Analytic>(e: EngineView<N>, ev: EventView<N>)
    requires
        e.rewards.enabled,
    ensures
        ({
            let r = e.begun(ev);
            r.rewards == e.rewards.observed(
                r.ctx.cur_ts,
                strongest(r.ctx.books, r.ctx.resting, e.reward_band_cents),
            )
        }),
        ({
            let due = e.drained().all_cancels_done().all_limits_done().all_markets_done();
            due.rewards.enabled ==> e.finished(false).rewards == due.rewards.observed(
                due.ctx.cur_ts,
                strongest(due.ctx.books, due.ctx.resting, due.reward_band_cents),
            )
        }),
{
    let at = match ev {
        EventView::Delta(d) => d.ts_ns,
        EventView::Trade(t) => t.ts_ns,
    };
    let now = e.with_ctx(CtxView { cur_ts: at, ..e.ctx }).cancels_done();
    lemma_limits_keep(
        EngineView { pending_limit: limits_split(now.pending_limit, at, false), ..now },
        limits_split(now.pending_limit, at, true),
    );
    let after = now.limits_done();
    lemma_taking_keeps(
        EngineView { pending_market: markets_split(after.pending_market, at, false), ..after },
        markets_split(after.pending_market, at, true),
    );
    let due = e.drained().all_cancels_done().all_limits_done().all_markets_done();
    let w = due.rewards_seen();
    lemma_settling_keeps(
        w,
        known_payouts(open_positions(w.ctx.portfolio.positions), w.settlement),
        w.end_time(),
    );
}

/// The curve of an event follows the book: a delta leaves the ladder with the middle of the book that
/// it leaves.
pub proof fn law_ladders_follow_the_book<N: Analytic>(e: EngineView<N>, d: DeltaView<N>)
    ensures
        ({
            let r = e.delta_applied(d);
            let mid = match entry(r.ctx.books, d.instrument) {
                Some(b) => b.middle(),
                None => None,
            };
            &&& r.ctx.curves == ladders_with_mid(e.ctx.curves, d.instrument, mid)
            &&& r.ctx.books == books_after(e.ctx.books, d)
        }),
{
}

/// Each position is closed, when a run is halted, by one order more of its own number: a sale of what
/// is held, or a purchase of what is owed, at any price and at once.
pub proof fn law_each_position_is_closed(
    e: EngineView<Fixed>,
    open: Seq<(Seq<char>, Fixed)>,
    instrument: Seq<char>,
    net: Fixed,
    book: BookView<Fixed>,
)
    requires
        net.units > i64::MIN,
        entry(e.ctx.books, instrument) == Some(book),
        e.all_closed(open).next_order_id < u64::MAX,
        e.all_closed(open).ctx.portfolio.total_orders < i64::MAX,
    ensures
        ({
            let before = e.all_closed(open);
            let after = e.all_closed(open.push((instrument, net)));
            let fills = taker_fills(
                before.next_order_id,
                instrument,
                if net.units > 0 {
                    Side::Ask
                } else {
                    Side::Bid
                },
                Fixed { units: size(net.units as int) as i64 },
                None,
                book,
                e.fees,
                e.ctx.cur_ts,
            );
            &&& after.next_order_id == before.next_order_id + 1
            &&& after.ctx.portfolio.total_orders == before.ctx.portfolio.total_orders + 1
            &&& after.ctx.portfolio.fills == before.ctx.portfolio.fills + fills
        }),
        e.all_closed(Seq::empty()) == e,
{
    let all = open.push((instrument, net));
    assert(all.drop_last() =~= open);
    assert(all.last() == (instrument, net));
    assert(Fixed::integer(0).units == 0);
    lemma_closing_keeps(e, open);
    let before = e.all_closed(open);
    let fills = taker_fills(
        before.next_order_id,
        instrument,
        closing_side(net),
        net.magnitude(),
        None,
        book,
        e.fees,
        e.ctx.cur_ts,
    );
    lemma_fills_are_added(before.numbered().ctx.portfolio, fills, e.slippage, Liquidity::Taker);
}

/// A delay is drawn anew for each order that is sent: the next one is drawn from where the generator
/// stands afterwards.
pub proof fn law_each_order_draws_its_delay<N: Analytic>(
    e: EngineView<N>,
    instrument: Seq<char>,
    side: Side,
    qty: N,
)
    requires
        !qty.at_most(N::integer(0)),
        e.latency.enabled,
    ensures
        e.market_sent(instrument, side, qty).latency == e.latency.drawn(),
        e.limit_sent(instrument, side, Cents(1), qty, Tif::Gtc, true).latency == e.latency.drawn(),
{
}

proof fn lemma_cancels_left(cancels: Seq<PendingCancel>, now: i64)
    ensures
        cancels_after(cancels, now) == cancels.filter(|c: PendingCancel| c.effective_ts > now),
    decreases cancels.len(),
{
    reveal(Seq::filter);
    if cancels.len() > 0 {
        lemma_cancels_left(cancels.drop_last(), now);
    } else {
        assert(cancels =~= Seq::empty());
    }
}

/// When an event has come, all that was due by its time has been done, and only what is due later is
/// still on its way: cancels first, limit orders next, orders that take last, each in the book as it
/// stood before the event.
pub proof fn law_what_is_due_is_done<N: Analytic>(e: EngineView<N>, ev: EventView<N>)
    ensures
        ({
            let at = match ev {
                EventView::Delta(d) => d.ts_ns,
                EventView::Trade(t) => t.ts_ns,
            };
            let r = e.begun(ev);
            &&& r.ctx.cur_ts == at
            &&& r.pending_cancels == e.pending_cancels.filter(
                |c: PendingCancel| c.effective_ts > at,
            )
            &&& r.pending_limit == e.pending_limit.filter(|l: LimitView<N>| l.activation_ts > at)
            &&& r.pending_market == e.pending_market.filter(
                |o: MarketView<N>| o.activation_ts > at,
            )
            &&& ev is Delta ==> r.ctx.portfolio == (EngineView {
                ctx: CtxView { cur_ts: at, ..e.ctx },
                ..e
            }).cancels_done().limits_done().markets_done().ctx.portfolio
        }),
{
    let at = match ev {
        EventView::Delta(d) => d.ts_ns,
        EventView::Trade(t) => t.ts_ns,
    };
    lemma_cancels_left(e.pending_cancels, at);
    lemma_limits_split(e.pending_limit, at);
    lemma_markets_split(e.pending_market, at);
    let now = e.with_ctx(CtxView { cur_ts: at, ..e.ctx }).cancels_done();
    lemma_limits_keep(
        EngineView { pending_limit: limits_split(now.pending_limit, at, false), ..now },
        limits_split(now.pending_limit, at, true),
    );
    let after = now.limits_done();
    lemma_taking_keeps(
        EngineView { pending_market: markets_split(after.pending_market, at, false), ..after },
        markets_split(after.pending_market, at, true),
    );
}

/// When a run ends, the orders on their way arrive first, all of them; the positions whose outcome is
/// known are settled next; and what is open after that is closed, where it is asked for.
pub proof fn law_ends_settle_and_close<N: Analytic>(e: EngineView<N>)
    ensures
        ({
            let due = e.drained().all_cancels_done().all_limits_done().all_markets_done();
            let settled = due.rewards_seen().settled();
            let open = open_positions(settled.ctx.portfolio.positions);
            let flat = settled.all_flattened(open).all_markets_done();
            &&& e.finished(false).ctx.portfolio.positions == settled.ctx.portfolio.positions
            &&& e.finished(false).ctx.portfolio.fills == settled.ctx.portfolio.fills
            &&& e.finished(false).ctx.portfolio.settled_pnl == settled.ctx.portfolio.settled_pnl
            &&& e.finished(true).ctx.portfolio.positions == flat.ctx.portfolio.positions
            &&& e.finished(true).ctx.portfolio.fills == flat.ctx.portfolio.fills
        }),
        e.all_limits_done() == (EngineView { pending_limit: Seq::empty(), ..e }).all_resolved(
            e.pending_limit,
        ),
        e.all_markets_done() == (EngineView { pending_market: Seq::empty(), ..e }).all_taken(
            e.pending_market,
        ),
{
}

} // verus!
