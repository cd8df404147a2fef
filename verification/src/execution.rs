//! Matching: how resting orders and orders that take come to be filled.
//!
//! A resting order waits for what rests ahead of it at its price, and is filled only by a trade
//! whose taker came from the other side and reached its price. An order that takes walks the other
//! side of the book, from the best price on.
use crate::fees::{
    law_makers_pay_for_each_contract, law_takers_always_pay, law_takers_pay_the_exchange_fee,
    law_takers_pay_the_rate, FeeModel,
};
use crate::fixed::{Fixed, LARGEST};
use crate::number::Number;
use crate::orderbook::{level_price, size_of, BookView, OrderBook};
use crate::text::same_text;
use crate::types::{
    fill_views, law_cents_are_hundredths, Cents, Fill, FillView, Liquidity, Side, TradeEvent, TradeView,
};
use vstd::prelude::*;

verus! {

/// A resting order of the strategy.
#[derive(Debug, Clone, PartialEq)]
pub struct RestingOrder<N> {
    pub id: u64,
    pub instrument: String,
    pub side: Side,
    pub price: Cents,
    pub remaining: N,
    /// What has to trade at its price before it is its turn.
    pub queue_ahead: N,
    /// When it can match at the earliest.
    pub activation_ts: i64,
}

/// What a resting order says.
#[verifier::ext_equal]
pub struct RestingView<N> {
    pub id: u64,
    pub instrument: Seq<char>,
    pub side: Side,
    pub price: Cents,
    pub remaining: N,
    pub queue_ahead: N,
    pub activation_ts: i64,
}

impl<N> View for RestingOrder<N> {
    type V = RestingView<N>;

    open spec fn view(&self) -> RestingView<N> {
        RestingView {
            id: self.id,
            instrument: self.instrument@,
            side: self.side,
            price: self.price,
            remaining: self.remaining,
            queue_ahead: self.queue_ahead,
            activation_ts: self.activation_ts,
        }
    }
}

/// What each of some resting orders says.
pub open spec fn resting_views<N>(orders: Seq<RestingOrder<N>>) -> Seq<RestingView<N>> {
    orders.map_values(|o: RestingOrder<N>| o@)
}

impl<N: Number> RestingOrder<N> {
    /// The same order once more.
    pub fn copy(&self) -> (r: RestingOrder<N>)
        ensures
            r@ == self@,
    {
        RestingOrder {
            id: self.id,
            instrument: self.instrument.clone(),
            side: self.side,
            price: self.price,
            remaining: self.remaining,
            queue_ahead: self.queue_ahead,
            activation_ts: self.activation_ts,
        }
    }

    /// What rests at a price on the side of an order that is about to join it.
    pub fn queue_at_placement(book: &OrderBook<N>, side: Side, price: Cents) -> (r: N)
        ensures
            r == size_of(book@.levels(side), price),
    {
        book.size_at(side, price)
    }
}

/// Whether a trade reaches an order: its taker came from the other side, at the order's price or
/// through it.
pub open spec fn reached<N>(side: Side, price: Cents, t: TradeView<N>) -> bool {
    match side {
        Side::Bid => !t.aggressor_yes && t.price.0 <= price.0,
        Side::Ask => t.aggressor_yes && t.price.0 >= price.0,
    }
}

/// What is left of a trade, and of the queue ahead, once the queue has had its share.
pub open spec fn after_queue<N: Number>(queue: N, size: N) -> (N, N) {
    if N::integer(0).below(queue) {
        let consumed = queue.lesser(size);
        (queue.difference(consumed), size.difference(consumed))
    } else {
        (queue, size)
    }
}

/// What a trade makes of a resting order: the order as it stands then, and how much of it was
/// filled.
pub open spec fn met<N: Number>(o: RestingView<N>, t: TradeView<N>) -> (RestingView<N>, Option<N>) {
    if o.remaining.at_most(N::integer(0)) || t.instrument != o.instrument || !reached(
        o.side,
        o.price,
        t,
    ) {
        (o, None)
    } else {
        let (queue, avail) = after_queue(o.queue_ahead, t.size);
        let waiting = RestingView { queue_ahead: queue, ..o };
        let qty = o.remaining.lesser(avail);
        if avail.at_most(N::integer(0)) || qty.at_most(N::integer(0)) {
            (waiting, None)
        } else {
            (RestingView { remaining: o.remaining.difference(qty), ..waiting }, Some(qty))
        }
    }
}

/// The fill of a resting order by a trade.
pub open spec fn maker_fill<N: Number>(
    o: RestingView<N>,
    t: TradeView<N>,
    qty: N,
    fees: FeeModel<N>,
) -> FillView<N> {
    FillView {
        ts_ns: t.ts_ns,
        order_id: o.id,
        instrument: o.instrument,
        side: o.side,
        price: o.price,
        qty,
        liquidity: Liquidity::Maker,
        fee: fees.maker(qty),
    }
}

/// Fills a resting order by a trade, as far as the trade goes.
pub fn match_resting_against_trade<N: Number>(
    order: &mut RestingOrder<N>,
    trade: &TradeEvent<N>,
    fees: &FeeModel<N>,
) -> (r: Option<Fill<N>>)
    ensures
        final(order)@ == met(old(order)@, trade@).0,
        match r {
            Some(f) => met(old(order)@, trade@).1 matches Some(qty) && f@ == maker_fill(
                old(order)@,
                trade@,
                qty,
                *fees,
            ),
            None => met(old(order)@, trade@).1 is None,
        },
{
    let zero = N::from_int(0);
    if order.remaining.is_at_most(zero) || !same_text(
        trade.instrument.as_str(),
        order.instrument.as_str(),
    ) {
        return None;
    }
    let fills: bool = match order.side {
        Side::Bid => !trade.aggressor_yes && trade.price.0 <= order.price.0,
        Side::Ask => trade.aggressor_yes && trade.price.0 >= order.price.0,
    };
    if !fills {
        return None;
    }
    let mut avail = trade.size;
    if zero.is_below(order.queue_ahead) {
        let consumed = order.queue_ahead.min(avail);
        order.queue_ahead = order.queue_ahead.minus(consumed);
        avail = avail.minus(consumed);
    }
    if avail.is_at_most(zero) {
        return None;
    }
    let qty = order.remaining.min(avail);
    if qty.is_at_most(zero) {
        return None;
    }
    order.remaining = order.remaining.minus(qty);
    let fee = fees.maker_fee(order.price.to_dollars::<N>(), qty);
    Some(
        Fill {
            ts_ns: trade.ts_ns,
            order_id: order.id,
            instrument: order.instrument.clone(),
            side: order.side,
            price: order.price,
            qty,
            liquidity: Liquidity::Maker,
            fee,
        },
    )
}

/// A trade that comes from an order's own side, or does not reach its price, leaves it alone.
pub proof fn law_aggressor_gate<N: Number>(o: RestingView<N>, t: TradeView<N>)
    ensures
        o.side == Side::Bid && t.aggressor_yes ==> met(o, t) == (o, None::<N>),
        o.side == Side::Ask && !t.aggressor_yes ==> met(o, t) == (o, None::<N>),
        o.side == Side::Bid && t.price.0 > o.price.0 ==> met(o, t) == (o, None::<N>),
        o.side == Side::Ask && t.price.0 < o.price.0 ==> met(o, t) == (o, None::<N>),
{
}

/// A trade fills a resting order for no more than is left of it and of the trade, behind what
/// rests ahead of it: with numbers of six decimals, what the queue and the order take is never more
/// than the trade, and the order keeps the rest.
pub proof fn law_makers_wait_their_turn(o: RestingView<Fixed>, t: TradeView<Fixed>)
    requires
        o.remaining.units >= 0,
        o.queue_ahead.units >= 0,
        t.size.units >= 0,
    ensures
        ({
            let (after, filled) = met(o, t);
            let qty = match filled {
                Some(q) => q.units as int,
                None => 0,
            };
            &&& 0 <= qty <= o.remaining.units
            &&& after.remaining.units == o.remaining.units - qty
            &&& 0 <= after.queue_ahead.units <= o.queue_ahead.units
            &&& (o.queue_ahead.units - after.queue_ahead.units) + qty <= t.size.units
            &&& qty > 0 ==> after.queue_ahead.units == 0
            &&& after.queue_ahead.units > 0 && reached(o.side, o.price, t) && t.instrument
                == o.instrument && o.remaining.units > 0 ==> o.queue_ahead.units
                - after.queue_ahead.units == t.size.units
        }),
{
}

/// Whether a price is worse than the worst that is accepted.
pub open spec fn beyond(side: Side, price: i64, bound: Option<Cents>) -> bool {
    match bound {
        None => false,
        Some(b) => match side {
            Side::Bid => price > b.0,
            Side::Ask => price < b.0,
        },
    }
}

/// The levels that an order that takes walks, best price first.
pub open spec fn facing<N: Number>(book: BookView<N>, side: Side) -> Seq<(i64, N)> {
    match side {
        Side::Bid => book.asks,
        Side::Ask => book.bids.reverse(),
    }
}

/// What an order takes from some levels, one after the other: it ends with the order, or with the
/// first level beyond what is accepted.
pub open spec fn taken_from<N: Number>(
    levels: Seq<(i64, N)>,
    side: Side,
    qty: N,
    bound: Option<Cents>,
) -> Seq<(i64, N)>
    decreases levels.len(),
{
    if levels.len() == 0 || qty.at_most(N::integer(0)) || beyond(side, levels[0].0, bound) {
        Seq::empty()
    } else {
        let take = qty.lesser(levels[0].1);
        if take.at_most(N::integer(0)) {
            taken_from(levels.drop_first(), side, qty, bound)
        } else {
            seq![(levels[0].0, take)] + taken_from(
                levels.drop_first(),
                side,
                qty.difference(take),
                bound,
            )
        }
    }
}

/// The fill of an order that takes, at one level.
pub open spec fn taker_fill<N: Number>(
    order_id: u64,
    instrument: Seq<char>,
    side: Side,
    taken: (i64, N),
    fees: FeeModel<N>,
    ts_ns: i64,
) -> FillView<N> {
    FillView {
        ts_ns,
        order_id,
        instrument,
        side,
        price: level_price(taken.0),
        qty: taken.1,
        liquidity: Liquidity::Taker,
        fee: fees.taker(level_price(taken.0).dollars::<N>(), taken.1),
    }
}

/// The fills of an order that takes.
pub open spec fn taker_fills<N: Number>(
    order_id: u64,
    instrument: Seq<char>,
    side: Side,
    qty: N,
    bound: Option<Cents>,
    book: BookView<N>,
    fees: FeeModel<N>,
    ts_ns: i64,
) -> Seq<FillView<N>> {
    taken_from(facing(book, side), side, qty, bound).map_values(
        |t: (i64, N)| taker_fill(order_id, instrument, side, t, fees, ts_ns),
    )
}

/// Fills an order that takes by walking the other side of a book, without a worst price.
pub fn execute_market<N: Number>(
    order_id: u64,
    instrument: &str,
    side: Side,
    qty: N,
    book: &OrderBook<N>,
    fees: &FeeModel<N>,
    ts_ns: i64,
) -> (r: Vec<Fill<N>>)
    ensures
        fill_views(r@) == taker_fills(
            order_id,
            instrument@,
            side,
            qty,
            None,
            book@,
            *fees,
            ts_ns,
        ),
{
    execute_market_bounded(order_id, instrument, side, qty, None, book, fees, ts_ns)
}

/// Fills an order that takes by walking the other side of a book, up to the worst price that it
/// accepts. The book stays as it is.
pub fn execute_market_bounded<N: Number>(
    order_id: u64,
    instrument: &str,
    side: Side,
    qty: N,
    price_bound: Option<Cents>,
    book: &OrderBook<N>,
    fees: &FeeModel<N>,
    ts_ns: i64,
) -> (r: Vec<Fill<N>>)
    ensures
        fill_views(r@) == taker_fills(
            order_id,
            instrument@,
            side,
            qty,
            price_bound,
            book@,
            *fees,
            ts_ns,
        ),
{
    let zero = N::from_int(0);
    let ghost all = facing(book@, side);
    let ghost f = |t: (i64, N)| taker_fill(order_id, instrument@, side, t, *fees, ts_ns);
    let n: usize = match side {
        Side::Bid => book.asks.len(),
        Side::Ask => book.bids.len(),
    };
    let mut fills: Vec<Fill<N>> = Vec::new();
    let mut left = qty;
    let mut i: usize = 0;
    let ghost mut done = Seq::<(i64, N)>::empty();
    proof {
        assert(all.skip(0) =~= all);
        assert(fill_views(fills@) =~= done.map_values(f));
        assert(done + taken_from(all, side, qty, price_bound) =~= taken_from(
            all,
            side,
            qty,
            price_bound,
        ));
    }
    while i < n
        invariant_except_break
            done + taken_from(all.skip(i as int), side, left, price_bound) == taken_from(
                all,
                side,
                qty,
                price_bound,
            ),
        invariant
            i <= n,
            n == all.len(),
            all == facing(book@, side),
            zero == N::integer(0),
            f == (|t: (i64, N)| taker_fill(order_id, instrument@, side, t, *fees, ts_ns)),
            fill_views(fills@) == done.map_values(f),
        ensures
            done == taken_from(all, side, qty, price_bound),
        decreases n - i,
    {
        let ghost rest = all.skip(i as int);
        let (px, avail): (i64, N) = match side {
            Side::Bid => (book.asks.key_at(i), *book.asks.value_ref(i)),
            Side::Ask => (book.bids.key_at(n - 1 - i), *book.bids.value_ref(n - 1 - i)),
        };
        proof {
            assert(rest[0] == (px, avail));
            assert(rest.drop_first() =~= all.skip(i + 1));
        }
        let past: bool = match price_bound {
            None => false,
            Some(b) => match side {
                Side::Bid => px > b.0 as i64,
                Side::Ask => px < b.0 as i64,
            },
        };
        if left.is_at_most(zero) || past {
            assert(done + Seq::<(i64, N)>::empty() =~= done);
            break;
        }
        let take = left.min(avail);
        if !take.is_at_most(zero) {
            let price = Cents(px as i32);
            let fee = fees.taker_fee(price.to_dollars::<N>(), take);
            let ghost before = fills@;
            let fill = Fill {
                ts_ns,
                order_id,
                instrument: instrument.to_owned(),
                side,
                price,
                qty: take,
                liquidity: Liquidity::Taker,
                fee,
            };
            fills.push(fill);
            proof {
                let was = done;
                let tail = taken_from(rest.drop_first(), side, left.difference(take), price_bound);
                done = done.push((px, take));
                assert(was + (seq![(px, take)] + tail) =~= done + tail);
                assert(fill_views(fills@) =~= fill_views(before).push(fill@));
                assert(done.map_values(f) =~= was.map_values(f).push(f((px, take))));
            }
            left = left.minus(take);
        }
        i += 1;
        if i == n {
            assert(all.skip(i as int).len() == 0);
            assert(done + Seq::<(i64, N)>::empty() =~= done);
        }
    }
    fills
}

/// An order that takes never pays more than it accepts, nor sells for less.
pub proof fn law_bound_is_kept<N: Number>(
    levels: Seq<(i64, N)>,
    side: Side,
    qty: N,
    bound: Option<Cents>,
    i: int,
)
    requires
        0 <= i < taken_from(levels, side, qty, bound).len(),
    ensures
        !beyond(side, taken_from(levels, side, qty, bound)[i].0, bound),
    decreases levels.len(),
{
    let take = qty.lesser(levels[0].1);
    if take.at_most(N::integer(0)) {
        law_bound_is_kept(levels.drop_first(), side, qty, bound, i);
    } else if i > 0 {
        law_bound_is_kept(levels.drop_first(), side, qty.difference(take), bound, i - 1);
    }
}

/// How many millionths of a contract an order can reach: those of the levels before the first one
/// that is beyond what it accepts.
pub open spec fn within_reach(levels: Seq<(i64, Fixed)>, side: Side, bound: Option<Cents>) -> int
    decreases levels.len(),
{
    if levels.len() == 0 || beyond(side, levels[0].0, bound) {
        0
    } else {
        within_reach(levels.drop_first(), side, bound) + if levels[0].1.units > 0 {
            levels[0].1.units as int
        } else {
            0
        }
    }
}

/// The millionths of a contract of some fills together.
pub open spec fn filled_units(fills: Seq<FillView<Fixed>>) -> int
    decreases fills.len(),
{
    if fills.len() == 0 {
        0
    } else {
        fills[0].qty.units + filled_units(fills.drop_first())
    }
}

/// The lesser of what is asked for and what is there; nothing where less than nothing is asked for.
pub open spec fn lesser_units(asked: int, there: int) -> int {
    if asked <= 0 {
        0
    } else if asked < there {
        asked
    } else {
        there
    }
}

proof fn lemma_reach_not_below_zero(levels: Seq<(i64, Fixed)>, side: Side, bound: Option<Cents>)
    ensures
        within_reach(levels, side, bound) >= 0,
    decreases levels.len(),
{
    if levels.len() > 0 {
        lemma_reach_not_below_zero(levels.drop_first(), side, bound);
    }
}

proof fn lemma_taken_sum(
    order_id: u64,
    instrument: Seq<char>,
    levels: Seq<(i64, Fixed)>,
    side: Side,
    qty: Fixed,
    bound: Option<Cents>,
    fees: FeeModel<Fixed>,
    ts_ns: i64,
)
    ensures
        filled_units(
            taken_from(levels, side, qty, bound).map_values(
                |t: (i64, Fixed)| taker_fill(order_id, instrument, side, t, fees, ts_ns),
            ),
        ) == lesser_units(qty.units as int, within_reach(levels, side, bound)),
    decreases levels.len(),
{
    let f = |t: (i64, Fixed)| taker_fill(order_id, instrument, side, t, fees, ts_ns);
    lemma_reach_not_below_zero(levels, side, bound);
    if levels.len() == 0 || qty.units <= 0 || beyond(side, levels[0].0, bound) {
        assert(taken_from(levels, side, qty, bound).map_values(f).len() == 0);
    } else {
        let rest = levels.drop_first();
        let take = qty.lesser(levels[0].1);
        lemma_reach_not_below_zero(rest, side, bound);
        if take.units <= 0 {
            lemma_taken_sum(order_id, instrument, rest, side, qty, bound, fees, ts_ns);
        } else {
            let left = qty.difference(take);
            lemma_taken_sum(order_id, instrument, rest, side, left, bound, fees, ts_ns);
            let more = taken_from(rest, side, left, bound);
            let all = seq![(levels[0].0, take)] + more;
            assert(all.map_values(f).drop_first() =~= more.map_values(f));
            assert(all.map_values(f)[0].qty == take);
        }
    }
}

/// An order that takes is filled for all that it asks for and the book has within its reach: the
/// fills together are the lesser of the two.
pub proof fn law_takers_take_all_they_can(
    order_id: u64,
    instrument: Seq<char>,
    side: Side,
    qty: Fixed,
    bound: Option<Cents>,
    book: BookView<Fixed>,
    fees: FeeModel<Fixed>,
    ts_ns: i64,
)
    ensures
        filled_units(
            taker_fills(order_id, instrument, side, qty, bound, book, fees, ts_ns),
        ) == lesser_units(qty.units as int, within_reach(facing(book, side), side, bound)),
{
    lemma_taken_sum(
        order_id,
        instrument,
        facing(book, side),
        side,
        qty,
        bound,
        fees,
        ts_ns,
    );
}

/// A price is one that an order takes at: a buyer pays no more than the worst price, and a seller
/// takes no less.
pub open spec fn accepted(side: Side, price: int, bound: Option<Cents>) -> bool {
    match (side, bound) {
        (Side::Bid, Some(b)) => price <= b.0,
        (Side::Ask, Some(b)) => price >= b.0,
        (_, None) => true,
    }
}

/// The millionths of a contract that were taken at some levels.
spec fn taken_units(taken: Seq<(i64, Fixed)>) -> int
    decreases taken.len(),
{
    if taken.len() == 0 {
        0
    } else {
        taken[0].1.units + taken_units(taken.drop_first())
    }
}

proof fn lemma_walk_in_order(
    levels: Seq<(i64, Fixed)>,
    side: Side,
    qty: Fixed,
    bound: Option<Cents>,
)
    requires
        forall|i: int| 0 <= i < levels.len() ==> (#[trigger] levels[i]).1.units > 0,
    ensures
        ({
            let t = taken_from(levels, side, qty, bound);
            &&& t.len() <= levels.len()
            &&& forall|i: int|
                0 <= i < t.len() ==> {
                    &&& (#[trigger] t[i]).0 == levels[i].0
                    &&& 0 < t[i].1.units <= levels[i].1.units
                    &&& i + 1 < t.len() ==> t[i].1 == levels[i].1
                    &&& accepted(side, t[i].0 as int, bound)
                }
            &&& taken_units(t) <= lesser_units(qty.units as int, i64::MAX as int)
            &&& taken_units(t) < qty.units ==> t.len() == levels.len() || !accepted(
                side,
                levels[t.len() as int].0 as int,
                bound,
            )
            &&& t.len() > 0 && t.last().1.units < levels[t.len() - 1].1.units ==> taken_units(t)
                == qty.units
        }),
    decreases levels.len(),
{
    if levels.len() == 0 || qty.units <= 0 || beyond(side, levels[0].0, bound) {
    } else {
        let rest = levels.drop_first();
        let take = qty.lesser(levels[0].1);
        let left = qty.difference(take);
        assert forall|i: int| 0 <= i < rest.len() implies (#[trigger] rest[i]).1.units > 0 by {
            assert(rest[i] == levels[i + 1]);
        }
        assert(levels[0].1.units > 0);
        lemma_walk_in_order(rest, side, left, bound);
        let more = taken_from(rest, side, left, bound);
        let t = seq![(levels[0].0, take)] + more;
        assert(t == taken_from(levels, side, qty, bound));
        assert(t.drop_first() =~= more);
        assert(left.units == qty.units - take.units);
        assert forall|i: int| 0 <= i < t.len() implies {
            &&& (#[trigger] t[i]).0 == levels[i].0
            &&& 0 < t[i].1.units <= levels[i].1.units
            &&& i + 1 < t.len() ==> t[i].1 == levels[i].1
            &&& accepted(side, t[i].0 as int, bound)
        } by {
            if i == 0 {
                if more.len() > 0 {
                    assert(left.units > 0);
                    assert(take.units == levels[0].1.units);
                }
            } else {
                assert(t[i] == more[i - 1]);
                assert(rest[i - 1] == levels[i]);
            }
        }
        if more.len() > 0 {
            assert(t.last() == more.last());
            assert(rest[more.len() - 1] == levels[t.len() - 1]);
        }
        if t.len() < levels.len() {
            assert(rest[more.len() as int] == levels[t.len() as int]);
        }
    }
}

proof fn lemma_units_agree(
    taken: Seq<(i64, Fixed)>,
    order_id: u64,
    instrument: Seq<char>,
    side: Side,
    fees: FeeModel<Fixed>,
    ts_ns: i64,
)
    ensures
        filled_units(
            taken.map_values(
                |t: (i64, Fixed)| taker_fill(order_id, instrument, side, t, fees, ts_ns),
            ),
        ) == taken_units(taken),
    decreases taken.len(),
{
    let f = |t: (i64, Fixed)| taker_fill(order_id, instrument, side, t, fees, ts_ns);
    if taken.len() > 0 {
        lemma_units_agree(taken.drop_first(), order_id, instrument, side, fees, ts_ns);
        assert(taken.map_values(f).drop_first() =~= taken.drop_first().map_values(f));
    }
}

/// The level of the other side that an order that takes comes to in a place: a buyer comes to the
/// lowest ask first, a seller to the highest bid.
pub open spec fn level_met(book: BookView<Fixed>, side: Side, i: int) -> (i64, Fixed) {
    if side == Side::Bid {
        book.asks[i]
    } else {
        book.bids[book.bids.len() - 1 - i]
    }
}

/// The count of the levels on the other side of an order that takes.
pub open spec fn levels_met(book: BookView<Fixed>, side: Side) -> int {
    if side == Side::Bid {
        book.asks.len() as int
    } else {
        book.bids.len() as int
    }
}

/// An order that takes walks the other side of the book from the best price on. Each of its fills is
/// at one level, at the price of the level and for no more than rests there; it goes on only when
/// all of a level is taken, and no level is passed over. It stops when it is filled, when the book
/// ends, or at the first price that it does not accept.
pub proof fn law_takers_walk_the_book(
    order_id: u64,
    instrument: Seq<char>,
    side: Side,
    qty: Fixed,
    bound: Option<Cents>,
    book: BookView<Fixed>,
    fees: FeeModel<Fixed>,
    ts_ns: i64,
)
    requires
        forall|i: int|
            0 <= i < levels_met(book, side) ==> (#[trigger] level_met(book, side, i)).1.units > 0
                && i32::MIN <= level_met(book, side, i).0 <= i32::MAX,
    ensures
        ({
            let fills = taker_fills(order_id, instrument, side, qty, bound, book, fees, ts_ns);
            let n = fills.len() as int;
            let asked = if qty.units < 0 {
                0
            } else {
                qty.units as int
            };
            &&& n <= levels_met(book, side)
            &&& forall|i: int|
                0 <= i < n ==> {
                    let f = #[trigger] fills[i];
                    let l = level_met(book, side, i);
                    &&& f.price.0 == l.0
                    &&& 0 < f.qty.units <= l.1.units
                    &&& i + 1 < n ==> f.qty == l.1
                    &&& accepted(side, f.price.0 as int, bound)
                    &&& f.order_id == order_id
                    &&& f.instrument == instrument
                    &&& f.side == side
                    &&& f.ts_ns == ts_ns
                    &&& f.liquidity == Liquidity::Taker
                }
            &&& filled_units(fills) <= asked
            &&& filled_units(fills) < asked ==> n == levels_met(book, side) || !accepted(
                side,
                level_met(book, side, n).0 as int,
                bound,
            )
            &&& n > 0 && fills[n - 1].qty.units < level_met(book, side, n - 1).1.units
                ==> filled_units(fills) == asked
        }),
{
    let levels = facing(book, side);
    assert forall|i: int| 0 <= i < levels.len() implies (#[trigger] levels[i]) == level_met(
        book,
        side,
        i,
    ) by {}
    assert forall|i: int| 0 <= i < levels.len() implies (#[trigger] levels[i]).1.units > 0 by {
        assert(level_met(book, side, i).1.units > 0);
    }
    lemma_walk_in_order(levels, side, qty, bound);
    let taken = taken_from(levels, side, qty, bound);
    lemma_units_agree(taken, order_id, instrument, side, fees, ts_ns);
    let fills = taker_fills(order_id, instrument, side, qty, bound, book, fees, ts_ns);
    let n = fills.len() as int;
    assert(n == taken.len());
    assert forall|i: int| 0 <= i < n implies (#[trigger] fills[i]).price.0 == level_met(
        book,
        side,
        i,
    ).0 && fills[i].qty == taken[i].1 by {
        assert(levels[i] == level_met(book, side, i));
        assert(taken[i].0 == levels[i].0);
    }
    if n > 0 {
        assert(fills[n - 1].qty == taken[n - 1].1);
        assert(levels[n - 1] == level_met(book, side, n - 1));
    }
    if n < levels.len() {
        assert(levels[n] == level_met(book, side, n));
    }
}

/// Every fill of an order that takes pays the fee of a taker: where the formula of the exchange is
/// used, 7% of the contracts times the price times what the price is short of one dollar, in whole
/// cents, rounded up. A fill of a contract or more between 0 and one dollar is never free.
pub proof fn law_takers_are_charged(
    order_id: u64,
    instrument: Seq<char>,
    side: Side,
    qty: Fixed,
    bound: Option<Cents>,
    book: BookView<Fixed>,
    fees: FeeModel<Fixed>,
    ts_ns: i64,
    i: int,
)
    requires
        fees.use_formula,
        0 <= i < taker_fills(order_id, instrument, side, qty, bound, book, fees, ts_ns).len(),
        ({
            let f = taker_fills(order_id, instrument, side, qty, bound, book, fees, ts_ns)[i];
            0 <= f.price.0 <= 100 && 0 <= f.qty.units <= 100_000_000_000_000_000
        }),
    ensures
        ({
            let f = taker_fills(order_id, instrument, side, qty, bound, book, fees, ts_ns)[i];
            let exact = 7 * f.qty.units * f.price.0 * (100 - f.price.0);
            &&& f.liquidity == Liquidity::Taker
            &&& f.fee.units % 10_000 == 0
            &&& exact < (f.fee.units + 3) * 1_000_000
            &&& f.fee.units * 1_000_000 < exact + 10_000 * 1_000_000
            &&& 0 < f.price.0 < 100 && f.qty.units >= 1_000_000 ==> f.fee.units >= 10_000
        }),
{
    let f = taker_fills(order_id, instrument, side, qty, bound, book, fees, ts_ns)[i];
    let c = f.price.0 as int;
    let p = f.price.dollars::<Fixed>();
    law_cents_are_hundredths(f.price);
    assert(p.units == c * 10_000);
    assert(f.fee == fees.taker(p, f.qty));
    law_takers_pay_the_exchange_fee(fees, p, f.qty);
    let q = f.qty.units as int;
    let exact = 7 * q * c * (100 - c);
    assert(7 * q * (c * 10_000) * (1_000_000 - c * 10_000) == exact * 100_000_000) by (nonlinear_arith)
        requires
            exact == 7 * q * c * (100 - c),
    ;
    if 0 < c < 100 && q >= 1_000_000 {
        law_takers_always_pay(fees, p, f.qty);
    }
}

/// What a trade fills of a resting order. With numbers of six decimals: the trade has to come from
/// the other side and to reach the price; what rests ahead is served first; and of what is left, the
/// order takes all that it wants. The order keeps its price, and is not charged by the formula of
/// the exchange.
pub proof fn law_makers_are_filled(
    o: RestingView<Fixed>,
    t: TradeView<Fixed>,
    fees: FeeModel<Fixed>,
)
    requires
        o.remaining.units >= 0,
        o.queue_ahead.units >= 0,
        t.size.units >= 0,
    ensures
        ({
            let (after, filled) = met(o, t);
            let crossed = t.instrument == o.instrument && if o.side == Side::Bid {
                !t.aggressor_yes && t.price.0 <= o.price.0
            } else {
                t.aggressor_yes && t.price.0 >= o.price.0
            };
            let served = if o.queue_ahead.units < t.size.units {
                o.queue_ahead.units as int
            } else {
                t.size.units as int
            };
            let there = t.size.units - served;
            let due = if o.remaining.units < there {
                o.remaining.units as int
            } else {
                there
            };
            let got = match filled {
                Some(q) => q.units as int,
                None => 0,
            };
            &&& crossed && o.remaining.units > 0 ==> {
                &&& got == due
                &&& filled is Some <==> due > 0
                &&& after == (RestingView {
                    remaining: after.remaining,
                    queue_ahead: after.queue_ahead,
                    ..o
                })
                &&& after.remaining.units == o.remaining.units - due
                &&& after.queue_ahead.units == o.queue_ahead.units - served
            }
            &&& !crossed || o.remaining.units == 0 ==> after == o && filled is None
            &&& filled matches Some(q) ==> {
                let f = maker_fill(o, t, q, fees);
                &&& f.qty == q
                &&& f.price == o.price
                &&& f.side == o.side
                &&& f.order_id == o.id
                &&& f.instrument == o.instrument
                &&& f.ts_ns == t.ts_ns
                &&& f.liquidity == Liquidity::Maker
                &&& fees.use_formula ==> f.fee.units == 0
            }
        }),
{
}

/// Every fill of an order that takes pays the rate of a taker, where the formula of the exchange is
/// not used: that part of what is traded, in whole cents, rounded up.
pub proof fn law_takers_are_charged_the_rate(
    order_id: u64,
    instrument: Seq<char>,
    side: Side,
    qty: Fixed,
    bound: Option<Cents>,
    book: BookView<Fixed>,
    fees: FeeModel<Fixed>,
    ts_ns: i64,
    i: int,
)
    requires
        !fees.use_formula,
        0 <= fees.taker_fee_rate.units <= 1_000_000,
        0 <= i < taker_fills(order_id, instrument, side, qty, bound, book, fees, ts_ns).len(),
        ({
            let f = taker_fills(order_id, instrument, side, qty, bound, book, fees, ts_ns)[i];
            0 <= f.price.0 <= 100 && 0 <= f.qty.units <= 10_000_000_000_000_000
        }),
    ensures
        ({
            let f = taker_fills(order_id, instrument, side, qty, bound, book, fees, ts_ns)[i];
            let exact = f.qty.units * (f.price.0 * 10_000) * fees.taker_fee_rate.units;
            &&& f.liquidity == Liquidity::Taker
            &&& f.fee.units % 10_000 == 0
            &&& exact < (f.fee.units + 2) * 1_000_000_000_000
            &&& f.fee.units * 1_000_000_000_000 < exact + 10_000 * 1_000_000_000_000
        }),
{
    let f = taker_fills(order_id, instrument, side, qty, bound, book, fees, ts_ns)[i];
    let p = f.price.dollars::<Fixed>();
    law_cents_are_hundredths(f.price);
    assert(f.fee == fees.taker(p, f.qty));
    law_takers_pay_the_rate(fees, p, f.qty);
}

/// A fill of a resting order pays the fee of a maker for each of its contracts, where the formula of
/// the exchange is not used.
pub proof fn law_makers_are_charged_the_rate(
    o: RestingView<Fixed>,
    t: TradeView<Fixed>,
    qty: Fixed,
    k: int,
    fees: FeeModel<Fixed>,
)
    requires
        !fees.use_formula,
        qty.units == k * 1_000_000,
        -LARGEST <= k * fees.maker_fee_per_contract.units <= LARGEST,
    ensures
        maker_fill(o, t, qty, fees).fee.units == k * fees.maker_fee_per_contract.units,
{
    law_makers_pay_for_each_contract(fees, qty, k);
}

} // verus!
