//! What holds of every run.
use crate::config::{BacktestConfig, QueueModel, RiskConfig};
use crate::engine::state::{
    cancelled_by, crossing_qty, gross, known_payouts, limits_split, maker_fills, markets_split,
    open_positions, order_after, unfilled, with_fills, without_orders, EngineView, LimitView,
    MarketView, PendingCancel,
};
use crate::engine::{can_end, opened, FilesView, RunOutput};
use crate::execution::{reached, taker_fills, RestingView};
use crate::fees::FeeModel;
use crate::fixed::{size, Fixed};
use crate::number::{Analytic, Number};
use crate::portfolio::{held, law_fill_touches_one_instrument, PortfolioView, Position};
use crate::report::{alike, law_accounts_decide_reports};
use crate::settlement::{outcome_of, Outcome};
use crate::slippage::SlippageModel;
use crate::strategy::{ActionView, CtxView, Noop, Strategy};
use crate::strmap::entry;
use crate::types::{
    trade_views, trades_among, Cents, DeltaView, EventView, FillView, Liquidity, Side, Tif, TradeView,
};
use vstd::prelude::*;

verus! {

/// Once the run was halted, no order is sent: each one that is asked for is counted as rejected.
pub proof fn law_halted_sends_nothing<N: Analytic>(e: EngineView<N>, a: ActionView<N>)
    requires
        e.halted,
        a !is Cancel,
    ensures
        e.applied(a) == (EngineView { risk_rejections: e.risk_rejections.wrapping_add(1), ..e }),
{
}

/// Without limits every order is sent as it was asked for.
pub proof fn law_no_limits_no_change<N: Analytic>(
    e: EngineView<N>,
    instrument: Seq<char>,
    side: Side,
    qty: N,
)
    requires
        !e.halted,
        e.risk == RiskConfig::<N>::standard(),
    ensures
        e.allowed(instrument, side, qty) == Some(qty),
        e.screened(instrument, side, qty) == e,
{
}

/// An order that is not to rest never does.
pub proof fn law_immediate_orders_never_rest<N: Analytic>(e: EngineView<N>, l: LimitView<N>)
    requires
        l.tif == Tif::Ioc,
        !l.post_only,
    ensures
        e.resolved(l).ctx.resting == e.ctx.resting,
{
}

/// An order that is only to rest never takes: it leaves the account as it was, but for the count
/// of such orders that were refused.
pub proof fn law_resting_orders_never_take<N: Analytic>(e: EngineView<N>, l: LimitView<N>)
    requires
        l.post_only,
    ensures
        e.resolved(l).ctx.portfolio == (PortfolioView {
            post_only_rejects: e.resolved(l).ctx.portfolio.post_only_rejects,
            ..e.ctx.portfolio
        }),
{
}

/// What a strategy asks for leaves the books and the time as they are: its own orders take nothing
/// away from others.
pub proof fn law_orders_leave_books<N: Analytic>(e: EngineView<N>, a: ActionView<N>)
    ensures
        e.applied(a).ctx.books == e.ctx.books,
        e.applied(a).ctx.cur_ts == e.ctx.cur_ts,
{
}

/// All that a strategy asks for leaves the books and the time as they are.
pub proof fn law_actions_leave_books<N: Analytic>(e: EngineView<N>, actions: Seq<ActionView<N>>)
    ensures
        e.all_applied(actions).ctx.books == e.ctx.books,
        e.all_applied(actions).ctx.cur_ts == e.ctx.cur_ts,
    decreases actions.len(),
{
    if actions.len() > 0 {
        law_actions_leave_books(e, actions.drop_last());
        law_orders_leave_books(e.all_applied(actions.drop_last()), actions.last());
    }
}

/// Fills change no count of orders.
pub proof fn law_fills_count_no_orders<N: Number>(
    p: PortfolioView<N>,
    fills: Seq<FillView<N>>,
    slippage: SlippageModel<N>,
    liquidity: Liquidity,
)
    ensures
        with_fills(p, fills, slippage, liquidity).total_orders == p.total_orders,
        with_fills(p, fills, slippage, liquidity).fills == p.fills + fills,
    decreases fills.len(),
{
    if fills.len() > 0 {
        law_fills_count_no_orders(p, fills.drop_last(), slippage, liquidity);
        assert(fills =~= fills.drop_last().push(fills.last()));
        assert((p.fills + fills.drop_last()).push(fills.last()) =~= p.fills + fills);
    } else {
        assert(p.fills + fills =~= p.fills);
    }
}

proof fn lemma_taken_counts_no_orders<N: Analytic>(
    e: EngineView<N>,
    id: u64,
    instrument: Seq<char>,
    side: Side,
    qty: N,
    bound: Option<Cents>,
    ts_ns: i64,
)
    ensures
        e.taken(id, instrument, side, qty, bound, ts_ns).ctx.portfolio.total_orders
            == e.ctx.portfolio.total_orders,
{
    let fills = match entry(e.ctx.books, instrument) {
        Some(b) => taker_fills(
            id,
            instrument,
            side,
            qty,
            bound,
            b,
            e.fees,
            ts_ns,
        ),
        None => Seq::empty(),
    };
    law_fills_count_no_orders(e.ctx.portfolio, fills, e.slippage, Liquidity::Taker);
}

/// A limit order that is sent is counted once and uses up one number, whatever becomes of it.
pub proof fn law_limit_counts_once<N: Analytic>(
    e: EngineView<N>,
    instrument: Seq<char>,
    side: Side,
    price: Cents,
    qty: N,
    tif: Tif,
    post_only: bool,
)
    requires
        !qty.at_most(N::integer(0)),
    ensures
        ({
            let s = e.limit_sent(instrument, side, price, qty, tif, post_only);
            &&& s.ctx.portfolio.total_orders == e.ctx.portfolio.total_orders.wrapping_add(1)
            &&& s.next_order_id == e.next_order_id.wrapping_add(1)
        }),
{
    let m = crossing_qty(
        entry(e.ctx.books, instrument),
        side,
        price,
        qty,
    );
    lemma_taken_counts_no_orders(
        e.sent(),
        e.next_order_id,
        instrument,
        side,
        m,
        Some(price),
        e.ctx.cur_ts,
    );
}

/// An order to take that is sent is counted once and uses up one number.
pub proof fn law_market_counts_once<N: Analytic>(
    e: EngineView<N>,
    instrument: Seq<char>,
    side: Side,
    qty: N,
)
    requires
        !qty.at_most(N::integer(0)),
    ensures
        ({
            let s = e.market_sent(instrument, side, qty);
            &&& s.ctx.portfolio.total_orders == e.ctx.portfolio.total_orders.wrapping_add(1)
            &&& s.next_order_id == e.next_order_id.wrapping_add(1)
        }),
{
    lemma_taken_counts_no_orders(
        e.sent(),
        e.next_order_id,
        instrument,
        side,
        qty,
        None,
        e.ctx.cur_ts,
    );
}

/// Without delays no order waits: it is dealt with when it is asked for.
pub proof fn law_no_delay_nothing_waits<N: Analytic>(e: EngineView<N>, a: ActionView<N>)
    requires
        !e.latency.enabled,
    ensures
        e.applied(a).pending_limit == e.pending_limit,
        e.applied(a).pending_market == e.pending_market,
        e.applied(a).pending_cancels == e.pending_cancels,
{
}

/// An order that has not arrived is not dealt with: those that wait are the ones whose time is yet
/// to come.
pub proof fn law_waiting_orders_are_early<N: Analytic>(
    limits: Seq<LimitView<N>>,
    markets: Seq<MarketView<N>>,
    now: i64,
)
    ensures
        forall|i: int|
            0 <= i < limits_split(limits, now, false).len() ==> (
            #[trigger] limits_split(limits, now, false)[i]).activation_ts
                > now,
        forall|i: int|
            0 <= i < markets_split(markets, now, false).len() ==> (
            #[trigger] markets_split(markets, now, false)[i]).activation_ts
                > now,
    decreases limits.len() + markets.len(),
{
    if limits.len() > 0 {
        law_waiting_orders_are_early(limits.drop_last(), markets, now);
    } else if markets.len() > 0 {
        law_waiting_orders_are_early(limits, markets.drop_last(), now);
    }
}

/// A trade fills only orders that have arrived, that rest in its instrument, and that it reaches.
pub proof fn law_fills_are_due<N: Number>(
    resting: Seq<RestingView<N>>,
    t: TradeView<N>,
    now: i64,
    fees: FeeModel<N>,
    i: int,
)
    requires
        0 <= i < maker_fills(resting, t, now, fees).len(),
    ensures
        exists|j: int| #[trigger]
            filled_at(resting, j, maker_fills(resting, t, now, fees)[i], t, now),
    decreases resting.len(),
{
    let rest = resting.drop_last();
    let before = maker_fills(rest, t, now, fees);
    let fills = maker_fills(resting, t, now, fees);
    if i < before.len() {
        law_fills_are_due(rest, t, now, fees, i);
        let j = choose|j: int| #[trigger] filled_at(rest, j, before[i], t, now);
        assert(fills[i] == before[i]);
        assert(filled_at(resting, j, fills[i], t, now));
    } else {
        assert(filled_at(resting, resting.len() - 1, fills[i], t, now));
    }
}

/// A fill is of the resting order at a place, which had arrived and was reached.
pub open spec fn filled_at<N: Number>(
    resting: Seq<RestingView<N>>,
    j: int,
    f: FillView<N>,
    t: TradeView<N>,
    now: i64,
) -> bool {
    &&& 0 <= j < resting.len()
    &&& resting[j].id == f.order_id
    &&& resting[j].activation_ts <= now
    &&& resting[j].instrument == t.instrument
    &&& f.price == resting[j].price
    &&& reached(resting[j].side, resting[j].price, t)
}

/// Where queues are not taken to shrink from the front, a delta moves no own order up.
pub proof fn law_pessimistic_queues_wait<N: Analytic>(e: EngineView<N>, d: DeltaView<N>)
    requires
        e.queue_model == QueueModel::Pessimistic,
    ensures
        e.delta_applied(d).ctx.resting == e.ctx.resting,
        e.delta_applied(d).ctx.portfolio == e.ctx.portfolio,
{
}

proof fn lemma_closing_adds_nothing<N: Analytic>(e: EngineView<N>, open: Seq<(Seq<char>, N)>)
    ensures
        e.all_closed(open).ctx.resting == e.ctx.resting,
        e.all_closed(open).ctx.pending == e.ctx.pending,
        e.all_closed(open).pending_cancels == e.pending_cancels,
        e.all_closed(open).pending_market == e.pending_market,
        e.all_closed(open).pending_limit == e.pending_limit,
        e.all_closed(open).halted == e.halted,
    decreases open.len(),
{
    if open.len() > 0 {
        lemma_closing_adds_nothing(e, open.drop_last());
    }
}

/// Once the run was halted, nothing rests and nothing is on its way.
pub proof fn law_halting_clears<N: Analytic>(e: EngineView<N>, reason: Seq<char>)
    ensures
        e.stopped(reason).halted,
        e.stopped(reason).ctx.resting.len() == 0,
        e.stopped(reason).ctx.pending.len() == 0,
        e.stopped(reason).pending_cancels.len() == 0,
        e.stopped(reason).pending_market.len() == 0,
        e.stopped(reason).pending_limit.len() == 0,
{
    let s = EngineView {
        halted: true,
        pending_cancels: Seq::empty(),
        pending_market: Seq::empty(),
        pending_limit: Seq::empty(),
        ctx: CtxView {
            portfolio: PortfolioView { halted: true, halt_reason: reason, ..e.ctx.portfolio },
            resting: Seq::empty(),
            pending: Seq::empty(),
            ..e.ctx
        },
        ..e
    };
    lemma_closing_adds_nothing(
        s,
        open_positions(s.ctx.portfolio.positions),
    );
}

/// A run that was halted stays halted through whatever a strategy asks for.
pub proof fn law_halted_stays_halted<N: Analytic>(e: EngineView<N>, actions: Seq<ActionView<N>>)
    requires
        e.halted,
    ensures
        e.all_applied(actions).halted,
    decreases actions.len(),
{
    if actions.len() > 0 {
        law_halted_stays_halted(e, actions.drop_last());
    }
}

proof fn lemma_run_goes_on<N: Analytic, S: Strategy<N>>(
    e: EngineView<N>,
    strat: S,
    events: Seq<EventView<N>>,
    before: EngineView<N>,
    earlier: S,
    end: EngineView<N>,
    later: S,
)
    requires
        events.len() > 0,
        e.runs_to(strat, events.drop_last(), before, earlier),
        before.advances_to(earlier, events.last(), end, later),
    ensures
        e.runs_to(strat, events, end, later),
{
}

proof fn lemma_run_went_on<N: Analytic, S: Strategy<N>>(
    e: EngineView<N>,
    strat: S,
    events: Seq<EventView<N>>,
    end: EngineView<N>,
    later: S,
) -> (r: (EngineView<N>, S))
    requires
        events.len() > 0,
        e.runs_to(strat, events, end, later),
    ensures
        e.runs_to(strat, events.drop_last(), r.0, r.1),
        r.0.advances_to(r.1, events.last(), end, later),
{
    choose|before: EngineView<N>, earlier: S|
        e.runs_to(strat, events.drop_last(), before, earlier) && #[trigger] before.advances_to(
            earlier,
            events.last(),
            end,
            later,
        )
}

/// To deal with some events and then with others is to deal with all of them: it does not matter
/// whether a run is fed at once or piece by piece.
pub proof fn law_runs_join<N: Analytic, S: Strategy<N>>(
    e: EngineView<N>,
    strat: S,
    first: Seq<EventView<N>>,
    mid: EngineView<N>,
    between: S,
    second: Seq<EventView<N>>,
    end: EngineView<N>,
    later: S,
)
    requires
        e.runs_to(strat, first, mid, between),
        mid.runs_to(between, second, end, later),
    ensures
        e.runs_to(strat, first + second, end, later),
    decreases second.len(),
{
    let all = first + second;
    if second.len() == 0 {
        assert(all =~= first);
    } else {
        let (before, earlier) = lemma_run_went_on(mid, between, second, end, later);
        law_runs_join(e, strat, first, mid, between, second.drop_last(), before, earlier);
        assert(all.drop_last() =~= first + second.drop_last());
        assert(all.last() == second.last());
        lemma_run_goes_on(e, strat, all, before, earlier, end, later);
    }
}

/// A strategy does the same whenever it sees the same.
pub open spec fn deterministic<N: Analytic, S: Strategy<N>>() -> bool {
    &&& forall|s: S, ev: EventView<N>, c: CtxView<N>, a: S, x: CtxView<N>, b: S, y: CtxView<N>|
        #[trigger] s.can_react(ev, c, a, x) && #[trigger] s.can_react(ev, c, b, y) ==> a == b && x
            == y
    &&& forall|s: S, c: CtxView<N>, a: S, x: CtxView<N>, b: S, y: CtxView<N>|
        #[trigger] s.can_close(c, a, x) && #[trigger] s.can_close(c, b, y) ==> a == b && x == y
}

proof fn lemma_same_step<N: Analytic, S: Strategy<N>>(
    e: EngineView<N>,
    strat: S,
    ev: EventView<N>,
    a: EngineView<N>,
    s: S,
    b: EngineView<N>,
    t: S,
)
    requires
        deterministic::<N, S>(),
        e.advances_to(strat, ev, a, s),
        e.advances_to(strat, ev, b, t),
    ensures
        a == b,
        s == t,
{
    reveal(EngineView::advances_to);
    let m = choose|m: EngineView<N>| #[trigger]
        e.steps_to(strat, ev, m, s) && a == m.snapshot_taken(m.ctx.cur_ts);
    let n = choose|n: EngineView<N>| #[trigger]
        e.steps_to(strat, ev, n, t) && b == n.snapshot_taken(n.ctx.cur_ts);
    let seen = e.begun(ev);
    let x = choose|x: CtxView<N>| #[trigger]
        strat.can_react(ev, seen.ctx, s, x) && seen.ctx.asked(x) && m == seen.with_ctx(x).ended();
    let y = choose|y: CtxView<N>| #[trigger]
        strat.can_react(ev, seen.ctx, t, y) && seen.ctx.asked(y) && n == seen.with_ctx(y).ended();
    assert(strat.can_react(ev, seen.ctx, s, x) && strat.can_react(ev, seen.ctx, t, y));
}

/// Runs are reproducible: with a strategy that does the same whenever it sees the same, the same
/// events lead from the same start to the same state.
pub proof fn law_runs_are_reproducible<N: Analytic, S: Strategy<N>>(
    e: EngineView<N>,
    strat: S,
    events: Seq<EventView<N>>,
    a: EngineView<N>,
    s: S,
    b: EngineView<N>,
    t: S,
)
    requires
        deterministic::<N, S>(),
        e.runs_to(strat, events, a, s),
        e.runs_to(strat, events, b, t),
    ensures
        a == b,
        s == t,
    decreases events.len(),
{
    if events.len() > 0 {
        let (m, x) = lemma_run_went_on(e, strat, events, a, s);
        let (n, y) = lemma_run_went_on(e, strat, events, b, t);
        law_runs_are_reproducible(e, strat, events.drop_last(), m, x, n, y);
        lemma_same_step(m, x, events.last(), a, s, b, t);
    }
}

/// The same holds of the end of a run.
pub proof fn law_ends_are_reproducible<N: Analytic, S: Strategy<N>>(
    e: EngineView<N>,
    strat: S,
    events: Seq<EventView<N>>,
    flatten: bool,
    a: EngineView<N>,
    s: S,
    b: EngineView<N>,
    t: S,
)
    requires
        deterministic::<N, S>(),
        can_end(e, strat, events, flatten, a, s),
        can_end(e, strat, events, flatten, b, t),
    ensures
        a == b,
        s == t,
{
    let (m, x) = choose|m: EngineView<N>, x: S| #[trigger]
        e.runs_to(strat, events, m, x) && m.finishes_to(x, flatten, a, s);
    let (n, y) = choose|n: EngineView<N>, y: S| #[trigger]
        e.runs_to(strat, events, n, y) && n.finishes_to(y, flatten, b, t);
    law_runs_are_reproducible(e, strat, events, m, x, n, y);
    let c = choose|c: CtxView<N>| #[trigger]
        x.can_close(m.ctx, s, c) && m.ctx.asked(c) && a == m.with_ctx(c).finished(flatten);
    let d = choose|d: CtxView<N>| #[trigger]
        x.can_close(m.ctx, t, d) && m.ctx.asked(d) && b == m.with_ctx(d).finished(flatten);
    assert(x.can_close(m.ctx, s, c) && x.can_close(m.ctx, t, d));
}

/// Without outcomes nothing is settled: all positions are left to be closed at their marks.
pub proof fn law_no_outcomes_no_settlement<N: Analytic>(e: EngineView<N>)
    requires
        e.settlement.len() == 0,
    ensures
        e.settled() == e,
{
}

proof fn lemma_payouts_are_known<N: Analytic>(
    open: Seq<(Seq<char>, N)>,
    known: Seq<(Seq<char>, Outcome)>,
    name: Seq<char>,
    i: int,
)
    requires
        outcome_of(known, name) == Outcome::Unknown,
        0 <= i < known_payouts(open, known).len(),
    ensures
        known_payouts(open, known)[i].0 != name,
    decreases open.len(),
{
    if open.len() > 0 && i < known_payouts(open.drop_last(), known).len() {
        lemma_payouts_are_known(open.drop_last(), known, name, i);
    }
}

proof fn lemma_settling_leaves<N: Analytic>(
    e: EngineView<N>,
    payouts: Seq<(Seq<char>, N)>,
    ts_ns: i64,
    name: Seq<char>,
)
    requires
        forall|i: int| 0 <= i < payouts.len() ==> (#[trigger] payouts[i]).0 != name,
    ensures
        held(e.all_settled(payouts, ts_ns).ctx.portfolio.positions, name) == held(
            e.ctx.portfolio.positions,
            name,
        ),
    decreases payouts.len(),
{
    if payouts.len() > 0 {
        lemma_settling_leaves(e, payouts.drop_last(), ts_ns, name);
        let p = e.all_settled(payouts.drop_last(), ts_ns).ctx.portfolio;
        let (instrument, payout) = payouts.last();
        assert(payouts[payouts.len() - 1].0 != name);
        law_fill_touches_one_instrument(
            p,
            p.settlement(instrument, payout, ts_ns),
            N::integer(0),
            name,
        );
    }
}

/// Settlement touches positions with a known outcome alone: what is held of any other instrument
/// is left to be closed at its mark.
pub proof fn law_unknown_outcomes_are_left<N: Analytic>(e: EngineView<N>, name: Seq<char>)
    requires
        outcome_of(e.settlement, name) == Outcome::Unknown,
    ensures
        held(e.settled().ctx.portfolio.positions, name) == held(e.ctx.portfolio.positions, name),
{
    let payouts = known_payouts(open_positions(e.ctx.portfolio.positions), e.settlement);
    assert forall|i: int| 0 <= i < payouts.len() implies (#[trigger] payouts[i]).0 != name by {
        lemma_payouts_are_known(
            open_positions(e.ctx.portfolio.positions),
            e.settlement,
            name,
            i,
        );
    }
    lemma_settling_leaves(e, payouts, e.end_time(), name);
}

/// No order rests, is on its way or is asked for, and nothing is held.
pub open spec fn idle<N: Analytic>(e: EngineView<N>) -> bool {
    &&& e.ctx.resting.len() == 0
    &&& e.ctx.pending.len() == 0
    &&& e.ctx.portfolio.positions.len() == 0
    &&& e.pending_limit.len() == 0
    &&& e.pending_market.len() == 0
}

/// The account of one state is that of another, but for its equity curve and its halt.
pub open spec fn same_account<N: Analytic>(a: EngineView<N>, b: EngineView<N>) -> bool {
    &&& a.ctx.portfolio.cash == b.ctx.portfolio.cash
    &&& a.ctx.portfolio.fills == b.ctx.portfolio.fills
    &&& a.ctx.portfolio.total_orders == b.ctx.portfolio.total_orders
    &&& a.ctx.portfolio.total_fees == b.ctx.portfolio.total_fees
}

proof fn lemma_idle_event<N: Analytic>(e: EngineView<N>, ev: EventView<N>)
    requires
        idle(e),
    ensures
        idle(e.begun(ev)),
        same_account(e, e.begun(ev)),
{
    let now = e.with_ctx(CtxView { cur_ts: ev.ts(), ..e.ctx });
    let a = now.cancels_done();
    assert(a.ctx.resting.len() == 0);
    let b = a.limits_done();
    assert(idle(b) && same_account(e, b));
    let c = b.markets_done();
    assert(idle(c) && same_account(e, c));
    match ev {
        EventView::Delta(d) => {
            assert(idle(c.delta_applied(d)));
        },
        EventView::Trade(t) => {
            assert(maker_fills(c.ctx.resting, t, c.ctx.cur_ts, c.fees).len() == 0);
            assert(idle(c.trade_matched(t)));
            assert(same_account(e, c.trade_matched(t)));
        },
    }
}

proof fn lemma_idle_end<N: Analytic>(e: EngineView<N>)
    requires
        idle(e),
    ensures
        idle(e.ended()),
        same_account(e, e.ended()),
{
    let d = e.drained();
    assert(idle(d) && same_account(e, d));
}

proof fn lemma_idle_strategy<N: Analytic>(
    e: EngineView<N>,
    ev: EventView<N>,
    next: EngineView<N>,
)
    requires
        e.steps_to(Noop, ev, next, Noop),
    ensures
        next == e.begun(ev).ended(),
{
    let b = e.begun(ev);
    let c = choose|c: CtxView<N>| #[trigger]
        Noop.can_react(ev, b.ctx, Noop, c) && b.ctx.asked(c) && next == b.with_ctx(c).ended();
    assert(b.with_ctx(c) == b);
}

proof fn lemma_idle_step<N: Analytic>(e: EngineView<N>, ev: EventView<N>, next: EngineView<N>)
    requires
        idle(e),
        e.advances_to(Noop, ev, next, Noop),
    ensures
        idle(next),
        same_account(e, next),
{
    let mid = e.begun(ev).ended();
    assert(next == mid.snapshot_taken(mid.ctx.cur_ts)) by {
        reveal(EngineView::advances_to);
        let m = choose|m: EngineView<N>| #[trigger]
            e.steps_to(Noop, ev, m, Noop) && next == m.snapshot_taken(m.ctx.cur_ts);
        lemma_idle_strategy(e, ev, m);
    }
    assert(idle(mid) && same_account(e, mid)) by {
        lemma_idle_event(e, ev);
        lemma_idle_end(e.begun(ev));
    }
}

/// A run without orders changes no account: no order is counted, nothing is filled, and the cash
/// stays what it was, whatever the market does.
pub proof fn law_idle_runs_trade_nothing<N: Analytic>(
    e: EngineView<N>,
    events: Seq<EventView<N>>,
    end: EngineView<N>,
)
    requires
        idle(e),
        e.runs_to(Noop, events, end, Noop),
    ensures
        idle(end),
        same_account(e, end),
    decreases events.len(),
{
    if events.len() > 0 {
        let (before, earlier) = lemma_run_went_on(e, Noop, events, end, Noop);
        law_idle_runs_trade_nothing(e, events.drop_last(), before);
        lemma_idle_step(before, events.last(), end);
    }
}

/// The contracts that an order would change a position by.
pub open spec fn moved_by(side: Side, qty: Fixed) -> int {
    match side {
        Side::Bid => qty.units as int,
        Side::Ask => -qty.units,
    }
}

/// A cap counts from 0 on.
pub open spec fn cap_units(cap: Fixed) -> int {
    if cap.units < 0 {
        0
    } else {
        cap.units as int
    }
}

/// No order that the limits let through can carry a position over its cap: with numbers of six
/// decimals, if all of it is filled the position is within the cap, or no larger than it was.
pub proof fn law_position_cap_is_kept(
    e: EngineView<Fixed>,
    instrument: Seq<char>,
    side: Side,
    qty: Fixed,
    cap: Fixed,
)
    requires
        e.risk.max_position_per_instrument == Some(cap),
        e.allowed(instrument, side, qty) is Some,
        held(e.ctx.portfolio.positions, instrument).net_qty.units > i64::MIN,
    ensures
        ({
            let net = held(e.ctx.portfolio.positions, instrument).net_qty.units as int;
            let sent = e.allowed(instrument, side, qty)->0;
            let after = size(net + moved_by(side, sent));
            after <= cap_units(cap) || after <= size(net)
        }),
{
    assert(e.risk != RiskConfig::<Fixed>::standard());
}

/// No order that the limits let through can carry the sum of all positions over its cap: with
/// numbers of six decimals, if all of it is filled the sum is within the cap, or no larger than it
/// was.
pub proof fn law_gross_cap_is_kept(
    e: EngineView<Fixed>,
    instrument: Seq<char>,
    side: Side,
    qty: Fixed,
    cap: Fixed,
)
    requires
        e.risk.max_gross_position == Some(cap),
        e.allowed(instrument, side, qty) is Some,
        held(e.ctx.portfolio.positions, instrument).net_qty.units > i64::MIN,
        gross(e.ctx.portfolio.positions).finite(),
    ensures
        ({
            let net = held(e.ctx.portfolio.positions, instrument).net_qty.units as int;
            let total = gross(e.ctx.portfolio.positions).units;
            let sent = e.allowed(instrument, side, qty)->0;
            let after = total - size(net) + size(net + moved_by(side, sent));
            after <= cap_units(cap) || after <= total
        }),
{
    assert(e.risk != RiskConfig::<Fixed>::standard());
    law_one_is_not_more_than_all(e.ctx.portfolio.positions, instrument);
}

/// No order that the limits let through is larger than the largest that they accept, or than what
/// was asked for.
pub proof fn law_order_cap_is_kept(
    e: EngineView<Fixed>,
    instrument: Seq<char>,
    side: Side,
    qty: Fixed,
)
    requires
        e.allowed(instrument, side, qty) is Some,
    ensures
        e.allowed(instrument, side, qty)->0.units <= qty.units,
        match e.risk.max_order_qty {
            Some(cap) => cap.units >= 0 ==> e.allowed(instrument, side, qty)->0.units
                <= cap.units,
            None => true,
        },
{
}

/// What is held of one instrument is never more than what is held in all.
pub proof fn law_one_is_not_more_than_all(
    positions: Seq<(Seq<char>, Position<Fixed>)>,
    instrument: Seq<char>,
)
    requires
        held(positions, instrument).net_qty.units > i64::MIN,
    ensures
        gross(positions).units >= 0,
        size(held(positions, instrument).net_qty.units as int) <= gross(positions).units,
    decreases positions.len(),
{
    if positions.len() > 0 {
        if positions.last().0 == instrument {
            law_gross_is_not_below_zero(positions.drop_last());
        } else {
            law_one_is_not_more_than_all(positions.drop_last(), instrument);
        }
    }
}

/// What is held in all is never below 0.
pub proof fn law_gross_is_not_below_zero(positions: Seq<(Seq<char>, Position<Fixed>)>)
    ensures
        gross(positions).units >= 0,
    decreases positions.len(),
{
    if positions.len() > 0 {
        law_gross_is_not_below_zero(positions.drop_last());
    }
}

proof fn lemma_resolving_observes_nothing<N: Analytic>(e: EngineView<N>, orders: Seq<LimitView<N>>)
    ensures
        e.all_resolved(orders).observed_trades == e.observed_trades,
    decreases orders.len(),
{
    if orders.len() > 0 {
        lemma_resolving_observes_nothing(e, orders.drop_last());
    }
}

proof fn lemma_taking_observes_nothing<N: Analytic>(e: EngineView<N>, orders: Seq<MarketView<N>>)
    ensures
        e.all_taken(orders).observed_trades == e.observed_trades,
    decreases orders.len(),
{
    if orders.len() > 0 {
        lemma_taking_observes_nothing(e, orders.drop_last());
    }
}

proof fn lemma_asking_observes_nothing<N: Analytic>(e: EngineView<N>, actions: Seq<ActionView<N>>)
    ensures
        e.all_applied(actions).observed_trades == e.observed_trades,
    decreases actions.len(),
{
    if actions.len() > 0 {
        lemma_asking_observes_nothing(e, actions.drop_last());
    }
}

proof fn lemma_closing_observes_nothing<N: Analytic>(e: EngineView<N>, open: Seq<(Seq<char>, N)>)
    ensures
        e.all_closed(open).observed_trades == e.observed_trades,
    decreases open.len(),
{
    if open.len() > 0 {
        lemma_closing_observes_nothing(e, open.drop_last());
    }
}

proof fn lemma_ending_observes_nothing<N: Analytic>(e: EngineView<N>)
    ensures
        e.ended().observed_trades == e.observed_trades,
{
    let d = e.drained();
    lemma_asking_observes_nothing(
        e.with_ctx(CtxView { pending: Seq::empty(), ..e.ctx }),
        e.ctx.pending,
    );
    if !(d.halted || d.risk.equity_floor is None && d.risk.max_drawdown_pct is None) {
        let equity = d.ctx.portfolio.net_worth(d.ctx.books);
        let s = EngineView {
            equity_peak: if d.equity_peak.below(equity) {
                equity
            } else {
                d.equity_peak
            },
            ..d
        };
        if let Some(reason) = s.breach(equity) {
            let t = EngineView {
                halted: true,
                pending_cancels: Seq::empty(),
                pending_market: Seq::empty(),
                pending_limit: Seq::empty(),
                ctx: CtxView {
                    portfolio: PortfolioView {
                        halted: true,
                        halt_reason: reason,
                        ..s.ctx.portfolio
                    },
                    resting: Seq::empty(),
                    pending: Seq::empty(),
                    ..s.ctx
                },
                ..s
            };
            lemma_closing_observes_nothing(t, open_positions(t.ctx.portfolio.positions));
        }
    }
}

proof fn lemma_beginning_observes<N: Analytic>(e: EngineView<N>, ev: EventView<N>)
    ensures
        e.begun(ev).observed_trades == match ev {
            EventView::Trade(t) => e.observed_trades.push(t),
            EventView::Delta(_) => e.observed_trades,
        },
{
    let c = e.with_ctx(CtxView { cur_ts: ev.ts(), ..e.ctx }).cancels_done();
    let now = c.ctx.cur_ts;
    lemma_resolving_observes_nothing(
        EngineView { pending_limit: limits_split(c.pending_limit, now, false), ..c },
        limits_split(c.pending_limit, now, true),
    );
    let l = c.limits_done();
    lemma_taking_observes_nothing(
        EngineView {
            pending_market: markets_split(l.pending_market, l.ctx.cur_ts, false),
            ..l
        },
        markets_split(l.pending_market, l.ctx.cur_ts, true),
    );
}

/// A run observes every trade of its events, each once and in their order, and nothing else.
pub proof fn law_trades_are_observed<N: Analytic, S: Strategy<N>>(
    e: EngineView<N>,
    strat: S,
    events: Seq<EventView<N>>,
    end: EngineView<N>,
    later: S,
)
    requires
        e.runs_to(strat, events, end, later),
    ensures
        end.observed_trades == e.observed_trades + trades_among(events),
    decreases events.len(),
{
    if events.len() == 0 {
        assert(e.observed_trades + trades_among(events) =~= e.observed_trades);
    } else {
        let (before, earlier) = lemma_run_went_on(e, strat, events, end, later);
        law_trades_are_observed(e, strat, events.drop_last(), before, earlier);
        reveal(EngineView::advances_to);
        let ev = events.last();
        let mid = choose|mid: EngineView<N>| #[trigger]
            before.steps_to(earlier, ev, mid, later) && end == mid.snapshot_taken(mid.ctx.cur_ts);
        let b = before.begun(ev);
        let c = choose|c: CtxView<N>| #[trigger]
            earlier.can_react(ev, b.ctx, later, c) && b.ctx.asked(c) && mid == b.with_ctx(
                c,
            ).ended();
        lemma_beginning_observes(before, ev);
        lemma_ending_observes_nothing(b.with_ctx(c));
        assert(end.observed_trades =~= e.observed_trades + trades_among(events));
    }
}

proof fn lemma_flattening_observes_nothing<N: Analytic>(
    e: EngineView<N>,
    open: Seq<(Seq<char>, N)>,
)
    ensures
        e.all_flattened(open).observed_trades == e.observed_trades,
    decreases open.len(),
{
    if open.len() > 0 {
        lemma_flattening_observes_nothing(e, open.drop_last());
    }
}

proof fn lemma_settling_observes_nothing<N: Analytic>(
    e: EngineView<N>,
    payouts: Seq<(Seq<char>, N)>,
    ts_ns: i64,
)
    ensures
        e.all_settled(payouts, ts_ns).observed_trades == e.observed_trades,
    decreases payouts.len(),
{
    if payouts.len() > 0 {
        lemma_settling_observes_nothing(e, payouts.drop_last(), ts_ns);
    }
}

proof fn lemma_finishing_observes_nothing<N: Analytic>(e: EngineView<N>, flatten: bool)
    ensures
        e.finished(flatten).observed_trades == e.observed_trades,
{
    lemma_asking_observes_nothing(
        e.with_ctx(CtxView { pending: Seq::empty(), ..e.ctx }),
        e.ctx.pending,
    );
    let c = e.drained().all_cancels_done();
    assert(c.observed_trades == e.observed_trades);
    lemma_resolving_observes_nothing(
        EngineView { pending_limit: Seq::empty(), ..c },
        c.pending_limit,
    );
    let l = c.all_limits_done();
    assert(l.observed_trades == e.observed_trades);
    lemma_taking_observes_nothing(
        EngineView { pending_market: Seq::empty(), ..l },
        l.pending_market,
    );
    let m = l.all_markets_done().rewards_seen();
    assert(m.observed_trades == e.observed_trades);
    lemma_settling_observes_nothing(
        m,
        known_payouts(open_positions(m.ctx.portfolio.positions), m.settlement),
        m.end_time(),
    );
    let s = m.settled();
    assert(s.observed_trades == e.observed_trades);
    lemma_flattening_observes_nothing(s, open_positions(s.ctx.portfolio.positions));
    let f = s.all_flattened(open_positions(s.ctx.portfolio.positions));
    lemma_taking_observes_nothing(
        EngineView { pending_market: Seq::empty(), ..f },
        f.pending_market,
    );
}

/// The end of a run adds no trade to those that were observed.
pub proof fn law_ends_observe_the_trades<N: Analytic, S: Strategy<N>>(
    start: EngineView<N>,
    strat: S,
    events: Seq<EventView<N>>,
    flatten: bool,
    end: EngineView<N>,
    later: S,
)
    requires
        can_end(start, strat, events, flatten, end, later),
    ensures
        end.observed_trades == start.observed_trades + trades_among(events),
{
    let (last, between) = choose|last: EngineView<N>, between: S| #[trigger]
        start.runs_to(strat, events, last, between) && last.finishes_to(
            between,
            flatten,
            end,
            later,
        );
    law_trades_are_observed(start, strat, events, last, between);
    let c = choose|c: CtxView<N>| #[trigger]
        between.can_close(last.ctx, later, c) && last.ctx.asked(c) && end == last.with_ctx(
            c,
        ).finished(flatten);
    lemma_finishing_observes_nothing(last.with_ctx(c), flatten);
}

/// The settings and the files decide a new engine.
pub proof fn law_new_engines_are_equal<N: Analytic>(
    cfg: BacktestConfig<N>,
    files: FilesView,
    a: EngineView<N>,
    b: EngineView<N>,
)
    requires
        opened(cfg, files, a),
        opened(cfg, files, b),
    ensures
        a == b,
{
}

/// An engine was driven one event at a time: these are its states, and those of its strategy,
/// before each event and after the last one. Each event is dealt with, and the equity recorded if
/// that is due.
pub open spec fn driven<N: Analytic, S: Strategy<N>>(
    states: Seq<EngineView<N>>,
    strats: Seq<S>,
    events: Seq<EventView<N>>,
) -> bool {
    &&& states.len() == events.len() + 1
    &&& strats.len() == events.len() + 1
    &&& forall|i: int|
        #![trigger events[i]]
        0 <= i < events.len() ==> states[i].advances_to(
            strats[i],
            events[i],
            states[i + 1],
            strats[i + 1],
        )
}

/// To deal with an event and then record the equity, if that is due at the time of the event, is one
/// step of driving an engine.
pub proof fn law_step_and_record_is_driving<N: Analytic, S: Strategy<N>>(
    e: EngineView<N>,
    strat: S,
    ev: EventView<N>,
    next: EngineView<N>,
    later: S,
)
    requires
        e.steps_to(strat, ev, next, later),
    ensures
        e.advances_to(strat, ev, next.snapshot_taken(next.ctx.cur_ts), later),
{
    reveal(EngineView::advances_to);
}

/// To drive an engine one event at a time is to run it over all of them.
pub proof fn law_driving_is_running<N: Analytic, S: Strategy<N>>(
    states: Seq<EngineView<N>>,
    strats: Seq<S>,
    events: Seq<EventView<N>>,
)
    requires
        driven(states, strats, events),
    ensures
        states.first().runs_to(strats.first(), events, states.last(), strats.last()),
    decreases events.len(),
{
    if events.len() > 0 {
        let n = events.len() - 1;
        let s = states.drop_last();
        let t = strats.drop_last();
        assert forall|i: int|
            #![trigger events.drop_last()[i]]
            0 <= i < n implies s[i].advances_to(
            t[i],
            events.drop_last()[i],
            s[i + 1],
            t[i + 1],
        ) by {
            assert(events.drop_last()[i] == events[i]);
        }
        law_driving_is_running(s, t, events.drop_last());
        assert(events[n] == events.last());
        lemma_run_goes_on(
            states.first(),
            strats.first(),
            events,
            s.last(),
            t.last(),
            states.last(),
            strats.last(),
        );
    }
}

/// A run over all events at once and one that is fed event by event come to the same: from new
/// engines with the same settings and files, and with a strategy that does the same whenever it
/// sees the same, they end in the same state, with the same account and the same report, and have
/// observed the trades among the events.
pub proof fn law_batch_equals_step_by_step<N: Analytic, S: Strategy<N>>(
    cfg: BacktestConfig<N>,
    files: FilesView,
    events: Seq<EventView<N>>,
    strat: S,
    start: EngineView<N>,
    end: EngineView<N>,
    later: S,
    out: RunOutput<N>,
    states: Seq<EngineView<N>>,
    strats: Seq<S>,
    stepped_end: EngineView<N>,
    stepped_later: S,
    stepped_out: RunOutput<N>,
)
    requires
        deterministic::<N, S>(),
        opened(cfg, files, start),
        can_end(start, strat, events, cfg.flatten_at_end, end, later),
        out.shows(end, later.label(), cfg),
        driven(states, strats, events),
        opened(cfg, files, states.first()),
        strats.first() == strat,
        states.last().finishes_to(strats.last(), cfg.flatten_at_end, stepped_end, stepped_later),
        stepped_out.shows(stepped_end, stepped_later.label(), cfg),
    ensures
        end == stepped_end,
        later == stepped_later,
        out.portfolio@ == stepped_out.portfolio@,
        alike(out.report, stepped_out.report),
        trade_views(out.observed_trades@) == trades_among(events),
        trade_views(stepped_out.observed_trades@) == trades_among(events),
{
    law_new_engines_are_equal(cfg, files, start, states.first());
    law_driving_is_running(states, strats, events);
    assert(can_end(start, strat, events, cfg.flatten_at_end, stepped_end, stepped_later));
    law_ends_are_reproducible(
        start,
        strat,
        events,
        cfg.flatten_at_end,
        end,
        later,
        stepped_end,
        stepped_later,
    );
    law_ends_observe_the_trades(start, strat, events, cfg.flatten_at_end, end, later);
    assert(start.observed_trades + trades_among(events) =~= trades_among(events));
    law_accounts_decide_reports(
        out.report,
        stepped_out.report,
        later.label(),
        end.ctx.portfolio,
        cfg,
    );
}

proof fn lemma_without_orders<N>(resting: Seq<RestingView<N>>, ids: Seq<u64>)
    ensures
        without_orders(resting, ids) == resting.filter(|o: RestingView<N>| !ids.contains(o.id)),
    decreases resting.len(),
{
    reveal(Seq::filter);
    if resting.len() > 0 {
        lemma_without_orders(resting.drop_last(), ids);
    } else {
        assert(without_orders(resting, ids) =~= resting.filter(
            |o: RestingView<N>| !ids.contains(o.id),
        ));
    }
}

proof fn lemma_filtered_out<N>(resting: Seq<RestingView<N>>, keep: spec_fn(RestingView<N>) -> bool)
    ensures
        forall|i: int| 0 <= i < resting.filter(keep).len() ==> keep(#[trigger] resting.filter(keep)[i]),
        forall|i: int|
            0 <= i < resting.filter(keep).len() ==> resting.contains(
                #[trigger] resting.filter(keep)[i],
            ),
    decreases resting.len(),
{
    reveal(Seq::filter);
    if resting.len() > 0 {
        let rest = resting.drop_last();
        lemma_filtered_out(rest, keep);
        assert forall|i: int| 0 <= i < resting.filter(keep).len() implies resting.contains(
            #[trigger] resting.filter(keep)[i],
        ) by {
            if i < rest.filter(keep).len() {
                let o = rest.filter(keep)[i];
                assert(rest.contains(o));
                let j = choose|j: int| 0 <= j < rest.len() && rest[j] == o;
                assert(resting[j] == o);
            } else {
                assert(resting[resting.len() - 1] == resting.last());
            }
        }
    }
}

/// A cancel that takes effect at once takes its order away, and nothing else: no order of that number
/// rests any more, and all others rest as they did, in the same order.
pub proof fn law_cancelled_orders_are_gone<N: Analytic>(e: EngineView<N>, order_id: u64)
    requires
        !e.latency.enabled,
    ensures
        ({
            let after = e.applied(ActionView::Cancel { order_id });
            &&& forall|i: int|
                0 <= i < after.ctx.resting.len() ==> (#[trigger] after.ctx.resting[i]).id
                    != order_id
            &&& after.ctx.resting == e.ctx.resting.filter(
                |o: RestingView<N>| o.id != order_id,
            )
            &&& after == (EngineView {
                ctx: CtxView { resting: after.ctx.resting, ..e.ctx },
                ..e
            })
        }),
{
    let ids = seq![order_id];
    lemma_without_orders(e.ctx.resting, ids);
    let keep = |o: RestingView<N>| o.id != order_id;
    assert forall|o: RestingView<N>| !ids.contains(o.id) == keep(o) by {
        assert(ids[0] == order_id);
    }
    assert((|o: RestingView<N>| !ids.contains(o.id)) =~= keep);
    lemma_filtered_out(e.ctx.resting, keep);
}

/// What a cancel that was asked for last in an event leaves at the end of the event: no order of that
/// number rests.
pub proof fn law_cancelled_orders_are_gone_after_the_event<N: Analytic>(
    e: EngineView<N>,
    order_id: u64,
)
    requires
        !e.latency.enabled,
        e.ctx.pending.len() > 0,
        e.ctx.pending.last() == (ActionView::<N>::Cancel { order_id }),
    ensures
        forall|i: int|
            0 <= i < e.ended().ctx.resting.len() ==> (#[trigger] e.ended().ctx.resting[i]).id
                != order_id,
{
    let start = e.with_ctx(CtxView { pending: Seq::empty(), ..e.ctx });
    let before = start.all_applied(e.ctx.pending.drop_last());
    lemma_asking_keeps_delays(start, e.ctx.pending.drop_last());
    law_cancelled_orders_are_gone(before, order_id);
    let d = e.drained();
    assert(d == before.applied(ActionView::Cancel { order_id }));
    if !(d.halted || d.risk.equity_floor is None && d.risk.max_drawdown_pct is None) {
        let equity = d.ctx.portfolio.net_worth(d.ctx.books);
        let s = EngineView {
            equity_peak: if d.equity_peak.below(equity) {
                equity
            } else {
                d.equity_peak
            },
            ..d
        };
        if let Some(reason) = s.breach(equity) {
            law_halting_clears(s, reason);
        }
    }
}

proof fn lemma_asking_keeps_delays<N: Analytic>(e: EngineView<N>, actions: Seq<ActionView<N>>)
    ensures
        e.all_applied(actions).latency.enabled == e.latency.enabled,
    decreases actions.len(),
{
    if actions.len() > 0 {
        lemma_asking_keeps_delays(e, actions.drop_last());
    }
}

/// With delays a cancel is on its way for as long as cancels take; the order rests until then.
pub proof fn law_cancels_take_their_time<N: Analytic>(e: EngineView<N>, order_id: u64)
    requires
        e.latency.enabled,
        0 <= e.latency.cancel_latency_ns,
        e.ctx.cur_ts + e.latency.cancel_latency_ns <= i64::MAX,
    ensures
        ({
            let after = e.applied(ActionView::Cancel { order_id });
            &&& after.ctx == e.ctx
            &&& after.pending_cancels.len() == e.pending_cancels.len() + 1
            &&& after.pending_cancels.drop_last() == e.pending_cancels
            &&& after.pending_cancels.last().order_id == order_id
            &&& after.pending_cancels.last().effective_ts == e.ctx.cur_ts
                + e.latency.cancel_latency_ns
        }),
{
    let after = e.applied(ActionView::Cancel { order_id });
    assert(after.pending_cancels.drop_last() =~= e.pending_cancels);
}

/// A cancel of an order is due at a time.
pub open spec fn cancel_due(cancels: Seq<PendingCancel>, now: i64, order_id: u64) -> bool {
    exists|i: int|
        0 <= i < cancels.len() && (#[trigger] cancels[i]).order_id == order_id
            && cancels[i].effective_ts <= now
}

proof fn lemma_cancelled_by(cancels: Seq<PendingCancel>, now: i64, order_id: u64)
    ensures
        cancelled_by(cancels, now).contains(order_id) <==> cancel_due(cancels, now, order_id),
    decreases cancels.len(),
{
    if cancels.len() > 0 {
        let rest = cancels.drop_last();
        let before = cancelled_by(rest, now);
        let all = cancelled_by(cancels, now);
        lemma_cancelled_by(rest, now, order_id);
        if cancel_due(cancels, now, order_id) {
            let i = choose|i: int|
                0 <= i < cancels.len() && (#[trigger] cancels[i]).order_id == order_id
                    && cancels[i].effective_ts <= now;
            if i < rest.len() {
                assert(rest[i] == cancels[i]);
                let j = choose|j: int| 0 <= j < before.len() && before[j] == order_id;
                assert(all[j] == order_id);
            } else {
                assert(all[all.len() - 1] == order_id);
            }
        }
        if all.contains(order_id) {
            let j = choose|j: int| 0 <= j < all.len() && all[j] == order_id;
            if j < before.len() {
                assert(before[j] == order_id);
                let i = choose|i: int|
                    0 <= i < rest.len() && (#[trigger] rest[i]).order_id == order_id
                        && rest[i].effective_ts <= now;
                assert(cancels[i] == rest[i]);
            } else {
                assert(cancels[cancels.len() - 1] == cancels.last());
            }
        }
    }
}

/// When an event comes, the cancels that are due by its time take their orders away and those that
/// are not leave theirs: an order still rests exactly where none of its cancels is due, as it did and
/// in the same order.
pub proof fn law_due_cancels_take_effect<N: Analytic>(e: EngineView<N>)
    ensures
        e.cancels_done().ctx.resting == e.ctx.resting.filter(
            |o: RestingView<N>| !cancel_due(e.pending_cancels, e.ctx.cur_ts, o.id),
        ),
        forall|i: int|
            0 <= i < e.cancels_done().ctx.resting.len() ==> !cancel_due(
                e.pending_cancels,
                e.ctx.cur_ts,
                (#[trigger] e.cancels_done().ctx.resting[i]).id,
            ),
{
    let now = e.ctx.cur_ts;
    let ids = cancelled_by(e.pending_cancels, now);
    lemma_without_orders(e.ctx.resting, ids);
    let keep = |o: RestingView<N>| !cancel_due(e.pending_cancels, now, o.id);
    assert forall|o: RestingView<N>| (!ids.contains(o.id)) == keep(o) by {
        lemma_cancelled_by(e.pending_cancels, now, o.id);
    }
    assert((|o: RestingView<N>| !ids.contains(o.id)) =~= keep);
    lemma_filtered_out(e.ctx.resting, keep);
}

/// No order rests under a number.
pub open spec fn none_rests<N>(resting: Seq<RestingView<N>>, order_id: u64) -> bool {
    forall|i: int| 0 <= i < resting.len() ==> (#[trigger] resting[i]).id != order_id
}

proof fn lemma_resolving_rests_its_own<N: Analytic>(
    e: EngineView<N>,
    orders: Seq<LimitView<N>>,
    order_id: u64,
)
    requires
        none_rests(e.ctx.resting, order_id),
        forall|i: int| 0 <= i < orders.len() ==> (#[trigger] orders[i]).order_id != order_id,
    ensures
        none_rests(e.all_resolved(orders).ctx.resting, order_id),
    decreases orders.len(),
{
    if orders.len() > 0 {
        let rest = orders.drop_last();
        assert forall|i: int| 0 <= i < rest.len() implies (#[trigger] rest[i]).order_id
            != order_id by {
            assert(rest[i] == orders[i]);
        }
        assert(orders[orders.len() - 1] == orders.last());
        lemma_resolving_rests_its_own(e, rest, order_id);
    }
}

proof fn lemma_taking_rests_nothing<N: Analytic>(e: EngineView<N>, orders: Seq<MarketView<N>>)
    ensures
        e.all_taken(orders).ctx.resting == e.ctx.resting,
    decreases orders.len(),
{
    if orders.len() > 0 {
        lemma_taking_rests_nothing(e, orders.drop_last());
    }
}

proof fn lemma_split_keeps<N>(orders: Seq<LimitView<N>>, now: i64, arrived: bool, order_id: u64)
    requires
        forall|i: int| 0 <= i < orders.len() ==> (#[trigger] orders[i]).order_id != order_id,
    ensures
        forall|i: int|
            0 <= i < limits_split(orders, now, arrived).len() ==> (#[trigger] limits_split(
                orders,
                now,
                arrived,
            )[i]).order_id != order_id,
    decreases orders.len(),
{
    if orders.len() > 0 {
        let rest = orders.drop_last();
        assert forall|i: int| 0 <= i < rest.len() implies (#[trigger] rest[i]).order_id
            != order_id by {
            assert(rest[i] == orders[i]);
        }
        assert(orders[orders.len() - 1] == orders.last());
        lemma_split_keeps(rest, now, arrived, order_id);
    }
}

proof fn lemma_unfilled_keeps<N: Number>(resting: Seq<RestingView<N>>, order_id: u64)
    requires
        none_rests(resting, order_id),
    ensures
        none_rests(unfilled(resting), order_id),
    decreases resting.len(),
{
    if resting.len() > 0 {
        let rest = resting.drop_last();
        assert forall|i: int| 0 <= i < rest.len() implies (#[trigger] rest[i]).id != order_id by {
            assert(rest[i] == resting[i]);
        }
        assert(resting[resting.len() - 1] == resting.last());
        lemma_unfilled_keeps(rest, order_id);
    }
}

proof fn lemma_event_rests_nothing<N: Analytic>(e: EngineView<N>, ev: EventView<N>, order_id: u64)
    requires
        none_rests(e.ctx.resting, order_id),
    ensures
        match ev {
            EventView::Delta(d) => none_rests(e.delta_applied(d).rewards_seen().ctx.resting, order_id),
            EventView::Trade(t) => none_rests(e.trade_matched(t).rewards_seen().ctx.resting, order_id),
        },
{
    match ev {
        EventView::Delta(d) => {
            let after = e.delta_applied(d).ctx.resting;
            assert forall|i: int| 0 <= i < after.len() implies (#[trigger] after[i]).id
                != order_id by {
                assert(e.ctx.resting[i].id != order_id);
            }
        },
        EventView::Trade(t) => {
            let now = e.ctx.cur_ts;
            let met = e.ctx.resting.map_values(|o: RestingView<N>| order_after(o, t, now));
            assert forall|i: int| 0 <= i < met.len() implies (#[trigger] met[i]).id != order_id by {
                assert(e.ctx.resting[i].id != order_id);
            }
            lemma_unfilled_keeps(met, order_id);
        },
    }
}

/// An order whose cancel is due by the time of an event does not rest when the event has come, and so
/// no trade fills it: it is gone before the event is looked at.
pub proof fn law_cancelled_orders_meet_no_event<N: Analytic>(
    e: EngineView<N>,
    ev: EventView<N>,
    order_id: u64,
)
    requires
        cancel_due(e.pending_cancels, ev.ts(), order_id),
        forall|i: int|
            0 <= i < e.pending_limit.len() ==> (#[trigger] e.pending_limit[i]).order_id
                != order_id,
    ensures
        none_rests(e.begun(ev).ctx.resting, order_id),
{
    let now = e.with_ctx(CtxView { cur_ts: ev.ts(), ..e.ctx });
    law_due_cancels_take_effect(now);
    let c = now.cancels_done();
    assert(none_rests(c.ctx.resting, order_id));
    let t = c.ctx.cur_ts;
    lemma_split_keeps(c.pending_limit, t, true, order_id);
    lemma_resolving_rests_its_own(
        EngineView { pending_limit: limits_split(c.pending_limit, t, false), ..c },
        limits_split(c.pending_limit, t, true),
        order_id,
    );
    let l = c.limits_done();
    lemma_taking_rests_nothing(
        EngineView {
            pending_market: markets_split(l.pending_market, l.ctx.cur_ts, false),
            ..l
        },
        markets_split(l.pending_market, l.ctx.cur_ts, true),
    );
    lemma_event_rests_nothing(l.markets_done(), ev, order_id);
}

/// At the end of a run all cancels take effect, due or not.
pub proof fn law_all_cancels_take_effect<N: Analytic>(e: EngineView<N>, order_id: u64)
    requires
        exists|i: int|
            0 <= i < e.pending_cancels.len() && (#[trigger] e.pending_cancels[i]).order_id
                == order_id,
    ensures
        none_rests(e.all_cancels_done().ctx.resting, order_id),
{
    let ids = cancelled_by(e.pending_cancels, i64::MAX);
    let i = choose|i: int|
        0 <= i < e.pending_cancels.len() && (#[trigger] e.pending_cancels[i]).order_id == order_id;
    assert(e.pending_cancels[i].effective_ts <= i64::MAX);
    lemma_cancelled_by(e.pending_cancels, i64::MAX, order_id);
    lemma_without_orders(e.ctx.resting, ids);
    let keep = |o: RestingView<N>| !ids.contains(o.id);
    lemma_filtered_out(e.ctx.resting, keep);
}

} // verus!
