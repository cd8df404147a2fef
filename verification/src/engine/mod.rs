//! The engine: events in, orders and fills out.
//!
//! For every event, in this order: cancels that are due take effect, and orders that have arrived
//! are dealt with, in the book as it stood before the event; the event changes the book or is
//! matched with resting orders; rewards are counted; the strategy is called; what it asked for is
//! sent; and the limits on equity are looked at.
//!
//! An order takes time to arrive. A resting order is matched by no trade before that; an order
//! that takes does so in the book of the first event at or after that. Without delays both happen
//! during the event in which the order was asked for.
pub mod laws;
pub mod order_laws;
pub mod state;

use crate::config::{BacktestConfig, QueueModel, RiskConfig};
use crate::event_curves::EventCurves;
use crate::execution::{
    execute_market_bounded, match_resting_against_trade, resting_views, RestingOrder, RestingView,
};
use crate::fees::FeeModel;
use crate::latency::{LatencyModel, LatencyView};
use crate::number::Analytic;
use crate::orderbook::BookSet;
use crate::portfolio::{tiny, Portfolio, PortfolioView};
use crate::report::{build_report, reports};
use crate::rewards::{quote_state_from_resting, QuoteState, RewardsModel};
use crate::settlement::{Outcome, SettlementMap};
use crate::slippage::SlippageModel;
use crate::strategy::{action_views, ActionView, Ctx, CtxView, EngineAction, Strategy};
use crate::strmap::entry;
use crate::text::same_text;
use crate::types::{
    event_views, fill_views, trade_views, BookDelta, Cents, Fill, FillView, Liquidity, MarketEvent,
    OrderView, Report, Side, Tif, TradeEvent, TradeView, EventView,
};
use state::{
    all_moved_up, cancelled_by, cancels_after, crossing_qty, depth_within, gross, known_payouts,
    level_size_of, limit_views, limits_split, maker_fills, market_views, markets_split, moved_up,
    open_positions, order_after, quotes_in, strongest, unfilled, with_fills, without_orders,
    EngineView, LimitView, MarketView, PendingCancel, PendingLimit, PendingMarket,
};
use vstd::prelude::*;

verus! {

/// The engine.
#[derive(Debug)]
pub struct Engine<N> {
    /// The state of the market and the account, as the strategy sees it.
    pub ctx: Ctx<N>,
    pub pending_cancels: Vec<PendingCancel>,
    pub pending_market: Vec<PendingMarket<N>>,
    pub pending_limit: Vec<PendingLimit<N>>,
    pub queue_model: QueueModel,
    pub fees: FeeModel<N>,
    pub latency: LatencyModel,
    pub slippage: SlippageModel<N>,
    pub rewards: RewardsModel<N>,
    /// Whether rewards go to the cash at the end.
    pub include_rewards: bool,
    pub reward_band_cents: i32,
    pub next_order_id: u64,
    pub observed_trades: Vec<TradeEvent<N>>,
    pub risk: RiskConfig<N>,
    /// Whether a limit on equity was broken. No order is sent from then on.
    pub halted: bool,
    pub equity_peak: N,
    pub risk_rejections: i64,
    pub settlement: SettlementMap,
}

impl<N: Analytic> View for Engine<N> {
    type V = EngineView<N>;

    open spec fn view(&self) -> EngineView<N> {
        EngineView {
            ctx: self.ctx@,
            pending_cancels: self.pending_cancels@,
            pending_market: market_views(self.pending_market@),
            pending_limit: limit_views(self.pending_limit@),
            queue_model: self.queue_model,
            fees: self.fees,
            latency: self.latency@,
            slippage: self.slippage,
            rewards: self.rewards,
            include_rewards: self.include_rewards,
            reward_band_cents: self.reward_band_cents,
            next_order_id: self.next_order_id,
            observed_trades: trade_views(self.observed_trades@),
            risk: self.risk,
            halted: self.halted,
            equity_peak: self.equity_peak,
            risk_rejections: self.risk_rejections,
            settlement: self.settlement@,
        }
    }
}

/// What a finished run has led to.
#[derive(Debug)]
pub struct RunOutput<N> {
    pub report: Report<N>,
    /// The account at the end.
    pub portfolio: Portfolio<N>,
    /// The trades among the events.
    pub observed_trades: Vec<TradeEvent<N>>,
}

impl<N: Analytic> RunOutput<N> {
    /// The output of a run that has ended in a state.
    pub open spec fn shows(self, end: EngineView<N>, name: Seq<char>, cfg: BacktestConfig<N>) -> bool {
        &&& self.portfolio@ == end.ctx.portfolio
        &&& trade_views(self.observed_trades@) == end.observed_trades
        &&& reports(self.report, name, end.ctx.portfolio, cfg)
    }
}

/// A run of a strategy over some events can lead to an end, and make the strategy `later`.
pub open spec fn can_end<N: Analytic, S: Strategy<N>>(
    start: EngineView<N>,
    strat: S,
    events: Seq<EventView<N>>,
    flatten: bool,
    end: EngineView<N>,
    later: S,
) -> bool {
    exists|last: EngineView<N>, between: S| #[trigger]
        start.runs_to(strat, events, last, between) && last.finishes_to(between, flatten, end, later)
}

/// Texts with numbers, as contracts speak of them.
pub open spec fn pairs<N>(v: Seq<(String, N)>) -> Seq<(Seq<char>, N)> {
    v.map_values(|e: (String, N)| (e.0@, e.1))
}

fn copy_samples(samples: &Vec<i64>) -> (r: Vec<i64>)
    ensures
        r@ == samples@,
{
    let n: usize = samples.len();
    let mut out: Vec<i64> = Vec::new();
    let mut i: usize = 0;
    while i < n
        invariant
            i <= n,
            n == samples@.len(),
            out@ == samples@.take(i as int),
        decreases n - i,
    {
        out.push(samples[i]);
        assert(samples@.take(i + 1) =~= samples@.take(i as int).push(samples@[i as int]));
        i += 1;
    }
    assert(samples@.take(n as int) =~= samples@);
    out
}

fn holds(ids: &Vec<u64>, id: u64) -> (r: bool)
    ensures
        r == ids@.contains(id),
{
    let n: usize = ids.len();
    let mut i: usize = 0;
    while i < n
        invariant
            i <= n,
            n == ids@.len(),
            forall|j: int| 0 <= j < i ==> ids@[j] != id,
        decreases n - i,
    {
        if ids[i] == id {
            return true;
        }
        i += 1;
    }
    false
}

/// What the files that the settings name hold.
#[derive(Debug, PartialEq)]
pub struct RunFiles {
    /// Measured delays.
    pub samples: Vec<i64>,
    /// Outcomes that are known.
    pub outcomes: SettlementMap,
}

/// What the files that the settings name hold.
#[verifier::ext_equal]
pub struct FilesView {
    pub samples: Seq<i64>,
    pub outcomes: Seq<(Seq<char>, Outcome)>,
}

impl View for RunFiles {
    type V = FilesView;

    open spec fn view(&self) -> FilesView {
        FilesView { samples: self.samples@, outcomes: self.outcomes@ }
    }
}

impl RunFiles {
    /// No file.
    pub fn none() -> (r: RunFiles)
        ensures
            r@ == (FilesView { samples: Seq::empty(), outcomes: Seq::empty() }),
    {
        RunFiles { samples: Vec::new(), outcomes: SettlementMap::new() }
    }
}

/// A new engine: an account with the starting balance, what the files hold, and nothing else.
pub open spec fn opened<N: Analytic>(
    cfg: BacktestConfig<N>,
    files: FilesView,
    e: EngineView<N>,
) -> bool {
    &&& e.ctx == (CtxView {
        books: Seq::empty(),
        portfolio: PortfolioView {
            include_fees: cfg.execution.include_fees,
            ..PortfolioView::opening(cfg.starting_balance, cfg.currency@, cfg.equity_snapshot_secs)
        },
        resting: Seq::empty(),
        pending: Seq::empty(),
        cur_ts: 0,
        curves: Seq::empty(),
    })
    &&& e.pending_cancels == Seq::<PendingCancel>::empty()
    &&& e.pending_market == Seq::<MarketView<N>>::empty()
    &&& e.pending_limit == Seq::<LimitView<N>>::empty()
    &&& e.queue_model == cfg.execution.queue.model
    &&& e.fees == FeeModel::of_config(cfg)
    &&& e.latency == LatencyView::of_config(cfg.execution.latency, files.samples)
    &&& e.slippage == SlippageModel::of_config(cfg.execution.slippage)
    &&& e.rewards == RewardsModel::of_config(cfg.execution.rewards)
    &&& e.include_rewards == cfg.execution.include_rewards
    &&& e.reward_band_cents == cfg.execution.rewards.max_spread_cents
    &&& e.next_order_id == 1
    &&& e.observed_trades == Seq::<TradeView<N>>::empty()
    &&& e.risk == cfg.execution.risk
    &&& !e.halted
    &&& e.equity_peak == cfg.starting_balance
    &&& e.risk_rejections == 0
    &&& e.settlement == files.outcomes
}

impl<N: Analytic> Engine<N> {
    /// A new engine without files: delays that are drawn from a list are fixed, and no outcome is
    /// known.
    pub fn new(cfg: &BacktestConfig<N>) -> (r: Engine<N>)
        ensures
            opened(*cfg, (FilesView { samples: Seq::empty(), outcomes: Seq::empty() }), r@),
            r@.sound(),
    {
        let files = RunFiles::none();
        Engine::with_files(cfg, &files)
    }

    /// A new engine. It draws delays from the measured ones where the settings ask for it.
    pub fn with_files(cfg: &BacktestConfig<N>, files: &RunFiles) -> (r: Engine<N>)
        ensures
            opened(*cfg, files@, r@),
            r@.sound(),
    {
        let mut portfolio = Portfolio::new(
            cfg.starting_balance,
            cfg.currency.clone(),
            cfg.equity_snapshot_secs,
        );
        portfolio.include_fees = cfg.execution.include_fees;
        let ctx = Ctx {
            books: BookSet::new(),
            portfolio,
            resting: Vec::new(),
            pending: Vec::new(),
            cur_ts: 0,
            curves: EventCurves::new(),
        };
        let r = Engine {
            ctx,
            pending_cancels: Vec::new(),
            pending_market: Vec::new(),
            pending_limit: Vec::new(),
            queue_model: cfg.execution.queue.model,
            fees: FeeModel::from_config(cfg),
            latency: LatencyModel::from_config(&cfg.execution.latency, copy_samples(&files.samples)),
            slippage: SlippageModel::from_config(&cfg.execution.slippage),
            rewards: RewardsModel::from_config(&cfg.execution.rewards),
            include_rewards: cfg.execution.include_rewards,
            reward_band_cents: cfg.execution.rewards.max_spread_cents,
            next_order_id: 1,
            observed_trades: Vec::new(),
            risk: cfg.execution.risk,
            halted: false,
            equity_peak: cfg.starting_balance,
            risk_rejections: 0,
            settlement: files.outcomes.copy(),
        };
        proof {
            assert(r@.ctx.resting =~= Seq::<RestingView<N>>::empty());
            assert(r@.ctx.pending =~= Seq::<ActionView<N>>::empty());
            assert(r@.pending_market =~= Seq::<MarketView<N>>::empty());
            assert(r@.pending_limit =~= Seq::<LimitView<N>>::empty());
            assert(r@.observed_trades =~= Seq::<TradeView<N>>::empty());
        }
        r
    }

    /// Makes outcomes known.
    pub fn set_settlement_map(&mut self, map: SettlementMap)
        ensures
            final(self)@ == (EngineView { settlement: map@, ..old(self)@ }),
    {
        self.settlement = map;
    }

    /// Runs over events, in their order, and returns the report alone.
    pub fn run<S: Strategy<N>>(
        self,
        events: &[MarketEvent<N>],
        strat: &mut S,
        cfg: &BacktestConfig<N>,
    ) -> (r: Report<N>)
        requires
            self@.sound(),
        ensures
            exists|end: EngineView<N>| #[trigger]
                can_end(
                    self@,
                    *old(strat),
                    event_views(events@),
                    cfg.flatten_at_end,
                    end,
                    *final(strat),
                ) && reports(
                    r,
                    final(strat).label(),
                    end.ctx.portfolio,
                    *cfg,
                ),
    {
        let out = self.run_collecting(events, strat, cfg);
        out.report
    }

    /// Runs over events, in their order: each one is dealt with, and the equity recorded if that
    /// is due. Then ends the run.
    pub fn run_collecting<S: Strategy<N>>(
        self,
        events: &[MarketEvent<N>],
        strat: &mut S,
        cfg: &BacktestConfig<N>,
    ) -> (r: RunOutput<N>)
        requires
            self@.sound(),
        ensures
            exists|end: EngineView<N>| #[trigger]
                can_end(
                    self@,
                    *old(strat),
                    event_views(events@),
                    cfg.flatten_at_end,
                    end,
                    *final(strat),
                ) && r.shows(
                    end,
                    final(strat).label(),
                    *cfg,
                ),
    {
        let mut engine = self;
        let ghost start = self@;
        let ghost first = *strat;
        let ghost all = event_views(events@);
        let n: usize = events.len();
        let mut i: usize = 0;
        proof {
            assert(all.take(0).len() == 0);
        }
        while i < n
            invariant
                i <= n,
                n == events@.len(),
                all == event_views(events@),
                engine@.sound(),
                start.runs_to(first, all.take(i as int), engine@, *strat),
            decreases n - i,
        {
            let ghost before = engine@;
            let ghost earlier = *strat;
            proof {
                assert(all.take(i + 1).drop_last() =~= all.take(i as int));
                assert(all.take(i + 1).last() == events@[i as int]@);
            }
            engine.step(&events[i], strat);
            let ghost mid = engine@;
            let now: i64 = engine.now_ns();
            engine.snapshot_maybe(now);
            proof {
                reveal(EngineView::advances_to);
                assert(before.steps_to(earlier, events@[i as int]@, mid, *strat));
                assert(before.advances_to(earlier, events@[i as int]@, engine@, *strat));
                assert(start.runs_to(first, all.take(i + 1).drop_last(), before, earlier));
            }
            i += 1;
        }
        let ghost last = engine@;
        let ghost between = *strat;
        proof {
            assert(all.take(n as int) =~= all);
        }
        engine.finalize(strat, cfg.flatten_at_end);
        let ghost end = engine@;
        proof {
            assert(start.runs_to(first, all, last, between));
            assert(can_end(start, first, all, cfg.flatten_at_end, end, *strat));
        }
        let name = strat.name();
        engine.into_report(name.as_str(), cfg)
    }

    /// The output of the run as it stands.
    pub fn into_report(self, plugin_name: &str, cfg: &BacktestConfig<N>) -> (r: RunOutput<N>)
        ensures
            r.shows(self@, plugin_name@, *cfg),
    {
        let report = build_report(plugin_name, &self.ctx.portfolio, cfg);
        RunOutput {
            report,
            portfolio: self.ctx.portfolio,
            observed_trades: self.observed_trades,
        }
    }

    /// Deals with one event. Records no equity.
    pub fn step<S: Strategy<N>>(&mut self, ev: &MarketEvent<N>, strat: &mut S)
        requires
            old(self)@.sound(),
        ensures
            old(self)@.steps_to(*old(strat), ev@, final(self)@, *final(strat)),
            final(self)@.sound(),
    {
        self.begin_step(ev);
        let ghost b = self@;
        let ghost before = *strat;
        strat.on_event(ev, &mut self.ctx);
        let ghost c = self.ctx@;
        proof {
            assert(before.can_react(ev@, b.ctx, *strat, c));
            assert(self@ =~= b.with_ctx(c));
        }
        self.end_step();
    }

    /// Deals with an event up to the point where the strategy is called.
    pub fn begin_step(&mut self, ev: &MarketEvent<N>)
        requires
            old(self)@.sound(),
        ensures
            final(self)@ == old(self)@.begun(ev@),
            final(self)@.sound(),
    {
        self.ctx.cur_ts = ev.ts_ns();
        self.process_due_cancels();
        self.resolve_due_limit_orders();
        self.execute_due_market_orders();
        match ev {
            MarketEvent::Delta(d) => self.apply_delta(d),
            MarketEvent::Trade(t) => self.match_trade(t),
        }
        self.accrue_rewards();
    }

    /// Deals with an event from the point where the strategy has returned.
    pub fn end_step(&mut self)
        ensures
            final(self)@ == old(self)@.ended(),
            final(self).rewards == old(self).rewards,
    {
        self.apply_pending();
        self.risk_check_and_maybe_halt();
    }

    /// Records the equity if that is due.
    pub fn snapshot_maybe(&mut self, now_ns: i64)
        ensures
            final(self)@ == old(self)@.snapshot_taken(now_ns),
            final(self).rewards == old(self).rewards,
    {
        self.ctx.portfolio.maybe_snapshot(now_ns, &self.ctx.books);
    }

    /// Records the equity, due or not, and returns it.
    pub fn snapshot_equity(&mut self, now_ns: i64) -> (r: N)
        ensures
            final(self)@ == old(self)@.with_portfolio(
                old(self)@.ctx.portfolio.recorded(
                    if now_ns < 1 {
                        1
                    } else {
                        now_ns
                    },
                    old(self)@.ctx.books,
                ),
            ),
            r == old(self)@.ctx.portfolio.net_worth(old(self)@.ctx.books),
    {
        let ts: i64 = if now_ns < 1 {
            1
        } else {
            now_ns
        };
        self.ctx.portfolio.force_snapshot(ts, &self.ctx.books);
        self.ctx.portfolio.equity(&self.ctx.books)
    }

    /// Ends the run: the strategy is called for the last time, orders on their way arrive,
    /// positions with a known outcome are settled, the others are closed if that is asked for, and
    /// the equity is recorded.
    pub fn finalize<S: Strategy<N>>(&mut self, strat: &mut S, flatten: bool)
        requires
            old(self)@.sound(),
        ensures
            old(self)@.finishes_to(*old(strat), flatten, final(self)@, *final(strat)),
    {
        let ghost before = self@;
        let ghost earlier = *strat;
        strat.on_finish(&mut self.ctx);
        let ghost c = self.ctx@;
        proof {
            assert(earlier.can_close(before.ctx, *strat, c));
            assert(self@ =~= before.with_ctx(c));
        }
        self.finish(flatten);
    }

    /// Ends the run from the point where the strategy has returned for the last time.
    pub fn finish(&mut self, flatten: bool)
        requires
            old(self)@.sound(),
        ensures
            final(self)@ == old(self)@.finished(flatten),
    {
        self.apply_pending();
        self.process_all_remaining_cancels();
        self.flush_all_pending_limit_orders();
        self.flush_all_pending_market_orders();
        self.accrue_rewards();
        self.settle_known_positions();
        if flatten {
            self.flatten_all();
            self.flush_all_pending_market_orders();
        }
        if self.rewards.is_active() {
            self.ctx.portfolio.set_liquidity_rewards(self.rewards.accrued(), self.include_rewards);
        }
        self.ctx.portfolio.risk_rejections = self.risk_rejections;
        let ts: i64 = self.last_time();
        self.ctx.portfolio.force_snapshot(ts, &self.ctx.books);
    }

    fn last_time(&self) -> (r: i64)
        ensures
            r == self@.end_time(),
    {
        if self.ctx.cur_ts < 1 {
            1
        } else {
            self.ctx.cur_ts
        }
    }

    /// The time of the last event.
    pub fn now_ns(&self) -> (r: i64)
        ensures
            r == self@.ctx.cur_ts,
    {
        self.ctx.cur_ts
    }

    /// The books.
    pub fn books(&self) -> (r: &BookSet<N>)
        ensures
            r@ == self@.ctx.books,
    {
        &self.ctx.books
    }

    /// The account.
    pub fn portfolio(&self) -> (r: &Portfolio<N>)
        ensures
            r@ == self@.ctx.portfolio,
    {
        &self.ctx.portfolio
    }

    /// The account, to be changed.
    pub fn portfolio_mut(&mut self) -> (r: &mut Portfolio<N>)
        ensures
            r@ == old(self)@.ctx.portfolio,
            final(self)@ == old(self)@.with_portfolio(final(r)@),
    {
        &mut self.ctx.portfolio
    }

    /// The rewards accrued so far.
    pub fn accrued_rewards(&self) -> (r: N)
        ensures
            r == self@.rewards.accrued,
    {
        self.rewards.accrued()
    }

    /// The orders that rest.
    pub fn resting_orders(&self) -> (r: Vec<OrderView<N>>)
        ensures
            r@ == self@.ctx.resting.map_values(
                |o: RestingView<N>| OrderView {
                    id: o.id,
                    side: o.side,
                    price: o.price,
                    remaining: o.remaining,
                },
            ),
    {
        let mut r: Vec<OrderView<N>> = Vec::new();
        let n: usize = self.ctx.resting.len();
        let mut i: usize = 0;
        while i < n
            invariant
                i <= n,
                n == self.ctx.resting@.len(),
                r@.len() == i,
                forall|j: int|
                    0 <= j < i ==> (#[trigger] r@[j]) == (OrderView {
                        id: self.ctx.resting@[j].id,
                        side: self.ctx.resting@[j].side,
                        price: self.ctx.resting@[j].price,
                        remaining: self.ctx.resting@[j].remaining,
                    }),
            decreases n - i,
        {
            let o = &self.ctx.resting[i];
            r.push(OrderView { id: o.id, side: o.side, price: o.price, remaining: o.remaining });
            i += 1;
        }
        proof {
            assert(r@ =~= self@.ctx.resting.map_values(
                |o: RestingView<N>| OrderView {
                    id: o.id,
                    side: o.side,
                    price: o.price,
                    remaining: o.remaining,
                },
            ));
        }
        r
    }

    /// Sets the time, if no event was dealt with yet.
    pub fn seed_clock(&mut self, ts_ns: i64)
        ensures
            final(self)@ == if old(self)@.ctx.cur_ts == 0 {
                old(self)@.with_ctx(CtxView { cur_ts: ts_ns, ..old(self)@.ctx })
            } else {
                old(self)@
            },
    {
        if self.ctx.cur_ts == 0 {
            self.ctx.cur_ts = ts_ns;
        }
    }

    fn apply_pending(&mut self)
        ensures
            final(self)@ == old(self)@.drained(),
            final(self).rewards == old(self).rewards,
    {
        let mut actions: Vec<EngineAction<N>> = Vec::new();
        std::mem::swap(&mut actions, &mut self.ctx.pending);
        let ghost all = action_views(actions@);
        let ghost start = self@;
        let ghost kept = self.rewards;
        proof {
            assert(self@.ctx.pending =~= Seq::<ActionView<N>>::empty());
            assert(start =~= old(self)@.with_ctx(
                CtxView { pending: Seq::empty(), ..old(self)@.ctx },
            ));
        }
        let n: usize = actions.len();
        let mut i: usize = 0;
        while i < n
            invariant
                i <= n,
                n == actions@.len(),
                all == action_views(actions@),
                self@ == start.all_applied(all.take(i as int)),
                self.rewards == kept,
            decreases n - i,
        {
            proof {
                assert(all.take(i + 1).drop_last() =~= all.take(i as int));
                assert(all.take(i + 1).last() == actions@[i as int]@);
            }
            self.apply_action(&actions[i]);
            i += 1;
        }
        proof {
            assert(all.take(n as int) =~= all);
        }
    }

    fn apply_action(&mut self, a: &EngineAction<N>)
        ensures
            final(self)@ == old(self)@.applied(a@),
            final(self).rewards == old(self).rewards,
    {
        match a {
            EngineAction::PlaceLimit { instrument, side, price, qty, tif, post_only } => {
                if let Some(q) = self.risk_clamp_order(instrument.as_str(), *side, *qty) {
                    self.submit_limit(instrument.as_str(), *side, *price, q, *tif, *post_only);
                }
            },
            EngineAction::PlaceMarket { instrument, side, qty } => {
                if let Some(q) = self.risk_clamp_order(instrument.as_str(), *side, *qty) {
                    self.do_market(instrument.as_str(), *side, q);
                }
            },
            EngineAction::Cancel { order_id } => {
                if self.latency.is_active() {
                    let effective_ts: i64 = self.latency.cancel_effective_ts(self.ctx.cur_ts);
                    self.pending_cancels.push(PendingCancel { order_id: *order_id, effective_ts });
                } else {
                    let mut ids: Vec<u64> = Vec::new();
                    ids.push(*order_id);
                    proof {
                        assert(ids@ =~= seq![*order_id]);
                    }
                    self.drop_orders(&ids);
                }
            },
        }
    }

    fn drop_orders(&mut self, ids: &Vec<u64>)
        ensures
            final(self)@ == old(self)@.with_resting(
                without_orders(old(self)@.ctx.resting, ids@),
            ),
            final(self).rewards == old(self).rewards,
    {
        let ghost all = resting_views(self.ctx.resting@);
        let mut kept: Vec<RestingOrder<N>> = Vec::new();
        let n: usize = self.ctx.resting.len();
        let mut i: usize = 0;
        proof {
            assert(resting_views(kept@) =~= Seq::<RestingView<N>>::empty());
            assert(all.take(0) =~= Seq::<RestingView<N>>::empty());
        }
        while i < n
            invariant
                i <= n,
                n == self.ctx.resting@.len(),
                all == resting_views(self.ctx.resting@),
                *self == *old(self),
                resting_views(kept@) == without_orders(all.take(i as int), ids@),
            decreases n - i,
        {
            let ghost before = kept@;
            proof {
                assert(all.take(i + 1).drop_last() =~= all.take(i as int));
                assert(all[i as int] == self.ctx.resting@[i as int]@);
            }
            if !holds(ids, self.ctx.resting[i].id) {
                let o = self.ctx.resting[i].copy();
                let ghost said = o@;
                kept.push(o);
                proof {
                    assert(resting_views(kept@) =~= resting_views(before).push(said));
                }
            }
            i += 1;
        }
        proof {
            assert(all.take(n as int) =~= all);
        }
        self.ctx.resting = kept;
    }

    fn risk_clamp_order(&mut self, instrument: &str, side: Side, qty: N) -> (r: Option<N>)
        ensures
            r == old(self)@.allowed(instrument@, side, qty),
            final(self)@ == old(self)@.screened(instrument@, side, qty),
            final(self).rewards == old(self).rewards,
    {
        if !self.halted && !self.risk.any_enabled() {
            return Some(qty);
        }
        if self.halted {
            self.risk_rejections = self.risk_rejections.wrapping_add(1);
            return None;
        }
        let zero = N::from_int(0);
        if qty.is_at_most(zero) {
            self.risk_rejections = self.risk_rejections.wrapping_add(1);
            return None;
        }
        let mut q = qty;
        if let Some(cap) = self.risk.max_order_qty {
            if zero.is_at_most(cap) {
                q = q.min(cap);
            }
        }
        let net = self.ctx.position(instrument);
        let buys: bool = match side {
            Side::Bid => true,
            Side::Ask => false,
        };
        let reduces: bool = !net.is_equal(zero) && zero.is_below(net) != buys;
        if let Some(cap) = self.risk.max_position_per_instrument {
            let room = if reduces {
                net.abs().plus(cap.max(zero))
            } else {
                cap.max(zero).minus(net.abs()).max(zero)
            };
            q = q.min(room);
        }
        if let Some(cap) = self.risk.max_gross_position {
            let total = self.gross_position();
            let room = if reduces {
                net.abs().plus(cap.max(zero).minus(total.minus(net.abs())).max(zero))
            } else {
                cap.max(zero).minus(total).max(zero)
            };
            q = q.min(room);
        }
        if q.is_at_most(tiny::<N>()) {
            self.risk_rejections = self.risk_rejections.wrapping_add(1);
            return None;
        }
        Some(q)
    }

    fn gross_position(&self) -> (r: N)
        ensures
            r == gross(self@.ctx.portfolio.positions),
    {
        let ghost all = self.ctx.portfolio.positions.listing();
        let mut total = N::from_int(0);
        let n: usize = self.ctx.portfolio.positions.len();
        let mut i: usize = 0;
        while i < n
            invariant
                i <= n,
                n == all.len(),
                n == self.ctx.portfolio.positions.keys().len(),
                all == self.ctx.portfolio.positions.listing(),
                total == gross(all.take(i as int)),
            decreases n - i,
        {
            proof {
                assert(all.take(i + 1).drop_last() =~= all.take(i as int));
            }
            total = total.plus(self.ctx.portfolio.positions.value_at(i).net_qty.abs());
            i += 1;
        }
        proof {
            assert(all.take(n as int) =~= all);
        }
        total
    }

    fn risk_check_and_maybe_halt(&mut self)
        ensures
            final(self)@ == old(self)@.checked(),
            final(self).rewards == old(self).rewards,
    {
        if self.halted || self.risk.equity_floor.is_none() && self.risk.max_drawdown_pct.is_none() {
            return;
        }
        let equity = self.ctx.portfolio.equity(&self.ctx.books);
        if self.equity_peak.is_below(equity) {
            self.equity_peak = equity;
        }
        if let Some(reason) = self.find_breach(equity) {
            self.trigger_halt(reason);
        }
    }

    fn find_breach(&self, equity: N) -> (r: Option<String>)
        ensures
            match r {
                Some(reason) => self@.breach(equity) == Some(reason@),
                None => self@.breach(equity) is None,
            },
    {
        if let Some(f) = self.risk.equity_floor {
            if equity.is_at_most(f) {
                let mut s = "equity ".to_owned();
                s.append(equity.fixed(2).as_str());
                s.append(" <= equity_floor ");
                s.append(f.fixed(2).as_str());
                return Some(s);
            }
        }
        if let Some(p) = self.risk.max_drawdown_pct {
            let peak = self.equity_peak;
            if tiny::<N>().is_below(peak.abs()) {
                let dd = peak.minus(equity).over(peak).times(N::from_int(100));
                if p.is_at_most(dd) {
                    let mut s = "drawdown ".to_owned();
                    s.append(dd.fixed(2).as_str());
                    s.append("% >= max_drawdown_pct ");
                    s.append(p.fixed(2).as_str());
                    s.append("% (peak ");
                    s.append(peak.fixed(2).as_str());
                    s.append(", equity ");
                    s.append(equity.fixed(2).as_str());
                    s.append(")");
                    return Some(s);
                }
            }
        }
        None
    }

    fn open_list(&self) -> (r: Vec<(String, N)>)
        ensures
            pairs(r@) == open_positions(self@.ctx.portfolio.positions),
    {
        let ghost all = self.ctx.portfolio.positions.listing();
        let mut r: Vec<(String, N)> = Vec::new();
        let n: usize = self.ctx.portfolio.positions.len();
        let mut i: usize = 0;
        proof {
            assert(pairs(r@) =~= Seq::<(Seq<char>, N)>::empty());
            assert(all.take(0).len() == 0);
        }
        while i < n
            invariant
                i <= n,
                n == all.len(),
                n == self.ctx.portfolio.positions.keys().len(),
                all == self.ctx.portfolio.positions.listing(),
                pairs(r@) == open_positions(all.take(i as int)),
            decreases n - i,
        {
            let ghost before = r@;
            let net = self.ctx.portfolio.positions.value_at(i).net_qty;
            let key = self.ctx.portfolio.positions.key_at(i);
            proof {
                assert(all.take(i + 1).drop_last() =~= all.take(i as int));
            }
            if tiny::<N>().is_below(net.abs()) {
                r.push((key.clone(), net));
                proof {
                    assert(pairs(r@) =~= pairs(before).push((key@, net)));
                }
            }
            i += 1;
        }
        proof {
            assert(all.take(n as int) =~= all);
        }
        r
    }

    fn trigger_halt(&mut self, reason: String)
        ensures
            final(self)@ == old(self)@.stopped(reason@),
            final(self).rewards == old(self).rewards,
    {
        self.halted = true;
        self.ctx.portfolio.halted = true;
        self.ctx.portfolio.halt_reason = reason;
        self.ctx.resting = Vec::new();
        self.pending_cancels = Vec::new();
        self.pending_market = Vec::new();
        self.pending_limit = Vec::new();
        self.ctx.pending = Vec::new();
        let ghost start = self@;
        let ghost kept = self.rewards;
        proof {
            let was = old(self)@;
            assert(start.ctx.resting =~= Seq::<RestingView<N>>::empty());
            assert(start.ctx.pending =~= Seq::<ActionView<N>>::empty());
            assert(start.pending_market =~= Seq::<MarketView<N>>::empty());
            assert(start.pending_limit =~= Seq::<LimitView<N>>::empty());
            assert(start == (EngineView {
                halted: true,
                pending_cancels: Seq::empty(),
                pending_market: Seq::empty(),
                pending_limit: Seq::empty(),
                ctx: CtxView {
                    portfolio: PortfolioView {
                        halted: true,
                        halt_reason: reason@,
                        ..was.ctx.portfolio
                    },
                    resting: Seq::empty(),
                    pending: Seq::empty(),
                    ..was.ctx
                },
                ..was
            }));
        }
        let open = self.open_list();
        let ghost all = pairs(open@);
        let n: usize = open.len();
        let mut i: usize = 0;
        while i < n
            invariant
                i <= n,
                n == open@.len(),
                all == pairs(open@),
                self@ == start.all_closed(all.take(i as int)),
                self.ctx.cur_ts == start.ctx.cur_ts,
                self.rewards == kept,
            decreases n - i,
        {
            proof {
                assert(all.take(i + 1).drop_last() =~= all.take(i as int));
                assert(all.take(i + 1).last() == (open@[i as int].0@, open@[i as int].1));
            }
            let net = open[i].1;
            let side = if N::from_int(0).is_below(net) {
                Side::Ask
            } else {
                Side::Bid
            };
            let id: u64 = self.next_order_id;
            self.number_order();
            let ts: i64 = self.ctx.cur_ts;
            self.execute_taker_now(id, open[i].0.as_str(), side, net.abs(), None, ts);
            i += 1;
        }
        proof {
            assert(all.take(n as int) =~= all);
        }
    }

    fn number_order(&mut self)
        ensures
            final(self)@ == old(self)@.numbered(),
            final(self).rewards == old(self).rewards,
            final(self).ctx.cur_ts == old(self).ctx.cur_ts,
    {
        self.next_order_id = self.next_order_id.wrapping_add(1);
        self.ctx.portfolio.total_orders = self.ctx.portfolio.total_orders.wrapping_add(1);
    }

    fn process_due_cancels(&mut self)
        ensures
            final(self)@ == old(self)@.cancels_done(),
            final(self).rewards == old(self).rewards,
    {
        let now: i64 = self.ctx.cur_ts;
        let ghost all = self.pending_cancels@;
        let mut due: Vec<u64> = Vec::new();
        let mut still: Vec<PendingCancel> = Vec::new();
        let n: usize = self.pending_cancels.len();
        let mut i: usize = 0;
        while i < n
            invariant
                i <= n,
                n == all.len(),
                all == self.pending_cancels@,
                *self == *old(self),
                due@ == cancelled_by(all.take(i as int), now),
                still@ == cancels_after(all.take(i as int), now),
            decreases n - i,
        {
            let c: PendingCancel = self.pending_cancels[i];
            proof {
                assert(all.take(i + 1).drop_last() =~= all.take(i as int));
            }
            if c.effective_ts <= now {
                due.push(c.order_id);
            } else {
                still.push(c);
            }
            i += 1;
        }
        proof {
            assert(all.take(n as int) =~= all);
        }
        self.pending_cancels = still;
        self.drop_orders(&due);
    }

    fn process_all_remaining_cancels(&mut self)
        ensures
            final(self)@ == old(self)@.all_cancels_done(),
            final(self).rewards == old(self).rewards,
    {
        let ghost all = self.pending_cancels@;
        let mut due: Vec<u64> = Vec::new();
        let n: usize = self.pending_cancels.len();
        let mut i: usize = 0;
        while i < n
            invariant
                i <= n,
                n == all.len(),
                all == self.pending_cancels@,
                *self == *old(self),
                due@ == cancelled_by(all.take(i as int), i64::MAX),
            decreases n - i,
        {
            proof {
                assert(all.take(i + 1).drop_last() =~= all.take(i as int));
            }
            due.push(self.pending_cancels[i].order_id);
            i += 1;
        }
        proof {
            assert(all.take(n as int) =~= all);
        }
        self.pending_cancels = Vec::new();
        self.drop_orders(&due);
    }

    fn quotes(&self, instrument: &str) -> (r: Vec<(Side, i32, N)>)
        ensures
            r@ == quotes_in(self@.ctx.resting, instrument@),
    {
        let ghost all = resting_views(self.ctx.resting@);
        let mut r: Vec<(Side, i32, N)> = Vec::new();
        let n: usize = self.ctx.resting.len();
        let mut i: usize = 0;
        while i < n
            invariant
                i <= n,
                n == self.ctx.resting@.len(),
                all == resting_views(self.ctx.resting@),
                r@ == quotes_in(all.take(i as int), instrument@),
            decreases n - i,
        {
            let o = &self.ctx.resting[i];
            proof {
                assert(all.take(i + 1).drop_last() =~= all.take(i as int));
                assert(all[i as int] == o@);
            }
            if same_text(o.instrument.as_str(), instrument) {
                r.push((o.side, o.price.0, o.remaining));
            }
            i += 1;
        }
        proof {
            assert(all.take(n as int) =~= all);
        }
        r
    }

    fn strongest_quotes(&self) -> (r: QuoteState<N>)
        ensures
            r == strongest(self@.ctx.books, self@.ctx.resting, self.reward_band_cents),
    {
        let ghost all = self.ctx.books@;
        let mut best: QuoteState<N> = QuoteState::default();
        let n: usize = self.ctx.books.books.len();
        let mut i: usize = 0;
        while i < n
            invariant
                i <= n,
                n == all.len(),
                n == self.ctx.books.books.keys().len(),
                all == self.ctx.books@,
                best == strongest(all.take(i as int), self@.ctx.resting, self.reward_band_cents),
            decreases n - i,
        {
            let book = self.ctx.books.books.value_at(i);
            let instrument = self.ctx.books.books.key_at(i);
            proof {
                assert(all.take(i + 1).drop_last() =~= all.take(i as int));
                assert(all[i as int] == (instrument@, book@));
            }
            let quotes = self.quotes(instrument.as_str());
            if quotes.len() > 0 {
                let mid_cents = match book.mid() {
                    Some(m) => Some(m.times(N::from_int(100))),
                    None => None,
                };
                let q = quote_state_from_resting(
                    quotes.as_slice(),
                    mid_cents,
                    self.reward_band_cents,
                );
                if q.has_mid && best.bid_size_in_band.plus(best.ask_size_in_band).is_below(
                    q.bid_size_in_band.plus(q.ask_size_in_band),
                ) {
                    best = q;
                }
            }
            i += 1;
        }
        proof {
            assert(all.take(n as int) =~= all);
        }
        best
    }

    fn accrue_rewards(&mut self)
        requires
            old(self)@.sound(),
        ensures
            final(self)@ == old(self)@.rewards_seen(),
            final(self)@.sound(),
    {
        if !self.rewards.is_active() {
            return;
        }
        let best = self.strongest_quotes();
        self.rewards.observe(self.ctx.cur_ts, &best);
    }

    fn send_order(&mut self) -> (r: (u64, i64))
        ensures
            r == (old(self)@.next_order_id, old(self)@.arrival()),
            final(self)@ == old(self)@.sent(),
            final(self).rewards == old(self).rewards,
            final(self).ctx.cur_ts == old(self).ctx.cur_ts,
    {
        let id: u64 = self.next_order_id;
        self.number_order();
        let activation_ts: i64 = self.latency.order_activation_ts::<N>(self.ctx.cur_ts, id);
        (id, activation_ts)
    }

    fn submit_limit(
        &mut self,
        instrument: &str,
        side: Side,
        price: Cents,
        qty: N,
        tif: Tif,
        post_only: bool,
    )
        ensures
            final(self)@ == old(self)@.limit_sent(instrument@, side, price, qty, tif, post_only),
            final(self).rewards == old(self).rewards,
    {
        if qty.is_at_most(N::from_int(0)) {
            return;
        }
        let (id, activation_ts): (u64, i64) = self.send_order();
        let l = PendingLimit {
            order_id: id,
            instrument: instrument.to_owned(),
            side,
            price,
            qty,
            tif,
            post_only,
            activation_ts,
        };
        if activation_ts <= self.ctx.cur_ts {
            self.resolve_limit(&l);
        } else {
            let ghost before = self.pending_limit@;
            let ghost said = l@;
            self.pending_limit.push(l);
            proof {
                assert(limit_views(self.pending_limit@) =~= limit_views(before).push(said));
            }
        }
    }

    fn resolve_limit(&mut self, l: &PendingLimit<N>)
        ensures
            final(self)@ == old(self)@.resolved(l@),
            final(self).rewards == old(self).rewards,
    {
        let zero = N::from_int(0);
        let m = self.marketable_qty(l.instrument.as_str(), l.side, l.price, l.qty);
        if l.post_only {
            if zero.is_below(m) {
                self.ctx.portfolio.post_only_rejects =
                self.ctx.portfolio.post_only_rejects.wrapping_add(1);
                return;
            }
            self.rest_remainder(l, l.qty);
            return;
        }
        if zero.is_below(m) {
            let ts: i64 = self.ctx.cur_ts;
            self.execute_taker_now(
                l.order_id,
                l.instrument.as_str(),
                l.side,
                m,
                Some(l.price),
                ts,
            );
        }
        let left = l.qty.minus(m).max(zero);
        match l.tif {
            Tif::Gtc => {
                if tiny::<N>().is_below(left) {
                    self.rest_remainder(l, left);
                }
            },
            Tif::Ioc => {},
        }
    }

    fn marketable_qty(&self, instrument: &str, side: Side, price: Cents, qty: N) -> (r: N)
        ensures
            r == crossing_qty(entry(self@.ctx.books, instrument@), side, price, qty),
    {
        let zero = N::from_int(0);
        let book = match self.ctx.books.get(instrument) {
            Some(b) => b,
            None => {
                return zero;
            },
        };
        match side {
            Side::Bid => match book.best_ask() {
                Some((ask, _)) => {
                    if price.0 >= ask.0 {
                        qty.min(depth(&book.asks, side, price))
                    } else {
                        zero
                    }
                },
                None => zero,
            },
            Side::Ask => match book.best_bid() {
                Some((bid, _)) => {
                    if price.0 <= bid.0 {
                        qty.min(depth(&book.bids, side, price))
                    } else {
                        zero
                    }
                },
                None => zero,
            },
        }
    }

    fn rest_remainder(&mut self, l: &PendingLimit<N>, qty: N)
        ensures
            final(self)@ == old(self)@.rested(l@, qty),
            final(self).rewards == old(self).rewards,
    {
        if qty.is_at_most(N::from_int(0)) {
            return;
        }
        let queue_ahead = match self.ctx.books.get(l.instrument.as_str()) {
            Some(b) => RestingOrder::queue_at_placement(b, l.side, l.price),
            None => N::from_int(0),
        };
        let o = RestingOrder {
            id: l.order_id,
            instrument: l.instrument.clone(),
            side: l.side,
            price: l.price,
            remaining: qty,
            queue_ahead,
            activation_ts: l.activation_ts,
        };
        let ghost before = self.ctx.resting@;
        let ghost said = o@;
        self.ctx.resting.push(o);
        proof {
            assert(resting_views(self.ctx.resting@) =~= resting_views(before).push(said));
        }
    }

    fn resolve_due_limit_orders(&mut self)
        ensures
            final(self)@ == old(self)@.limits_done(),
            final(self).rewards == old(self).rewards,
    {
        let now: i64 = self.ctx.cur_ts;
        let mut orders: Vec<PendingLimit<N>> = Vec::new();
        std::mem::swap(&mut orders, &mut self.pending_limit);
        let (due, still): (Vec<PendingLimit<N>>, Vec<PendingLimit<N>>) = split_limits(orders, now);
        self.pending_limit = still;
        self.resolve_all(&due);
    }

    fn resolve_all(&mut self, due: &Vec<PendingLimit<N>>)
        ensures
            final(self)@ == old(self)@.all_resolved(limit_views(due@)),
            final(self).rewards == old(self).rewards,
    {
        let ghost start = self@;
        let ghost kept = self.rewards;
        let ghost all = limit_views(due@);
        let n: usize = due.len();
        let mut i: usize = 0;
        while i < n
            invariant
                i <= n,
                n == due@.len(),
                all == limit_views(due@),
                self@ == start.all_resolved(all.take(i as int)),
                self.rewards == kept,
            decreases n - i,
        {
            proof {
                assert(all.take(i + 1).drop_last() =~= all.take(i as int));
                assert(all.take(i + 1).last() == due@[i as int]@);
            }
            self.resolve_limit(&due[i]);
            i += 1;
        }
        proof {
            assert(all.take(n as int) =~= all);
        }
    }

    fn flush_all_pending_limit_orders(&mut self)
        ensures
            final(self)@ == old(self)@.all_limits_done(),
            final(self).rewards == old(self).rewards,
    {
        let mut orders: Vec<PendingLimit<N>> = Vec::new();
        std::mem::swap(&mut orders, &mut self.pending_limit);
        proof {
            assert(limit_views(self.pending_limit@) =~= Seq::<LimitView<N>>::empty());
        }
        self.resolve_all(&orders);
    }

    fn level_size(&self, instrument: &str, side: Side, price: Cents) -> (r: N)
        ensures
            r == level_size_of(self@.ctx.books, instrument@, side, price),
    {
        match self.ctx.books.get(instrument) {
            Some(b) => b.size_at(side, price),
            None => N::from_int(0),
        }
    }

    fn apply_optimistic_queue(&mut self, instrument: &str, side: Side, price: Cents, decrease: N)
        ensures
            final(self)@ == old(self)@.with_resting(
                all_moved_up(old(self)@.ctx.resting, instrument@, side, price, decrease),
            ),
            final(self).rewards == old(self).rewards,
    {
        let zero = N::from_int(0);
        if decrease.is_at_most(zero) {
            return;
        }
        let ghost f = |o: RestingView<N>| moved_up(o, instrument@, side, price, decrease);
        let ghost all = resting_views(self.ctx.resting@);
        let mut next: Vec<RestingOrder<N>> = Vec::new();
        let n: usize = self.ctx.resting.len();
        let mut i: usize = 0;
        while i < n
            invariant
                i <= n,
                n == self.ctx.resting@.len(),
                zero == N::integer(0),
                *self == *old(self),
                all == resting_views(self.ctx.resting@),
                f == (|o: RestingView<N>| moved_up(o, instrument@, side, price, decrease)),
                next@.len() == i,
                forall|j: int| 0 <= j < i ==> (#[trigger] next@[j])@ == f(all[j]),
            decreases n - i,
        {
            let mut o = self.ctx.resting[i].copy();
            proof {
                assert(all[i as int] == o@);
            }
            if same_text(o.instrument.as_str(), instrument) && o.side == side && o.price.0 == price.0
                && zero.is_below(o.queue_ahead) {
                o.queue_ahead = o.queue_ahead.minus(decrease).max(zero);
            }
            next.push(o);
            i += 1;
        }
        proof {
            assert(resting_views(next@) =~= all.map_values(f));
        }
        self.ctx.resting = next;
    }

    fn apply_delta(&mut self, d: &BookDelta<N>)
        ensures
            final(self)@ == old(self)@.delta_applied(d@),
            final(self).rewards == old(self).rewards,
    {
        let instrument = d.instrument.as_str();
        let optimistic: bool = match self.queue_model {
            QueueModel::Optimistic => true,
            QueueModel::Pessimistic => false,
        };
        let before = self.level_size(instrument, d.side, d.price);
        self.ctx.books.apply(d);
        let after = self.level_size(instrument, d.side, d.price);
        if optimistic && after.is_below(before) {
            self.apply_optimistic_queue(instrument, d.side, d.price, before.minus(after));
        }
        let mid = self.ctx.books.mid(instrument);
        self.ctx.curves.update(instrument, mid);
    }

    fn match_trade(&mut self, t: &TradeEvent<N>)
        ensures
            final(self)@ == old(self)@.trade_matched(t@),
            final(self).rewards == old(self).rewards,
    {
        let ghost seen = self.observed_trades@;
        let ghost was = self@;
        let kept = t.copy();
        self.observed_trades.push(kept);
        proof {
            assert(trade_views(self.observed_trades@) =~= trade_views(seen).push(t@));
        }
        let now: i64 = self.ctx.cur_ts;
        let ghost all = resting_views(self.ctx.resting@);
        let ghost g = |o: RestingView<N>| order_after(o, t@, now);
        let mut produced: Vec<Fill<N>> = Vec::new();
        let mut left: Vec<RestingOrder<N>> = Vec::new();
        let n: usize = self.ctx.resting.len();
        let mut i: usize = 0;
        proof {
            assert(fill_views(produced@) =~= Seq::<FillView<N>>::empty());
            assert(resting_views(left@) =~= Seq::<RestingView<N>>::empty());
            assert(all.take(0).map_values(g) =~= Seq::<RestingView<N>>::empty());
        }
        let ghost start = *self;
        while i < n
            invariant
                i <= n,
                n == self.ctx.resting@.len(),
                *self == start,
                all == resting_views(self.ctx.resting@),
                g == (|o: RestingView<N>| order_after(o, t@, now)),
                fill_views(produced@) == maker_fills(all.take(i as int), t@, now, self.fees),
                resting_views(left@) == unfilled(all.take(i as int).map_values(g)),
            decreases n - i,
        {
            let ghost made = produced@;
            let ghost stayed = left@;
            let mut o = self.ctx.resting[i].copy();
            proof {
                assert(all[i as int] == o@);
                assert(all.take(i + 1).drop_last() =~= all.take(i as int));
                assert(all.take(i + 1).map_values(g).drop_last() =~= all.take(i as int).map_values(
                    g,
                ));
                assert(all.take(i + 1).map_values(g).last() == g(o@));
            }
            if o.activation_ts <= now {
                if let Some(f) = match_resting_against_trade(&mut o, t, &self.fees) {
                    let ghost said = f@;
                    produced.push(f);
                    proof {
                        assert(fill_views(produced@) =~= fill_views(made).push(said));
                    }
                }
            }
            if tiny::<N>().is_below(o.remaining) {
                let ghost said = o@;
                left.push(o);
                proof {
                    assert(resting_views(left@) =~= resting_views(stayed).push(said));
                }
            }
            i += 1;
        }
        proof {
            assert(all.take(n as int) =~= all);
        }
        self.apply_fills(&produced, Liquidity::Maker);
        self.ctx.resting = left;
    }

    fn apply_fills(&mut self, fills: &Vec<Fill<N>>, liquidity: Liquidity)
        ensures
            final(self)@ == old(self)@.with_portfolio(
                with_fills(
                    old(self)@.ctx.portfolio,
                    fill_views(fills@),
                    old(self)@.slippage,
                    liquidity,
                ),
            ),
            final(self).rewards == old(self).rewards,
            final(self).ctx.cur_ts == old(self).ctx.cur_ts,
    {
        let ghost start = self@;
        let ghost kept = self.rewards;
        let ghost all = fill_views(fills@);
        let n: usize = fills.len();
        let mut i: usize = 0;
        while i < n
            invariant
                i <= n,
                n == fills@.len(),
                all == fill_views(fills@),
                self@ == start.with_portfolio(
                    with_fills(
                        start.ctx.portfolio,
                        all.take(i as int),
                        start.slippage,
                        liquidity,
                    ),
                ),
                self.rewards == kept,
                self.ctx.cur_ts == start.ctx.cur_ts,
            decreases n - i,
        {
            let f = &fills[i];
            proof {
                assert(all.take(i + 1).drop_last() =~= all.take(i as int));
                assert(all.take(i + 1).last() == f@);
            }
            let slip = self.slippage.cost(f.side, f.price, f.qty, liquidity);
            self.ctx.portfolio.apply_fill_ex(f, slip);
            i += 1;
        }
        proof {
            assert(all.take(n as int) =~= all);
        }
    }

    fn do_market(&mut self, instrument: &str, side: Side, qty: N)
        ensures
            final(self)@ == old(self)@.market_sent(instrument@, side, qty),
            final(self).rewards == old(self).rewards,
    {
        if qty.is_at_most(N::from_int(0)) {
            return;
        }
        let (id, activation_ts): (u64, i64) = self.send_order();
        if activation_ts <= self.ctx.cur_ts {
            let ts: i64 = self.ctx.cur_ts;
            self.execute_taker_now(id, instrument, side, qty, None, ts);
        } else {
            let o = PendingMarket {
                order_id: id,
                instrument: instrument.to_owned(),
                side,
                qty,
                activation_ts,
                price_bound: None,
            };
            let ghost before = self.pending_market@;
            let ghost said = o@;
            self.pending_market.push(o);
            proof {
                assert(market_views(self.pending_market@) =~= market_views(before).push(said));
            }
        }
    }

    fn execute_taker_now(
        &mut self,
        id: u64,
        instrument: &str,
        side: Side,
        qty: N,
        price_bound: Option<Cents>,
        ts: i64,
    )
        ensures
            final(self)@ == old(self)@.taken(id, instrument@, side, qty, price_bound, ts),
            final(self).rewards == old(self).rewards,
            final(self).ctx.cur_ts == old(self).ctx.cur_ts,
    {
        let fills = match self.ctx.books.get(instrument) {
            Some(book) => execute_market_bounded(
                id,
                instrument,
                side,
                qty,
                price_bound,
                book,
                &self.fees,
                ts,
            ),
            None => {
                let none: Vec<Fill<N>> = Vec::new();
                proof {
                    assert(fill_views(none@) =~= Seq::<FillView<N>>::empty());
                }
                none
            },
        };
        self.apply_fills(&fills, Liquidity::Taker);
    }

    fn execute_due_market_orders(&mut self)
        ensures
            final(self)@ == old(self)@.markets_done(),
            final(self).rewards == old(self).rewards,
    {
        let now: i64 = self.ctx.cur_ts;
        let mut orders: Vec<PendingMarket<N>> = Vec::new();
        std::mem::swap(&mut orders, &mut self.pending_market);
        let (due, still): (Vec<PendingMarket<N>>, Vec<PendingMarket<N>>) = split_markets(
            orders,
            now,
        );
        self.pending_market = still;
        self.take_all(&due);
    }

    fn take_all(&mut self, due: &Vec<PendingMarket<N>>)
        ensures
            final(self)@ == old(self)@.all_taken(market_views(due@)),
            final(self).rewards == old(self).rewards,
    {
        let ghost start = self@;
        let ghost kept = self.rewards;
        let ghost all = market_views(due@);
        let n: usize = due.len();
        let mut i: usize = 0;
        while i < n
            invariant
                i <= n,
                n == due@.len(),
                all == market_views(due@),
                self@ == start.all_taken(all.take(i as int)),
                self.ctx.cur_ts == start.ctx.cur_ts,
                self.rewards == kept,
            decreases n - i,
        {
            let o = &due[i];
            proof {
                assert(all.take(i + 1).drop_last() =~= all.take(i as int));
                assert(all.take(i + 1).last() == o@);
            }
            let ts: i64 = self.ctx.cur_ts;
            self.execute_taker_now(
                o.order_id,
                o.instrument.as_str(),
                o.side,
                o.qty,
                o.price_bound,
                ts,
            );
            i += 1;
        }
        proof {
            assert(all.take(n as int) =~= all);
        }
    }

    fn flush_all_pending_market_orders(&mut self)
        ensures
            final(self)@ == old(self)@.all_markets_done(),
            final(self).rewards == old(self).rewards,
    {
        let mut orders: Vec<PendingMarket<N>> = Vec::new();
        std::mem::swap(&mut orders, &mut self.pending_market);
        proof {
            assert(market_views(self.pending_market@) =~= Seq::<MarketView<N>>::empty());
        }
        self.take_all(&orders);
    }

    fn payouts(&self, open: &Vec<(String, N)>) -> (r: Vec<(String, N)>)
        ensures
            pairs(r@) == known_payouts(pairs(open@), self@.settlement),
    {
        let ghost all = pairs(open@);
        let mut r: Vec<(String, N)> = Vec::new();
        let n: usize = open.len();
        let mut i: usize = 0;
        proof {
            assert(pairs(r@) =~= Seq::<(Seq<char>, N)>::empty());
        }
        while i < n
            invariant
                i <= n,
                n == open@.len(),
                all == pairs(open@),
                pairs(r@) == known_payouts(all.take(i as int), self@.settlement),
            decreases n - i,
        {
            let ghost before = r@;
            proof {
                assert(all.take(i + 1).drop_last() =~= all.take(i as int));
                assert(all.take(i + 1).last() == (open@[i as int].0@, open@[i as int].1));
            }
            if let Some(p) = self.settlement.outcome(open[i].0.as_str()).payout::<N>() {
                r.push((open[i].0.clone(), p));
                proof {
                    assert(pairs(r@) =~= pairs(before).push((open@[i as int].0@, p)));
                }
            }
            i += 1;
        }
        proof {
            assert(all.take(n as int) =~= all);
        }
        r
    }

    fn settle_known_positions(&mut self)
        ensures
            final(self)@ == old(self)@.settled(),
            final(self).rewards == old(self).rewards,
    {
        if self.settlement.is_empty() {
            return;
        }
        let ts: i64 = self.last_time();
        let open = self.open_list();
        let list = self.payouts(&open);
        let ghost start = self@;
        let ghost kept = self.rewards;
        let ghost all = pairs(list@);
        let n: usize = list.len();
        let mut i: usize = 0;
        while i < n
            invariant
                i <= n,
                n == list@.len(),
                all == pairs(list@),
                self@ == start.all_settled(all.take(i as int), ts),
                self.rewards == kept,
            decreases n - i,
        {
            proof {
                assert(all.take(i + 1).drop_last() =~= all.take(i as int));
                assert(all.take(i + 1).last() == (list@[i as int].0@, list@[i as int].1));
            }
            let pnl = self.ctx.portfolio.settle_position(list[i].0.as_str(), list[i].1, ts);
            self.ctx.portfolio.settled_pnl = self.ctx.portfolio.settled_pnl.plus(pnl);
            self.ctx.portfolio.num_settled = self.ctx.portfolio.num_settled.wrapping_add(1);
            i += 1;
        }
        proof {
            assert(all.take(n as int) =~= all);
        }
    }

    fn flatten_all(&mut self)
        ensures
            final(self)@ == old(self)@.all_flattened(
                open_positions(old(self)@.ctx.portfolio.positions),
            ),
            final(self).rewards == old(self).rewards,
    {
        let open = self.open_list();
        let ghost start = self@;
        let ghost kept = self.rewards;
        let ghost all = pairs(open@);
        let n: usize = open.len();
        let mut i: usize = 0;
        while i < n
            invariant
                i <= n,
                n == open@.len(),
                all == pairs(open@),
                self@ == start.all_flattened(all.take(i as int)),
                self.rewards == kept,
            decreases n - i,
        {
            proof {
                assert(all.take(i + 1).drop_last() =~= all.take(i as int));
                assert(all.take(i + 1).last() == (open@[i as int].0@, open@[i as int].1));
            }
            let net = open[i].1;
            let side = if N::from_int(0).is_below(net) {
                Side::Ask
            } else {
                Side::Bid
            };
            self.do_market(open[i].0.as_str(), side, net.abs());
            i += 1;
        }
        proof {
            assert(all.take(n as int) =~= all);
        }
    }
}

fn depth<N: Analytic>(levels: &crate::intmap::IntMap<N>, side: Side, price: Cents) -> (r: N)
    ensures
        r == depth_within(levels@, side, price),
{
    let ghost all = levels@;
    let mut total = N::from_int(0);
    let n: usize = levels.len();
    let mut i: usize = 0;
    while i < n
        invariant
            i <= n,
            n == all.len(),
            all == levels@,
            total == depth_within(all.take(i as int), side, price),
        decreases n - i,
    {
        let px: i64 = levels.key_at(i);
        proof {
            assert(all.take(i + 1).drop_last() =~= all.take(i as int));
        }
        let inside: bool = match side {
            Side::Bid => px <= price.0 as i64,
            Side::Ask => px >= price.0 as i64,
        };
        if inside {
            total = total.plus(*levels.value_ref(i));
        }
        i += 1;
    }
    proof {
        assert(all.take(n as int) =~= all);
    }
    total
}

fn split_limits<N: Analytic>(orders: Vec<PendingLimit<N>>, now: i64) -> (r: (
    Vec<PendingLimit<N>>,
    Vec<PendingLimit<N>>,
))
    ensures
        limit_views(r.0@) == limits_split(limit_views(orders@), now, true),
        limit_views(r.1@) == limits_split(limit_views(orders@), now, false),
{
    let ghost all = limit_views(orders@);
    let mut due: Vec<PendingLimit<N>> = Vec::new();
    let mut still: Vec<PendingLimit<N>> = Vec::new();
    let n: usize = orders.len();
    let mut i: usize = 0;
    proof {
        assert(limit_views(due@) =~= all.take(0));
        assert(limit_views(still@) =~= all.take(0));
    }
    while i < n
        invariant
            i <= n,
            n == orders@.len(),
            all == limit_views(orders@),
            limit_views(due@) == limits_split(all.take(i as int), now, true),
            limit_views(still@) == limits_split(all.take(i as int), now, false),
        decreases n - i,
    {
        let ghost before = (due@, still@);
        let l = &orders[i];
        let o = PendingLimit {
            order_id: l.order_id,
            instrument: l.instrument.clone(),
            side: l.side,
            price: l.price,
            qty: l.qty,
            tif: l.tif,
            post_only: l.post_only,
            activation_ts: l.activation_ts,
        };
        let ghost said = o@;
        proof {
            assert(all.take(i + 1).drop_last() =~= all.take(i as int));
            assert(all.take(i + 1).last() == said);
        }
        if o.activation_ts <= now {
            due.push(o);
            proof {
                assert(limit_views(due@) =~= limit_views(before.0).push(said));
            }
        } else {
            still.push(o);
            proof {
                assert(limit_views(still@) =~= limit_views(before.1).push(said));
            }
        }
        i += 1;
    }
    proof {
        assert(all.take(n as int) =~= all);
    }
    (due, still)
}

fn split_markets<N: Analytic>(orders: Vec<PendingMarket<N>>, now: i64) -> (r: (
    Vec<PendingMarket<N>>,
    Vec<PendingMarket<N>>,
))
    ensures
        market_views(r.0@) == markets_split(market_views(orders@), now, true),
        market_views(r.1@) == markets_split(market_views(orders@), now, false),
{
    let ghost all = market_views(orders@);
    let mut due: Vec<PendingMarket<N>> = Vec::new();
    let mut still: Vec<PendingMarket<N>> = Vec::new();
    let n: usize = orders.len();
    let mut i: usize = 0;
    proof {
        assert(market_views(due@) =~= all.take(0));
        assert(market_views(still@) =~= all.take(0));
    }
    while i < n
        invariant
            i <= n,
            n == orders@.len(),
            all == market_views(orders@),
            market_views(due@) == markets_split(all.take(i as int), now, true),
            market_views(still@) == markets_split(all.take(i as int), now, false),
        decreases n - i,
    {
        let ghost before = (due@, still@);
        let m = &orders[i];
        let o = PendingMarket {
            order_id: m.order_id,
            instrument: m.instrument.clone(),
            side: m.side,
            qty: m.qty,
            activation_ts: m.activation_ts,
            price_bound: m.price_bound,
        };
        let ghost said = o@;
        proof {
            assert(all.take(i + 1).drop_last() =~= all.take(i as int));
            assert(all.take(i + 1).last() == said);
        }
        if o.activation_ts <= now {
            due.push(o);
            proof {
                assert(market_views(due@) =~= market_views(before.0).push(said));
            }
        } else {
            still.push(o);
            proof {
                assert(market_views(still@) =~= market_views(before.1).push(said));
            }
        }
        i += 1;
    }
    proof {
        assert(all.take(n as int) =~= all);
    }
    (due, still)
}

} // verus!
