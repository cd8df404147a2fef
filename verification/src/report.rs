//! The report of a run, and its page.
use crate::config::BacktestConfig;
use crate::fixed::{
    cut_quotient, law_quotients_are_cut, law_whole_products_are_exact, lemma_cut, Fixed, LARGEST,
};
use crate::metrics::{
    calmar_of, calmar_ratio, deviation_of, downside_of, downside_volatility, exposure_pct, falls_of,
    levels_of, max_drawdown, mean_of, negatives, per_deviation, returns_of, sharpe, sortino,
    stats_of, turnover, volatility, win_rate, wins_part, TradeStats,
};
use crate::number::{count, fraction_of, ratio, tally, Number};
use crate::portfolio::{
    copy_curve, lemma_speck_is_zero, modest, nothing, speck, tiny, InstrumentStat, Portfolio,
    PortfolioView, Position,
};
use crate::text::{chars_of, decimal, decimal_int, i64_text, join, joined, texts, u64_text};
use crate::types::{
    equity_views, EquityPoint, EquityView, InstrumentBreakdown, Report, Summary,
};
use vstd::prelude::*;

verus! {

/// What is reported for a ratio of gains to losses without a loss. No ratio in practice comes near
/// it, and 0 is what is reported without a gain.
pub const NO_LOSS_SENTINEL: i64 = 1_000_000_000;

/// The equity at each point.
pub open spec fn levels_seen<N>(curve: Seq<EquityView<N>>) -> Seq<N> {
    curve.map_values(|p: EquityView<N>| p.total)
}

/// A ratio as it is reported: always finite.
pub open spec fn reportable<N: Number>(x: N) -> N {
    if x.finite() {
        x
    } else if x.equals(N::unbounded()) {
        N::integer(NO_LOSS_SENTINEL as int)
    } else {
        N::integer(0)
    }
}

fn finite<N: Number>(x: N) -> (r: N)
    ensures
        r == reportable(x),
{
    if x.is_finite() {
        x
    } else if x.is_equal(N::infinity()) {
        N::from_int(NO_LOSS_SENTINEL)
    } else {
        N::from_int(0)
    }
}

/// Whether anything ever came of a position.
pub open spec fn was_used<N: Number>(p: Position<N>) -> bool {
    speck::<N>().below(p.net_qty.magnitude()) || !p.realized_pnl.equals(N::integer(0))
}

/// How many positions anything ever came of.
pub open spec fn used_positions<N: Number>(positions: Seq<(Seq<char>, Position<N>)>) -> i64
    decreases positions.len(),
{
    if positions.len() == 0 {
        0
    } else if was_used(positions.last().1) {
        used_positions(positions.drop_last()).wrapping_add(1)
    } else {
        used_positions(positions.drop_last())
    }
}

/// The equity at the end; the starting balance without an equity curve.
pub open spec fn final_equity<N: Number>(levels: Seq<N>, starting_balance: N) -> N {
    if levels.len() == 0 {
        starting_balance
    } else {
        levels.last()
    }
}

/// What was gained, in percent of the starting balance.
pub open spec fn gained_pct<N: Number>(gained: N, starting_balance: N) -> N {
    if speck::<N>().below(starting_balance.magnitude()) {
        gained.quotient(starting_balance).product(N::integer(100))
    } else {
        N::integer(0)
    }
}

/// A quotient; 0 where the divisor is nothing.
pub open spec fn part_of<N: Number>(a: N, b: N) -> N {
    if speck::<N>().below(b) {
        a.quotient(b)
    } else {
        N::integer(0)
    }
}

/// The average price of what was traded; 0 where nothing was.
pub open spec fn average<N: Number>(notional: N, qty: N) -> N {
    if N::integer(0).below(qty) {
        notional.quotient(qty)
    } else {
        N::integer(0)
    }
}

/// What the prices alone have gained: fees and slippage are added back, and rewards that were
/// credited taken off.
pub open spec fn price_gain<N: Number>(
    gained: N,
    pf: PortfolioView<N>,
    cfg: BacktestConfig<N>,
) -> N {
    let credited = if cfg.execution.include_rewards {
        pf.liquidity_rewards
    } else {
        N::integer(0)
    };
    gained.difference(credited).sum(pf.total_fees).sum(pf.total_slippage_cost)
}

/// A summary says what the account says.
pub open spec fn sums_up<N: Number>(
    s: Summary<N>,
    pf: PortfolioView<N>,
    cfg: BacktestConfig<N>,
) -> bool {
    let levels = levels_seen(pf.equity_curve);
    let rs = returns_of(levels);
    let start = cfg.starting_balance;
    let end = final_equity(levels, start);
    let gained = end.difference(start);
    let (_, dd, dd_pct) = falls_of(levels);
    let t = stats_of(pf.round_trip_pnls);
    &&& s.currency@ == cfg.currency@
    &&& s.starting_balance == start
    &&& s.ending_balance == end
    &&& s.pnl_total == gained
    &&& s.pnl_pct == gained_pct(gained, start)
    &&& s.total_orders == pf.total_orders
    &&& s.total_positions == used_positions(pf.positions)
    &&& s.avg_buy_price == average(pf.buy_notional, pf.buy_qty)
    &&& s.avg_sell_price == average(pf.sell_notional, pf.sell_qty)
    &&& s.num_trades == pf.round_trip_pnls.len() as i64
    &&& s.num_fills == pf.total_fills
    &&& s.win_rate == wins_part(pf.round_trip_pnls)
    &&& s.sharpe == per_deviation(mean_of(rs), deviation_of(rs, mean_of(rs)))
    &&& s.sortino == if negatives(rs).len() == 0 {
        N::integer(0)
    } else {
        per_deviation(mean_of(rs), downside_of(rs))
    }
    &&& s.max_drawdown == dd
    &&& s.max_drawdown_pct == dd_pct
    &&& s.turnover == if nothing(start) {
        N::integer(0)
    } else {
        pf.buy_notional.sum(pf.sell_notional).quotient(start)
    }
    &&& s.total_fees == pf.total_fees
    &&& s.profit_factor == reportable(t.profit_factor)
    &&& s.gross_profit == t.gross_profit
    &&& s.gross_loss == t.gross_loss
    &&& s.avg_win == t.avg_win
    &&& s.avg_loss == t.avg_loss
    &&& s.payoff_ratio == reportable(t.payoff_ratio)
    &&& s.expectancy == t.expectancy
    &&& s.num_round_trips == t.num_round_trips
    &&& s.avg_trade_pnl == t.avg_trade_pnl
    &&& s.largest_win == t.largest_win
    &&& s.largest_loss == t.largest_loss
    &&& s.max_consecutive_wins == t.max_consecutive_wins
    &&& s.max_consecutive_losses == t.max_consecutive_losses
    &&& s.calmar_ratio == calmar_of(s.pnl_pct, s.max_drawdown_pct)
    &&& s.volatility == deviation_of(rs, mean_of(rs))
    &&& s.downside_volatility == downside_of(rs)
    &&& s.exposure_pct == if pf.equity_curve.len() as i64 <= 0 {
        N::integer(0)
    } else {
        fraction_of::<N>(pf.snapshots_with_position as int, (pf.equity_curve.len() as i64) as int)
    }
    &&& s.avg_holding_secs == if pf.holding_count > 0 {
        pf.holding_secs_sum.quotient(N::integer(pf.holding_count as int))
    } else {
        N::integer(0)
    }
    &&& s.fees_pct_of_gross == part_of(pf.total_fees, t.gross_profit)
    &&& s.total_volume_contracts == pf.total_volume
    &&& s.total_slippage_cost == pf.total_slippage_cost
    &&& s.liquidity_rewards == pf.liquidity_rewards
    &&& s.gross_pnl_ex_costs == price_gain(gained, pf, cfg)
    &&& s.settled_pnl == pf.settled_pnl
    &&& s.num_settled == pf.num_settled
    &&& s.halted == pf.halted
    &&& s.halt_reason@ == pf.halt_reason
    &&& s.risk_rejections == pf.risk_rejections
    &&& s.post_only_rejects == pf.post_only_rejects
}

/// A line of the breakdown says what the totals of an instrument say.
pub open spec fn breaks_down<N>(b: InstrumentBreakdown<N>, e: (Seq<char>, InstrumentStat<N>)) -> bool {
    &&& b.instrument@ == e.0
    &&& b.pnl == e.1.pnl
    &&& b.num_fills == e.1.num_fills
    &&& b.num_round_trips == e.1.num_round_trips
    &&& b.net_position == e.1.net_position
    &&& b.volume == e.1.volume
}

/// A report says what an account says.
pub open spec fn reports<N: Number>(
    r: Report<N>,
    plugin_name: Seq<char>,
    pf: PortfolioView<N>,
    cfg: BacktestConfig<N>,
) -> bool {
    &&& r.plugin_name@ == plugin_name
    &&& sums_up(r.summary, pf, cfg)
    &&& equity_views(r.equity_curve@) == pf.equity_curve
    &&& r.instrument_breakdown@.len() == pf.instrument_stats.len()
    &&& forall|i: int|
        0 <= i < pf.instrument_stats.len() ==> breaks_down(
            #[trigger] r.instrument_breakdown@[i],
            pf.instrument_stats[i],
        )
}

/// Two reports say the same.
pub open spec fn alike<N>(a: Report<N>, b: Report<N>) -> bool {
    &&& a.plugin_name@ == b.plugin_name@
    &&& a.summary == (Summary {
        currency: a.summary.currency,
        halt_reason: a.summary.halt_reason,
        ..b.summary
    })
    &&& a.summary.currency@ == b.summary.currency@
    &&& a.summary.halt_reason@ == b.summary.halt_reason@
    &&& equity_views(a.equity_curve@) == equity_views(b.equity_curve@)
    &&& a.instrument_breakdown@.len() == b.instrument_breakdown@.len()
    &&& forall|i: int|
        0 <= i < a.instrument_breakdown@.len() ==> same_line(
            #[trigger] a.instrument_breakdown@[i],
            b.instrument_breakdown@[i],
        )
}

/// Two lines of a breakdown say the same.
pub open spec fn same_line<N>(a: InstrumentBreakdown<N>, b: InstrumentBreakdown<N>) -> bool {
    &&& a.instrument@ == b.instrument@
    &&& a == (InstrumentBreakdown { instrument: a.instrument, ..b })
}

/// An account and the settings decide the report: two reports of one account say the same.
pub proof fn law_accounts_decide_reports<N: Number>(
    a: Report<N>,
    b: Report<N>,
    plugin_name: Seq<char>,
    pf: PortfolioView<N>,
    cfg: BacktestConfig<N>,
)
    requires
        reports(a, plugin_name, pf, cfg),
        reports(b, plugin_name, pf, cfg),
    ensures
        alike(a, b),
{
    assert forall|i: int| 0 <= i < a.instrument_breakdown@.len() implies same_line(
        #[trigger] a.instrument_breakdown@[i],
        b.instrument_breakdown@[i],
    ) by {
        assert(breaks_down(b.instrument_breakdown@[i], pf.instrument_stats[i]));
    }
}

fn count_used<N: Number>(pf: &Portfolio<N>) -> (r: i64)
    ensures
        r == used_positions(pf@.positions),
{
    let ghost all = pf.positions.listing();
    let mut total: i64 = 0;
    let n: usize = pf.positions.len();
    let mut i: usize = 0;
    while i < n
        invariant
            i <= n,
            n == all.len(),
            n == pf.positions.keys().len(),
            all == pf.positions.listing(),
            total == used_positions(all.take(i as int)),
        decreases n - i,
    {
        let p: Position<N> = *pf.positions.value_at(i);
        proof {
            assert(all.take(i + 1).drop_last() =~= all.take(i as int));
            assert(all[i as int].1 == p);
        }
        if tiny::<N>().is_below(p.net_qty.abs()) || !p.realized_pnl.is_equal(N::from_int(0)) {
            total = total.wrapping_add(1);
        }
        i += 1;
    }
    proof {
        assert(all.take(n as int) =~= all);
    }
    total
}

fn break_down<N: Number>(pf: &Portfolio<N>) -> (r: Vec<InstrumentBreakdown<N>>)
    ensures
        r@.len() == pf@.instrument_stats.len(),
        forall|i: int|
            0 <= i < r@.len() ==> breaks_down(#[trigger] r@[i], pf@.instrument_stats[i]),
{
    let mut r: Vec<InstrumentBreakdown<N>> = Vec::new();
    let n: usize = pf.instrument_stats.len();
    let mut i: usize = 0;
    while i < n
        invariant
            i <= n,
            n == pf.instrument_stats.listing().len(),
            n == pf.instrument_stats.keys().len(),
            r@.len() == i,
            forall|j: int|
                0 <= j < i ==> breaks_down(
                    #[trigger] r@[j],
                    pf.instrument_stats.listing()[j],
                ),
        decreases n - i,
    {
        let st: InstrumentStat<N> = *pf.instrument_stats.value_at(i);
        let key = pf.instrument_stats.key_at(i);
        r.push(
            InstrumentBreakdown {
                instrument: key.clone(),
                pnl: st.pnl,
                num_fills: st.num_fills,
                num_round_trips: st.num_round_trips,
                net_position: st.net_position,
                volume: st.volume,
            },
        );
        i += 1;
    }
    r
}

/// The report of a run, from its account at the end.
pub fn build_report<N: Number>(
    plugin_name: &str,
    pf: &Portfolio<N>,
    cfg: &BacktestConfig<N>,
) -> (r: Report<N>)
    ensures
        reports(r, plugin_name@, pf@, *cfg),
{
    let zero = N::from_int(0);
    let curve = copy_curve(&pf.equity_curve);
    proof {
        assert(levels_of(curve@) =~= levels_seen(pf@.equity_curve)) by {
            assert forall|i: int| 0 <= i < curve@.len() implies curve@[i].total
                == pf@.equity_curve[i].total by {
                assert(equity_views(curve@)[i] == curve@[i]@);
            }
            assert(equity_views(curve@).len() == curve@.len());
        }
    }
    let n: usize = curve.len();
    let ending = if n == 0 {
        cfg.starting_balance
    } else {
        curve[n - 1].total
    };
    proof {
        if n > 0 {
            assert(levels_of(curve@).last() == ending);
        }
    }
    let pnl_total = ending.minus(cfg.starting_balance);
    let pnl_pct = if tiny::<N>().is_below(cfg.starting_balance.abs()) {
        pnl_total.over(cfg.starting_balance).times(N::from_int(100))
    } else {
        zero
    };
    let (max_dd, max_dd_pct): (N, N) = max_drawdown(curve.as_slice());
    let ts = TradeStats::from_pnls(pf.round_trip_pnls.as_slice());
    let fees_pct_of_gross = if tiny::<N>().is_below(ts.gross_profit) {
        pf.total_fees.over(ts.gross_profit)
    } else {
        zero
    };
    let credited = if cfg.execution.include_rewards {
        pf.liquidity_rewards
    } else {
        zero
    };
    let gross_pnl_ex_costs = pnl_total.minus(credited).plus(pf.total_fees).plus(
        pf.total_slippage_cost,
    );
    let total_snapshots: i64 = n as i64;
    let summary = Summary {
        currency: cfg.currency.clone(),
        starting_balance: cfg.starting_balance,
        ending_balance: ending,
        pnl_total,
        pnl_pct,
        total_orders: pf.total_orders,
        total_positions: count_used(pf),
        avg_buy_price: pf.avg_buy_price(),
        avg_sell_price: pf.avg_sell_price(),
        num_trades: pf.round_trip_pnls.len() as i64,
        num_fills: pf.total_fills,
        win_rate: win_rate(pf.round_trip_pnls.as_slice()),
        sharpe: sharpe(curve.as_slice()),
        sortino: sortino(curve.as_slice()),
        max_drawdown: max_dd,
        max_drawdown_pct: max_dd_pct,
        turnover: turnover(pf.buy_notional, pf.sell_notional, cfg.starting_balance),
        total_fees: pf.total_fees,
        profit_factor: finite(ts.profit_factor),
        gross_profit: ts.gross_profit,
        gross_loss: ts.gross_loss,
        avg_win: ts.avg_win,
        avg_loss: ts.avg_loss,
        payoff_ratio: finite(ts.payoff_ratio),
        expectancy: ts.expectancy,
        num_round_trips: ts.num_round_trips,
        avg_trade_pnl: ts.avg_trade_pnl,
        largest_win: ts.largest_win,
        largest_loss: ts.largest_loss,
        max_consecutive_wins: ts.max_consecutive_wins,
        max_consecutive_losses: ts.max_consecutive_losses,
        calmar_ratio: calmar_ratio(pnl_pct, max_dd_pct),
        volatility: volatility(curve.as_slice()),
        downside_volatility: downside_volatility(curve.as_slice()),
        exposure_pct: exposure_pct::<N>(pf.snapshots_with_position, total_snapshots),
        avg_holding_secs: pf.avg_holding_secs(),
        fees_pct_of_gross,
        total_volume_contracts: pf.total_volume,
        total_slippage_cost: pf.total_slippage_cost,
        liquidity_rewards: pf.liquidity_rewards,
        gross_pnl_ex_costs,
        settled_pnl: pf.settled_pnl,
        num_settled: pf.num_settled,
        halted: pf.halted,
        halt_reason: pf.halt_reason.clone(),
        risk_rejections: pf.risk_rejections,
        post_only_rejects: pf.post_only_rejects,
    };
    let instrument_breakdown = break_down(pf);
    Report { plugin_name: plugin_name.to_owned(), summary, equity_curve: curve, instrument_breakdown }
}

/// A ratio that is reported is finite: the numbers that stand for what cannot be written are.
pub proof fn law_reported_ratios_are_finite<N: Number>(x: N)
    requires
        N::integer(0).finite(),
        N::integer(NO_LOSS_SENTINEL as int).finite(),
    ensures
        reportable(x).finite(),
{
}

// ---- the page -------------------------------------------------------------------------------

/// A character as a page shows it.
pub open spec fn escaped_char(c: char) -> Seq<char> {
    if c == '&' {
        "&amp;"@
    } else if c == '<' {
        "&lt;"@
    } else if c == '>' {
        "&gt;"@
    } else if c == '"' {
        "&quot;"@
    } else {
        seq![c]
    }
}

/// A text as a page shows it.
pub open spec fn escaped(s: Seq<char>) -> Seq<char>
    decreases s.len(),
{
    if s.len() == 0 {
        s
    } else {
        escaped(s.drop_last()) + escaped_char(s.last())
    }
}

/// What a page shows of a text cannot be taken for markup.
pub proof fn law_escaped_is_no_markup(s: Seq<char>)
    ensures
        forall|i: int|
            0 <= i < escaped(s).len() ==> (#[trigger] escaped(s)[i]) != '<' && escaped(s)[i] != '>'
                && escaped(s)[i] != '"',
    decreases s.len(),
{
    reveal_strlit("&amp;");
    reveal_strlit("&lt;");
    reveal_strlit("&gt;");
    reveal_strlit("&quot;");
    if s.len() > 0 {
        law_escaped_is_no_markup(s.drop_last());
        let head = escaped(s.drop_last());
        let tail = escaped_char(s.last());
        assert forall|i: int| 0 <= i < escaped(s).len() implies (#[trigger] escaped(s)[i]) != '<'
            && escaped(s)[i] != '>' && escaped(s)[i] != '"' by {
            if i < head.len() {
                assert(escaped(s)[i] == head[i]);
            } else {
                assert(escaped(s)[i] == tail[i - head.len()]);
            }
        }
    }
}

/// Writes a text as a page shows it.
pub fn html_escape(s: &str) -> (r: String)
    ensures
        r@ == escaped(s@),
{
    let v = chars_of(s);
    let mut r = String::new();
    let n: usize = v.len();
    let mut i: usize = 0;
    proof {
        assert(r@ =~= v@.take(0));
    }
    while i < n
        invariant
            i <= n,
            n == v@.len(),
            r@ == escaped(v@.take(i as int)),
        decreases n - i,
    {
        let ghost before = r@;
        proof {
            assert(v@.take(i + 1).drop_last() =~= v@.take(i as int));
        }
        let c: char = v[i];
        if c == '&' {
            r.append("&amp;");
        } else if c == '<' {
            r.append("&lt;");
        } else if c == '>' {
            r.append("&gt;");
        } else if c == '"' {
            r.append("&quot;");
        } else {
            r.push(c);
            assert(r@ =~= before + seq![c]);
        }
        i += 1;
    }
    proof {
        assert(v@.take(n as int) =~= v@);
    }
    r
}

/// The least of some numbers.
pub open spec fn lowest<N: Number>(xs: Seq<N>) -> N
    decreases xs.len(),
{
    if xs.len() == 0 {
        N::unbounded()
    } else {
        lowest(xs.drop_last()).lesser(xs.last())
    }
}

/// The greatest of some numbers.
pub open spec fn highest<N: Number>(xs: Seq<N>) -> N
    decreases xs.len(),
{
    if xs.len() == 0 {
        N::unbounded().negated()
    } else {
        highest(xs.drop_last()).greater(xs.last())
    }
}

/// A point of a path.
pub open spec fn path_point<N: Number>(x: N, y: N) -> Seq<char> {
    x.shown_fixed(2) + " "@ + y.shown_fixed(2)
}

/// The path of an equity curve: 220 high, the highest level at the top.
pub open spec fn equity_path<N: Number>(levels: Seq<N>, min: N, range: N, xstep: N) -> Seq<char>
    decreases levels.len(),
{
    if levels.len() == 0 {
        Seq::empty()
    } else {
        let i = (levels.len() - 1) as nat;
        let y = N::integer(230).difference(
            levels.last().difference(min).quotient(range).product(N::integer(220)),
        );
        let before = equity_path(levels.drop_last(), min, range, xstep);
        let mark = if i == 0 {
            "M"@
        } else {
            " L"@
        };
        before + mark + path_point(tally::<N>(i).product(xstep), y)
    }
}

/// The peak of some levels.
pub open spec fn peak_of<N: Number>(levels: Seq<N>) -> N
    decreases levels.len(),
{
    if levels.len() == 0 {
        N::unbounded().negated()
    } else if peak_of(levels.drop_last()).below(levels.last()) {
        levels.last()
    } else {
        peak_of(levels.drop_last())
    }
}

/// How far each level lies below the peak so far, as a part of it.
pub open spec fn drawdowns<N: Number>(levels: Seq<N>) -> Seq<N>
    decreases levels.len(),
{
    if levels.len() == 0 {
        Seq::empty()
    } else {
        let peak = peak_of(levels);
        drawdowns(levels.drop_last()).push(
            if fraction_of::<N>(1, 1_000_000_000).below(peak.magnitude()) {
                peak.difference(levels.last()).quotient(peak)
            } else {
                N::integer(0)
            },
        )
    }
}

/// The path of the drawdowns: 135 high, the deepest at the bottom.
pub open spec fn drawdown_path<N: Number>(dds: Seq<N>, deepest: N, xstep: N) -> Seq<char>
    decreases dds.len(),
{
    if dds.len() == 0 {
        "M0 0"@
    } else {
        let i = (dds.len() - 1) as nat;
        drawdown_path(dds.drop_last(), deepest, xstep) + " L"@ + path_point(
            tally::<N>(i).product(xstep),
            dds.last().quotient(deepest).product(N::integer(135)),
        )
    }
}

/// The deepest of some drawdowns; never quite 0.
pub open spec fn deepest_of<N: Number>(dds: Seq<N>) -> N {
    crate::metrics::largest(dds).greater(fraction_of::<N>(1, 1_000_000_000))
}

/// The distance from one point to the next, 800 in all.
pub open spec fn step_between<N: Number>(n: nat) -> N {
    if n > 1 {
        N::integer(800).quotient(tally::<N>(n).difference(N::integer(1)))
    } else {
        N::integer(0)
    }
}

/// The paths of an equity curve and of its drawdowns, its lowest level and its highest.
pub open spec fn paths_of<N: Number>(levels: Seq<N>) -> (Seq<char>, Seq<char>, N, N) {
    if levels.len() == 0 {
        ("M0 120 L800 120"@, "M0 0 L800 0 L800 0 Z"@, N::integer(0), N::integer(0))
    } else {
        let min = lowest(levels);
        let max = highest(levels);
        let range = max.difference(min).greater(fraction_of::<N>(1, 1_000_000_000));
        let xstep = step_between::<N>(levels.len());
        let dds = drawdowns(levels);
        let end = tally::<N>(levels.len()).difference(N::integer(1)).greater(
            N::integer(0),
        ).product(xstep);
        (
            equity_path(levels, min, range, xstep),
            drawdown_path(dds, deepest_of(dds), xstep) + " L"@ + end.shown_fixed(2) + " 0 Z"@,
            min,
            max,
        )
    }
}

fn point_text<N: Number>(x: N, y: N) -> (r: String)
    ensures
        r@ == path_point(x, y),
{
    let mut s = x.fixed(2);
    s.append(" ");
    s.append(y.fixed(2).as_str());
    s
}

fn bounds<N: Number>(curve: &[EquityPoint<N>]) -> (r: (N, N))
    ensures
        r == (lowest(levels_of(curve@)), highest(levels_of(curve@))),
{
    let ghost levels = levels_of(curve@);
    let mut min = N::infinity();
    let mut max = N::infinity().neg();
    let n: usize = curve.len();
    let mut i: usize = 0;
    while i < n
        invariant
            i <= n,
            n == curve@.len(),
            levels == levels_of(curve@),
            min == lowest(levels.take(i as int)),
            max == highest(levels.take(i as int)),
        decreases n - i,
    {
        proof {
            assert(levels.take(i + 1).drop_last() =~= levels.take(i as int));
        }
        min = min.min(curve[i].total);
        max = max.max(curve[i].total);
        i += 1;
    }
    proof {
        assert(levels.take(n as int) =~= levels);
    }
    (min, max)
}

fn draw_equity<N: Number>(curve: &[EquityPoint<N>], min: N, range: N, xstep: N) -> (r: String)
    ensures
        r@ == equity_path(levels_of(curve@), min, range, xstep),
{
    let ghost levels = levels_of(curve@);
    let mut s = String::new();
    let n: usize = curve.len();
    let mut i: usize = 0;
    proof {
        assert(s@ =~= Seq::<char>::empty());
    }
    while i < n
        invariant
            i <= n,
            n == curve@.len(),
            levels == levels_of(curve@),
            s@ == equity_path(levels.take(i as int), min, range, xstep),
        decreases n - i,
    {
        proof {
            assert(levels.take(i + 1).drop_last() =~= levels.take(i as int));
        }
        let x = count::<N>(i).times(xstep);
        let y = N::from_int(230).minus(
            curve[i].total.minus(min).over(range).times(N::from_int(220)),
        );
        if i == 0 {
            s.append("M");
        } else {
            s.append(" L");
        }
        s.append(point_text(x, y).as_str());
        i += 1;
    }
    proof {
        assert(levels.take(n as int) =~= levels);
    }
    s
}

fn find_drawdowns<N: Number>(curve: &[EquityPoint<N>]) -> (r: Vec<N>)
    ensures
        r@ == drawdowns(levels_of(curve@)),
{
    let ghost levels = levels_of(curve@);
    let mut r: Vec<N> = Vec::new();
    let mut peak = N::infinity().neg();
    let n: usize = curve.len();
    let mut i: usize = 0;
    while i < n
        invariant
            i <= n,
            n == curve@.len(),
            levels == levels_of(curve@),
            r@ == drawdowns(levels.take(i as int)),
            peak == peak_of(levels.take(i as int)),
        decreases n - i,
    {
        proof {
            assert(levels.take(i + 1).drop_last() =~= levels.take(i as int));
        }
        let v = curve[i].total;
        if peak.is_below(v) {
            peak = v;
        }
        let dd = if ratio::<N>(1, 1_000_000_000).is_below(peak.abs()) {
            peak.minus(v).over(peak)
        } else {
            N::from_int(0)
        };
        r.push(dd);
        i += 1;
    }
    proof {
        assert(levels.take(n as int) =~= levels);
    }
    r
}

fn deepest<N: Number>(dds: &Vec<N>) -> (r: N)
    ensures
        r == deepest_of(dds@),
{
    let mut best = N::from_int(0);
    let n: usize = dds.len();
    let mut i: usize = 0;
    while i < n
        invariant
            i <= n,
            n == dds@.len(),
            best == crate::metrics::largest(dds@.take(i as int)),
        decreases n - i,
    {
        proof {
            assert(dds@.take(i + 1).drop_last() =~= dds@.take(i as int));
        }
        best = best.max(dds[i]);
        i += 1;
    }
    proof {
        assert(dds@.take(n as int) =~= dds@);
    }
    best.max(ratio::<N>(1, 1_000_000_000))
}

fn draw_drawdowns<N: Number>(dds: &Vec<N>, depth: N, xstep: N) -> (r: String)
    ensures
        r@ == drawdown_path(dds@, depth, xstep),
{
    let mut s = "M0 0".to_owned();
    let n: usize = dds.len();
    let mut i: usize = 0;
    while i < n
        invariant
            i <= n,
            n == dds@.len(),
            s@ == drawdown_path(dds@.take(i as int), depth, xstep),
        decreases n - i,
    {
        proof {
            assert(dds@.take(i + 1).drop_last() =~= dds@.take(i as int));
        }
        s.append(" L");
        s.append(
            point_text(
                count::<N>(i).times(xstep),
                dds[i].over(depth).times(N::from_int(135)),
            ).as_str(),
        );
        i += 1;
    }
    proof {
        assert(dds@.take(n as int) =~= dds@);
    }
    s
}

/// The paths of an equity curve, 800 wide and 240 high, and of its drawdowns, 800 wide and 140
/// high; its lowest level and its highest.
pub fn build_svg_paths<N: Number>(curve: &[EquityPoint<N>]) -> (r: (String, String, N, N))
    ensures
        (r.0@, r.1@, r.2, r.3) == paths_of(levels_of(curve@)),
{
    let n: usize = curve.len();
    let zero = N::from_int(0);
    if n == 0 {
        return ("M0 120 L800 120".to_owned(), "M0 0 L800 0 L800 0 Z".to_owned(), zero, zero);
    }
    let (min, max): (N, N) = bounds(curve);
    let range = max.minus(min).max(ratio::<N>(1, 1_000_000_000));
    let less = count::<N>(n).minus(N::from_int(1));
    let xstep = if n > 1 {
        N::from_int(800).over(less)
    } else {
        zero
    };
    let eq = draw_equity(curve, min, range, xstep);
    let dds = find_drawdowns(curve);
    let depth = deepest(&dds);
    let mut dd = draw_drawdowns(&dds, depth, xstep);
    dd.append(" L");
    dd.append(less.max(zero).times(xstep).fixed(2).as_str());
    dd.append(" 0 Z");
    (eq, dd, min, max)
}

/// A line of the statistics.
pub open spec fn stat_row(k: Seq<char>, v: Seq<char>) -> Seq<char> {
    "<tr><td class=\"k\">"@ + k + "</td><td class=\"v\">"@ + v + "</td></tr>"@
}

fn row(k: &str, v: &str) -> (r: String)
    ensures
        r@ == stat_row(k@, v@),
{
    let mut s = "<tr><td class=\"k\">".to_owned();
    s.append(k);
    s.append("</td><td class=\"v\">");
    s.append(v);
    s.append("</td></tr>");
    s
}

/// A part in percent.
pub open spec fn percent_text<N: Number>(x: N) -> Seq<char> {
    x.product(N::integer(100)).shown_fixed(1) + "%"@
}

fn percent<N: Number>(x: N) -> (r: String)
    ensures
        r@ == percent_text(x),
{
    let mut s = x.times(N::from_int(100)).fixed(1);
    s.append("%");
    s
}

/// Two texts with a slash between them.
pub open spec fn either(a: Seq<char>, b: Seq<char>) -> Seq<char> {
    a + " / "@ + b
}

fn slashed(a: String, b: &str) -> (r: String)
    ensures
        r@ == either(a@, b@),
{
    let mut s = a;
    s.append(" / ");
    s.append(b);
    s
}

/// A text with another one in brackets.
pub open spec fn with_aside(a: Seq<char>, b: Seq<char>) -> Seq<char> {
    a + " ("@ + b + ")"@
}

fn aside(a: String, b: &str) -> (r: String)
    ensures
        r@ == with_aside(a@, b@),
{
    let mut s = a;
    s.append(" (");
    s.append(b);
    s.append(")");
    s
}

/// A number that is a percentage already.
pub open spec fn pct_text<N: Number>(x: N) -> Seq<char> {
    x.shown_fixed(2) + "%"@
}

fn pct<N: Number>(x: N) -> (r: String)
    ensures
        r@ == pct_text(x),
{
    let mut s = x.fixed(2);
    s.append("%");
    s
}

/// The lines of the statistics.
pub open spec fn stat_rows<N: Number>(plugin_name: Seq<char>, s: Summary<N>) -> Seq<Seq<char>> {
    seq![
        stat_row("Strategy"@, escaped(plugin_name)),
        stat_row("Currency"@, escaped(s.currency@)),
        stat_row("Starting balance"@, s.starting_balance.shown_fixed(2)),
        stat_row("Ending balance"@, s.ending_balance.shown_fixed(2)),
        stat_row("PnL"@, with_aside(s.pnl_total.shown_fixed(2), pct_text(s.pnl_pct))),
        stat_row("Total orders"@, decimal_int(s.total_orders as int)),
        stat_row("Fills"@, decimal_int(s.num_fills as int)),
        stat_row("Round-trips"@, decimal_int(s.num_trades as int)),
        stat_row("Win rate"@, percent_text(s.win_rate)),
        stat_row("Avg buy price"@, s.avg_buy_price.shown_fixed(4)),
        stat_row("Avg sell price"@, s.avg_sell_price.shown_fixed(4)),
        stat_row("Sharpe (per-snap)"@, s.sharpe.shown_fixed(3)),
        stat_row("Sortino (per-snap)"@, s.sortino.shown_fixed(3)),
        stat_row(
            "Max drawdown"@,
            with_aside(s.max_drawdown.shown_fixed(2), percent_text(s.max_drawdown_pct)),
        ),
        stat_row("Calmar"@, s.calmar_ratio.shown_fixed(3)),
        stat_row("Volatility (per-snap)"@, s.volatility.shown_fixed(5)),
        stat_row("Profit factor"@, s.profit_factor.shown_fixed(3)),
        stat_row("Expectancy"@, s.expectancy.shown_fixed(4)),
        stat_row("Payoff ratio"@, s.payoff_ratio.shown_fixed(3)),
        stat_row("Avg win / loss"@, either(s.avg_win.shown_fixed(3), s.avg_loss.shown_fixed(3))),
        stat_row(
            "Largest win / loss"@,
            either(s.largest_win.shown_fixed(2), s.largest_loss.shown_fixed(2)),
        ),
        stat_row(
            "Max consec W / L"@,
            either(
                decimal_int(s.max_consecutive_wins as int),
                decimal_int(s.max_consecutive_losses as int),
            ),
        ),
        stat_row("Exposure"@, percent_text(s.exposure_pct)),
        stat_row("Avg holding (s)"@, s.avg_holding_secs.shown_fixed(1)),
        stat_row("Volume (contracts)"@, s.total_volume_contracts.shown_fixed(0)),
        stat_row("Turnover"@, s.turnover.shown_fixed(2) + "x"@),
        stat_row("Total fees"@, s.total_fees.shown_fixed(2)),
        stat_row("Fees % of gross"@, percent_text(s.fees_pct_of_gross)),
        stat_row("Slippage cost"@, s.total_slippage_cost.shown_fixed(2)),
        stat_row("Liquidity rewards"@, s.liquidity_rewards.shown_fixed(2)),
        stat_row("Gross PnL (ex costs)"@, s.gross_pnl_ex_costs.shown_fixed(2)),
    ]
}

fn add_row(rows: &mut Vec<String>, k: &str, v: &str)
    ensures
        texts(final(rows)@) == texts(old(rows)@).push(stat_row(k@, v@)),
{
    let s = row(k, v);
    let ghost before = rows@;
    let ghost said = s@;
    rows.push(s);
    proof {
        assert(texts(rows@) =~= texts(before).push(said));
    }
}

fn statistics<N: Number>(plugin_name: &str, s: &Summary<N>) -> (r: Vec<String>)
    ensures
        texts(r@) == stat_rows(plugin_name@, *s),
{
    let mut r: Vec<String> = Vec::new();
    proof {
        assert(texts(r@) =~= Seq::<Seq<char>>::empty());
    }
    add_row(&mut r, "Strategy", html_escape(plugin_name).as_str());
    add_row(&mut r, "Currency", html_escape(s.currency.as_str()).as_str());
    add_row(&mut r, "Starting balance", s.starting_balance.fixed(2).as_str());
    add_row(&mut r, "Ending balance", s.ending_balance.fixed(2).as_str());
    add_row(&mut r, "PnL", aside(s.pnl_total.fixed(2), pct(s.pnl_pct).as_str()).as_str());
    add_row(&mut r, "Total orders", i64_text(s.total_orders).as_str());
    add_row(&mut r, "Fills", i64_text(s.num_fills).as_str());
    add_row(&mut r, "Round-trips", i64_text(s.num_trades).as_str());
    add_row(&mut r, "Win rate", percent(s.win_rate).as_str());
    add_row(&mut r, "Avg buy price", s.avg_buy_price.fixed(4).as_str());
    add_row(&mut r, "Avg sell price", s.avg_sell_price.fixed(4).as_str());
    add_row(&mut r, "Sharpe (per-snap)", s.sharpe.fixed(3).as_str());
    add_row(&mut r, "Sortino (per-snap)", s.sortino.fixed(3).as_str());
    add_row(
        &mut r,
        "Max drawdown",
        aside(s.max_drawdown.fixed(2), percent(s.max_drawdown_pct).as_str()).as_str(),
    );
    add_row(&mut r, "Calmar", s.calmar_ratio.fixed(3).as_str());
    add_row(&mut r, "Volatility (per-snap)", s.volatility.fixed(5).as_str());
    add_row(&mut r, "Profit factor", s.profit_factor.fixed(3).as_str());
    add_row(&mut r, "Expectancy", s.expectancy.fixed(4).as_str());
    add_row(&mut r, "Payoff ratio", s.payoff_ratio.fixed(3).as_str());
    add_row(
        &mut r,
        "Avg win / loss",
        slashed(s.avg_win.fixed(3), s.avg_loss.fixed(3).as_str()).as_str(),
    );
    add_row(
        &mut r,
        "Largest win / loss",
        slashed(s.largest_win.fixed(2), s.largest_loss.fixed(2).as_str()).as_str(),
    );
    add_row(
        &mut r,
        "Max consec W / L",
        slashed(
            i64_text(s.max_consecutive_wins),
            i64_text(s.max_consecutive_losses).as_str(),
        ).as_str(),
    );
    add_row(&mut r, "Exposure", percent(s.exposure_pct).as_str());
    add_row(&mut r, "Avg holding (s)", s.avg_holding_secs.fixed(1).as_str());
    add_row(&mut r, "Volume (contracts)", s.total_volume_contracts.fixed(0).as_str());
    let mut times = s.turnover.fixed(2);
    times.append("x");
    add_row(&mut r, "Turnover", times.as_str());
    add_row(&mut r, "Total fees", s.total_fees.fixed(2).as_str());
    add_row(&mut r, "Fees % of gross", percent(s.fees_pct_of_gross).as_str());
    add_row(&mut r, "Slippage cost", s.total_slippage_cost.fixed(2).as_str());
    add_row(&mut r, "Liquidity rewards", s.liquidity_rewards.fixed(2).as_str());
    add_row(&mut r, "Gross PnL (ex costs)", s.gross_pnl_ex_costs.fixed(2).as_str());
    proof {
        assert(texts(r@) =~= stat_rows(plugin_name@, *s));
    }
    r
}

/// The page up to its title.
pub const PAGE_TITLE: &'static str = "<!DOCTYPE html>\n<html lang=\"en\"><head><meta charset=\"utf-8\">\n<meta name=\"viewport\" content=\"width=device-width, initial-scale=1\">\n<title>Backtest Tearsheet \u{2014} ";

/// The page from its title to the name of the strategy.
pub const PAGE_HEAD: &'static str = "</title>\n<style>\n  :root { --bg:#0d1117; --panel:#161b22; --fg:#e6edf3; --muted:#8b949e; --accent:#2f81f7; --red:#f85149; }\n  * { box-sizing:border-box; }\n  body { margin:0; background:var(--bg); color:var(--fg); font-family:ui-monospace,SFMono-Regular,Menlo,monospace; }\n  .wrap { max-width:980px; margin:0 auto; padding:24px; }\n  h1 { font-size:20px; margin:0 0 4px; }\n  .sub { color:var(--muted); margin-bottom:20px; font-size:13px; }\n  .grid { display:grid; grid-template-columns:1fr 320px; gap:20px; align-items:start; }\n  .panel { background:var(--panel); border:1px solid #30363d; border-radius:10px; padding:16px; }\n  .panel h2 { font-size:13px; color:var(--muted); margin:0 0 10px; text-transform:uppercase; letter-spacing:.05em; }\n  table { width:100%; border-collapse:collapse; font-size:13px; }\n  td { padding:5px 4px; border-bottom:1px solid #21262d; }\n  td.k { color:var(--muted); }\n  td.v { text-align:right; }\n  svg { width:100%; height:auto; display:block; }\n  .pnl-pos { color:#3fb950; } .pnl-neg { color:var(--red); }\n  @media (max-width:760px) { .grid { grid-template-columns:1fr; } }\n</style></head>\n<body><div class=\"wrap\">\n  <h1>Backtest Tearsheet</h1>\n  <div class=\"sub\">strategy: <b>";

/// The page up to the kind of its gain.
pub const PAGE_PNL: &'static str = "</b> &middot; PnL <b class=\"";

/// The page up to the number of equity points.
pub const PAGE_POINTS: &'static str = "%)</b> &middot; ";

/// The page up to the path of the equity curve.
pub const PAGE_EQUITY: &'static str = " equity points</div>\n  <div class=\"grid\">\n    <div>\n      <div class=\"panel\">\n        <h2>Equity curve</h2>\n        <svg viewBox=\"0 0 800 240\" preserveAspectRatio=\"none\">\n          <rect x=\"0\" y=\"0\" width=\"800\" height=\"240\" fill=\"none\"/>\n          <path d=\"";

/// The page up to the lowest level.
pub const PAGE_RANGE: &'static str = "\" fill=\"none\" stroke=\"var(--accent)\" stroke-width=\"2\"/>\n        </svg>\n        <div class=\"sub\" style=\"margin:6px 0 0\">min ";

/// The page up to the path of the drawdowns.
pub const PAGE_DRAWDOWN: &'static str = "</div>\n      </div>\n      <div class=\"panel\" style=\"margin-top:20px\">\n        <h2>Drawdown</h2>\n        <svg viewBox=\"0 0 800 140\" preserveAspectRatio=\"none\">\n          <path d=\"";

/// The page up to the lines of the statistics.
pub const PAGE_STATS: &'static str = "\" fill=\"rgba(248,81,73,0.18)\" stroke=\"var(--red)\" stroke-width=\"1.5\"/>\n        </svg>\n      </div>\n    </div>\n    <div class=\"panel\">\n      <h2>Statistics</h2>\n      <table>";

/// The page behind the lines of the statistics.
pub const PAGE_END: &'static str = "</table>\n    </div>\n  </div>\n</div></body></html>";

/// The page of a report.
pub open spec fn page<N: Number>(r: Report<N>) -> Seq<char> {
    let s = r.summary;
    let (eq_path, dd_path, min, max) = paths_of(levels_of(r.equity_curve@));
    let cls = if N::integer(0).at_most(s.pnl_total) {
        "pnl-pos"@
    } else {
        "pnl-neg"@
    };
    PAGE_TITLE@ + escaped(r.plugin_name@) + PAGE_HEAD@ + escaped(r.plugin_name@) + PAGE_PNL@ + cls
        + "\">"@ + s.pnl_total.shown_fixed(2) + " "@ + escaped(s.currency@) + " ("@
        + s.pnl_pct.shown_fixed(2) + PAGE_POINTS@ + decimal(r.equity_curve@.len()) + PAGE_EQUITY@
        + eq_path + PAGE_RANGE@ + min.shown_fixed(2) + " &middot; max "@ + max.shown_fixed(2)
        + PAGE_DRAWDOWN@ + dd_path + PAGE_STATS@ + joined(
        stat_rows(r.plugin_name@, s),
        "\n"@,
    ) + PAGE_END@
}

/// Writes the page of a report: it stands alone, with its style and its drawings in it.
pub fn render_tearsheet<N: Number>(report: &Report<N>) -> (r: String)
    ensures
        r@ == page(*report),
{
    let s = &report.summary;
    let (eq_path, dd_path, min, max): (String, String, N, N) = build_svg_paths(
        report.equity_curve.as_slice(),
    );
    let name = html_escape(report.plugin_name.as_str());
    let rows = statistics(report.plugin_name.as_str(), s);
    let mut out = PAGE_TITLE.to_owned();
    out.append(name.as_str());
    out.append(PAGE_HEAD);
    out.append(name.as_str());
    out.append(PAGE_PNL);
    if N::from_int(0).is_at_most(s.pnl_total) {
        out.append("pnl-pos");
    } else {
        out.append("pnl-neg");
    }
    out.append("\">");
    out.append(s.pnl_total.fixed(2).as_str());
    out.append(" ");
    out.append(html_escape(s.currency.as_str()).as_str());
    out.append(" (");
    out.append(s.pnl_pct.fixed(2).as_str());
    out.append(PAGE_POINTS);
    out.append(u64_text(report.equity_curve.len() as u64).as_str());
    out.append(PAGE_EQUITY);
    out.append(eq_path.as_str());
    out.append(PAGE_RANGE);
    out.append(min.fixed(2).as_str());
    out.append(" &middot; max ");
    out.append(max.fixed(2).as_str());
    out.append(PAGE_DRAWDOWN);
    out.append(dd_path.as_str());
    out.append(PAGE_STATS);
    out.append(join(&rows, "\n").as_str());
    out.append(PAGE_END);
    out
}

// ---- what a report says ------------------------------------------------------------------------

/// A report ends at the last point of the equity curve, or where it began without one. What was
/// gained is the end less the start; in percent of the start it misses by less than a ten-thousandth
/// of a percent, and never overshoots.
pub proof fn law_gains_are_the_end_less_the_start(
    r: Report<Fixed>,
    plugin_name: Seq<char>,
    pf: PortfolioView<Fixed>,
    cfg: BacktestConfig<Fixed>,
)
    requires
        reports(r, plugin_name, pf, cfg),
        1_000_000 <= cfg.starting_balance.units <= 1_000_000_000_000_000,
        pf.equity_curve.len() > 0 ==> -1_000_000_000_000_000
            <= pf.equity_curve.last().total.units <= 1_000_000_000_000_000,
    ensures
        ({
            let s = r.summary;
            let start = cfg.starting_balance.units;
            let gained = s.pnl_total.units;
            let pct = s.pnl_pct.units * start;
            &&& pf.equity_curve.len() > 0 ==> s.ending_balance == pf.equity_curve.last().total
            &&& pf.equity_curve.len() == 0 ==> s.ending_balance == cfg.starting_balance
            &&& s.starting_balance == cfg.starting_balance
            &&& gained == s.ending_balance.units - start
            &&& gained >= 0 ==> pct <= gained * 100_000_000 < pct + start * 100
            &&& gained <= 0 ==> pct - start * 100 < gained * 100_000_000 <= pct
        }),
{
    let s = r.summary;
    let start = cfg.starting_balance.units as int;
    let levels = levels_seen(pf.equity_curve);
    if levels.len() > 0 {
        assert(levels.last() == pf.equity_curve.last().total);
    }
    let gained = s.pnl_total.units as int;
    assert(gained == s.ending_balance.units - start);
    lemma_speck_is_zero();
    let part = s.pnl_total.quotient(cfg.starting_balance);
    let c = cut_quotient(gained * 1_000_000, start);
    lemma_cut(gained * 1_000_000, start);
    assert(-2_000_000_000_000_000 <= c <= 2_000_000_000_000_000) by (nonlinear_arith)
        requires
            start >= 1_000_000,
            -2_000_000_000_000_000 <= gained <= 2_000_000_000_000_000,
            gained * 1_000_000 >= 0 ==> 0 <= c * start <= gained * 1_000_000,
            gained * 1_000_000 <= 0 ==> gained * 1_000_000 <= c * start <= 0,
    ;
    assert(part.units == c);
    let hundred = Fixed::integer(100);
    assert(hundred.units == 100 * 1_000_000);
    law_whole_products_are_exact(hundred, part, 100);
    assert(s.pnl_pct.units == 100 * c);
    assert((100 * c) * start == 100 * (c * start)) by (nonlinear_arith);
}

/// What the prices alone have gained is what was gained, with the fees and the slippage added back
/// and, where they were credited, the rewards taken off.
pub proof fn law_costs_are_added_back(
    r: Report<Fixed>,
    plugin_name: Seq<char>,
    pf: PortfolioView<Fixed>,
    cfg: BacktestConfig<Fixed>,
)
    requires
        reports(r, plugin_name, pf, cfg),
        modest(r.summary.pnl_total),
        modest(pf.liquidity_rewards),
        modest(pf.total_fees),
        modest(pf.total_slippage_cost),
    ensures
        r.summary.gross_pnl_ex_costs.units == r.summary.pnl_total.units + r.summary.total_fees.units
            + r.summary.total_slippage_cost.units - if cfg.execution.include_rewards {
            r.summary.liquidity_rewards.units as int
        } else {
            0
        },
{
    assert(Fixed::integer(0).units == 0);
}

/// The average prices are what was paid for what was bought over its contracts, and what was got for
/// what was sold over its contracts. They miss by less than a millionth of a dollar, and never
/// overshoot.
pub proof fn law_average_prices(
    r: Report<Fixed>,
    plugin_name: Seq<char>,
    pf: PortfolioView<Fixed>,
    cfg: BacktestConfig<Fixed>,
)
    requires
        reports(r, plugin_name, pf, cfg),
        0 <= pf.buy_notional.units <= pf.buy_qty.units,
        0 <= pf.sell_notional.units <= pf.sell_qty.units,
    ensures
        ({
            let bought = r.summary.avg_buy_price.units * pf.buy_qty.units;
            let sold = r.summary.avg_sell_price.units * pf.sell_qty.units;
            &&& pf.buy_qty.units > 0 ==> bought <= pf.buy_notional.units * 1_000_000 < bought
                + pf.buy_qty.units
            &&& pf.buy_qty.units == 0 ==> r.summary.avg_buy_price.units == 0
            &&& pf.sell_qty.units > 0 ==> sold <= pf.sell_notional.units * 1_000_000 < sold
                + pf.sell_qty.units
            &&& pf.sell_qty.units == 0 ==> r.summary.avg_sell_price.units == 0
        }),
{
    assert(Fixed::integer(0).units == 0);
    if pf.buy_qty.units > 0 {
        lemma_part_of_all(pf.buy_notional, pf.buy_qty);
    }
    if pf.sell_qty.units > 0 {
        lemma_part_of_all(pf.sell_notional, pf.sell_qty);
    }
}

proof fn lemma_part_of_all(a: Fixed, b: Fixed)
    requires
        0 <= a.units <= b.units,
        b.units > 0,
    ensures
        ({
            let p = a.quotient(b).units * b.units;
            p <= a.units * 1_000_000 < p + b.units
        }),
{
    let (x, y) = (a.units as int, b.units as int);
    lemma_cut(x * 1_000_000, y);
    let c = cut_quotient(x * 1_000_000, y);
    assert(0 <= c <= 1_000_000) by (nonlinear_arith)
        requires
            0 <= c * y <= x * 1_000_000,
            0 <= x <= y,
            y > 0,
    ;
    law_quotients_are_cut(a, b);
}

/// What was bought and sold, over the starting balance, is the turnover; the points with anything
/// held, over all points, are the exposure; the time that round trips took, over their count, is how
/// long one took. Each misses by less than a millionth, and never overshoots.
pub proof fn law_activity_is_shown(
    r: Report<Fixed>,
    plugin_name: Seq<char>,
    pf: PortfolioView<Fixed>,
    cfg: BacktestConfig<Fixed>,
)
    requires
        reports(r, plugin_name, pf, cfg),
        1_000_000 <= cfg.starting_balance.units,
        0 <= pf.buy_notional.units <= 1_000_000_000_000_000_000,
        0 <= pf.sell_notional.units <= 1_000_000_000_000_000_000,
        0 <= pf.snapshots_with_position <= pf.equity_curve.len() <= 1_000_000_000_000,
        0 <= pf.holding_secs_sum.units < LARGEST,
        0 <= pf.holding_count <= 1_000_000_000_000,
    ensures
        ({
            let s = r.summary;
            let n = pf.equity_curve.len() as int;
            let turned = s.turnover.units * cfg.starting_balance.units;
            let all = (pf.buy_notional.units + pf.sell_notional.units) * 1_000_000;
            &&& turned <= all < turned + cfg.starting_balance.units
            &&& n > 0 ==> s.exposure_pct.units * n <= pf.snapshots_with_position * 1_000_000
                < s.exposure_pct.units * n + n
            &&& n == 0 ==> s.exposure_pct.units == 0
            &&& pf.holding_count > 0 ==> s.avg_holding_secs.units * pf.holding_count
                <= pf.holding_secs_sum.units < s.avg_holding_secs.units * pf.holding_count
                + pf.holding_count
            &&& pf.holding_count == 0 ==> s.avg_holding_secs.units == 0
        }),
{
    let s = r.summary;
    let n = pf.equity_curve.len() as int;
    let start = cfg.starting_balance;
    lemma_speck_is_zero();
    assert(Fixed::integer(0).units == 0);
    let all = pf.buy_notional.sum(pf.sell_notional);
    assert(all.units == pf.buy_notional.units + pf.sell_notional.units);
    assert(!nothing(start));
    let (x, y) = (all.units as int, start.units as int);
    lemma_cut(x * 1_000_000, y);
    let c = cut_quotient(x * 1_000_000, y);
    assert(0 <= c <= 2_000_000_000_000_000_000) by (nonlinear_arith)
        requires
            0 <= c * y <= x * 1_000_000,
            0 <= x <= 2_000_000_000_000_000_000,
            y >= 1_000_000,
    ;
    law_quotients_are_cut(all, start);
    if n > 0 {
        let m = pf.snapshots_with_position as int;
        let (a, b) = (Fixed::integer(m), Fixed::integer(n));
        assert(a.units == m * 1_000_000 && b.units == n * 1_000_000);
        lemma_part_of_all(a, b);
        let e = s.exposure_pct.units as int;
        assert(s.exposure_pct == a.quotient(b));
        assert(e * (n * 1_000_000) == (e * n) * 1_000_000) by (nonlinear_arith);
    }
    if pf.holding_count > 0 {
        let h = pf.holding_count as int;
        let b = Fixed::integer(h);
        assert(b.units == h * 1_000_000);
        let t = pf.holding_secs_sum.units as int;
        lemma_cut(t * 1_000_000, h * 1_000_000);
        let v = cut_quotient(t * 1_000_000, h * 1_000_000);
        assert(0 <= v <= t) by (nonlinear_arith)
            requires
                0 <= v * (h * 1_000_000) <= t * 1_000_000,
                h >= 1,
                t >= 0,
        ;
        law_quotients_are_cut(pf.holding_secs_sum, b);
        assert(v * (h * 1_000_000) == (v * h) * 1_000_000) by (nonlinear_arith);
    }
}

/// The counts, totals and marks of an account are reported as they stand, each under its own name,
/// and the lines of the breakdown are the totals of the instruments, in their order.
pub proof fn law_totals_are_reported<N: Number>(
    r: Report<N>,
    plugin_name: Seq<char>,
    pf: PortfolioView<N>,
    cfg: BacktestConfig<N>,
)
    requires
        reports(r, plugin_name, pf, cfg),
        pf.round_trip_pnls.len() <= i64::MAX,
    ensures
        r.plugin_name@ == plugin_name,
        r.summary.currency@ == cfg.currency@,
        r.summary.total_orders == pf.total_orders,
        r.summary.num_fills == pf.total_fills,
        r.summary.num_trades == pf.round_trip_pnls.len(),
        r.summary.num_round_trips == r.summary.num_trades,
        r.summary.total_fees == pf.total_fees,
        r.summary.total_slippage_cost == pf.total_slippage_cost,
        r.summary.total_volume_contracts == pf.total_volume,
        r.summary.liquidity_rewards == pf.liquidity_rewards,
        r.summary.settled_pnl == pf.settled_pnl,
        r.summary.num_settled == pf.num_settled,
        r.summary.halted == pf.halted,
        r.summary.halt_reason@ == pf.halt_reason,
        r.summary.risk_rejections == pf.risk_rejections,
        r.summary.post_only_rejects == pf.post_only_rejects,
        r.equity_curve@.len() == pf.equity_curve.len(),
        forall|i: int|
            0 <= i < pf.equity_curve.len() ==> {
                &&& (#[trigger] r.equity_curve@[i]).ts_ns == pf.equity_curve[i].ts_ns
                &&& r.equity_curve@[i].total == pf.equity_curve[i].total
            },
        r.instrument_breakdown@.len() == pf.instrument_stats.len(),
        forall|i: int|
            0 <= i < pf.instrument_stats.len() ==> {
                let b = #[trigger] r.instrument_breakdown@[i];
                let t = pf.instrument_stats[i].1;
                &&& b.instrument@ == pf.instrument_stats[i].0
                &&& b.pnl == t.pnl
                &&& b.num_fills == t.num_fills
                &&& b.num_round_trips == t.num_round_trips
                &&& b.net_position == t.net_position
                &&& b.volume == t.volume
            },
{
    assert forall|i: int| 0 <= i < pf.equity_curve.len() implies {
        &&& (#[trigger] r.equity_curve@[i]).ts_ns == pf.equity_curve[i].ts_ns
        &&& r.equity_curve@[i].total == pf.equity_curve[i].total
    } by {
        assert(equity_views(r.equity_curve@)[i] == r.equity_curve@[i]@);
    }
    assert(equity_views(r.equity_curve@).len() == r.equity_curve@.len());
}

/// The figures of a report are those of its own curve and of its own round trips: the ratio of Sharpe
/// and the volatility look at all returns, the ratio of Sortino and the downside only at those below
/// 0, the drawdowns at the levels, and the others at what round trips gained.
pub proof fn law_figures_are_of_the_curve<N: Number>(
    r: Report<N>,
    plugin_name: Seq<char>,
    pf: PortfolioView<N>,
    cfg: BacktestConfig<N>,
)
    requires
        reports(r, plugin_name, pf, cfg),
    ensures
        ({
            let s = r.summary;
            let levels = levels_of(r.equity_curve@);
            let rs = returns_of(levels);
            let t = stats_of(pf.round_trip_pnls);
            &&& s.volatility == deviation_of(rs, mean_of(rs))
            &&& s.sharpe == per_deviation(mean_of(rs), s.volatility)
            &&& s.downside_volatility == downside_of(rs)
            &&& (exists|i: int| 0 <= i < rs.len() && (#[trigger] rs[i]).below(N::integer(0)))
                ==> s.sortino == per_deviation(mean_of(rs), s.downside_volatility)
            &&& (forall|i: int| 0 <= i < rs.len() ==> !(#[trigger] rs[i]).below(N::integer(0)))
                ==> s.sortino == N::integer(0)
            &&& s.max_drawdown == falls_of(levels).1
            &&& s.max_drawdown_pct == falls_of(levels).2
            &&& s.calmar_ratio == calmar_of(s.pnl_pct, s.max_drawdown_pct)
            &&& s.win_rate == wins_part(pf.round_trip_pnls)
            &&& s.gross_profit == t.gross_profit
            &&& s.gross_loss == t.gross_loss
            &&& s.avg_win == t.avg_win
            &&& s.avg_loss == t.avg_loss
            &&& s.expectancy == t.expectancy
            &&& s.avg_trade_pnl == t.avg_trade_pnl
            &&& s.largest_win == t.largest_win
            &&& s.largest_loss == t.largest_loss
            &&& s.max_consecutive_wins == t.max_consecutive_wins
            &&& s.max_consecutive_losses == t.max_consecutive_losses
            &&& t.profit_factor.finite() ==> s.profit_factor == t.profit_factor
            &&& t.payoff_ratio.finite() ==> s.payoff_ratio == t.payoff_ratio
        }),
{
    let levels = levels_of(r.equity_curve@);
    assert(levels =~= levels_seen(pf.equity_curve)) by {
        assert forall|i: int| 0 <= i < r.equity_curve@.len() implies r.equity_curve@[i].total
            == pf.equity_curve[i].total by {
            assert(equity_views(r.equity_curve@)[i] == r.equity_curve@[i]@);
        }
        assert(equity_views(r.equity_curve@).len() == r.equity_curve@.len());
    }
    lemma_negatives_exist(returns_of(levels));
}

proof fn lemma_negatives_exist<N: Number>(xs: Seq<N>)
    ensures
        (negatives(xs).len() > 0) == (exists|i: int|
            0 <= i < xs.len() && (#[trigger] xs[i]).below(N::integer(0))),
    decreases xs.len(),
{
    if xs.len() > 0 {
        let rest = xs.drop_last();
        lemma_negatives_exist(rest);
        assert(xs.last() == xs[xs.len() - 1]);
        if exists|i: int| 0 <= i < rest.len() && (#[trigger] rest[i]).below(N::integer(0)) {
            let i = choose|i: int| 0 <= i < rest.len() && (#[trigger] rest[i]).below(N::integer(0));
            assert(xs[i] == rest[i]);
        }
        if exists|i: int| 0 <= i < xs.len() && (#[trigger] xs[i]).below(N::integer(0)) {
            let i = choose|i: int| 0 <= i < xs.len() && (#[trigger] xs[i]).below(N::integer(0));
            if i < rest.len() {
                assert(rest[i] == xs[i]);
            }
        }
    }
}

/// A position is counted as one where it is open, or where anything was realized on it.
pub proof fn law_positions_are_counted(positions: Seq<(Seq<char>, Position<Fixed>)>)
    requires
        positions.len() <= i64::MAX,
    ensures
        used_positions(positions) == positions.filter(
            |e: (Seq<char>, Position<Fixed>)|
                e.1.net_qty.units != 0 || e.1.realized_pnl.units != 0,
        ).len(),
        used_positions(positions) <= positions.len(),
    decreases positions.len(),
{
    reveal(Seq::filter);
    lemma_speck_is_zero();
    assert(Fixed::integer(0).units == 0);
    if positions.len() > 0 {
        law_positions_are_counted(positions.drop_last());
    }
}

/// A ratio without a loss is reported as the number that stands for it, and any other one as it is.
pub proof fn law_ratios_are_reported(x: Fixed)
    ensures
        -LARGEST < x.units < LARGEST ==> reportable(x) == x,
        x.units == LARGEST ==> reportable(x).units == 1_000_000_000_000_000,
{
}

/// A text is escaped character by character: the four that could be taken for markup are written as
/// their names, and every other one as itself.
pub proof fn law_escaping_goes_character_by_character(s: Seq<char>, c: char)
    ensures
        c == '<' ==> escaped(s.push(c)) == escaped(s) + seq!['&', 'l', 't', ';'],
        c == '>' ==> escaped(s.push(c)) == escaped(s) + seq!['&', 'g', 't', ';'],
        c == '&' ==> escaped(s.push(c)) == escaped(s) + seq!['&', 'a', 'm', 'p', ';'],
        c == '"' ==> escaped(s.push(c)) == escaped(s) + seq!['&', 'q', 'u', 'o', 't', ';'],
        c != '<' && c != '>' && c != '&' && c != '"' ==> escaped(s.push(c)) == escaped(s).push(c),
        escaped(Seq::empty()).len() == 0,
{
    assert(s.push(c).drop_last() =~= s);
    reveal_strlit("&lt;");
    reveal_strlit("&gt;");
    reveal_strlit("&amp;");
    reveal_strlit("&quot;");
    assert("&lt;"@ =~= seq!['&', 'l', 't', ';']);
    assert("&gt;"@ =~= seq!['&', 'g', 't', ';']);
    assert("&amp;"@ =~= seq!['&', 'a', 'm', 'p', ';']);
    assert("&quot;"@ =~= seq!['&', 'q', 'u', 'o', 't', ';']);
    if c != '<' && c != '>' && c != '&' && c != '"' {
        assert(escaped(s) + seq![c] =~= escaped(s).push(c));
    }
}

/// The bounds of a chart are the lowest and the highest of the levels.
pub proof fn law_charts_span_the_levels(levels: Seq<Fixed>, i: int)
    requires
        0 <= i < levels.len(),
    ensures
        lowest(levels).units <= levels[i].units <= highest(levels).units,
        exists|j: int| 0 <= j < levels.len() && (#[trigger] levels[j]) == lowest(levels) || lowest(
            levels,
        ).units == LARGEST,
    decreases levels.len(),
{
    let rest = levels.drop_last();
    let n = levels.len() - 1;
    assert(levels.last() == levels[n]);
    if rest.len() > 0 {
        let j = if i < n {
            i
        } else {
            0
        };
        assert(rest[j] == levels[j]);
        law_charts_span_the_levels(rest, j);
        if lowest(levels) == lowest(rest) && exists|k: int|
            0 <= k < rest.len() && (#[trigger] rest[k]) == lowest(rest) {
            let k = choose|k: int| 0 <= k < rest.len() && (#[trigger] rest[k]) == lowest(rest);
            assert(levels[k] == rest[k]);
        }
    } else {
        assert(lowest(rest).units == LARGEST);
    }
}

} // verus!
