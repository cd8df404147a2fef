//! How a run performed, from its equity curve and its round trips.
//!
//! Returns are those from one equity point to the next. Ratios are not annualized.
use crate::fixed::{
    cut_quotient, law_quotients_are_cut, law_roots_are_cut, lemma_cut, size, Fixed, LARGEST,
};
use crate::number::{count, fraction_of, ratio, tally, Number};
use crate::portfolio::{is_nothing, lemma_speck_is_zero, nothing, speck, tiny};
use crate::types::EquityPoint;
use vstd::prelude::*;

verus! {

/// The equity at each point.
pub open spec fn levels_of<N>(curve: Seq<EquityPoint<N>>) -> Seq<N> {
    curve.map_values(|p: EquityPoint<N>| p.total)
}

/// The return from one level to the next; 0 from nothing.
pub open spec fn return_from<N: Number>(prev: N, cur: N) -> N {
    if speck::<N>().below(prev.magnitude()) {
        cur.difference(prev).quotient(prev)
    } else {
        N::integer(0)
    }
}

/// The returns between some levels.
pub open spec fn returns_of<N: Number>(levels: Seq<N>) -> Seq<N> {
    if levels.len() == 0 {
        Seq::empty()
    } else {
        Seq::new((levels.len() - 1) as nat, |i: int| return_from(levels[i], levels[i + 1]))
    }
}

/// The sum of some numbers, from the first on.
pub open spec fn total_of<N: Number>(xs: Seq<N>) -> N
    decreases xs.len(),
{
    if xs.len() == 0 {
        N::integer(0)
    } else {
        total_of(xs.drop_last()).sum(xs.last())
    }
}

/// The sum of the squares of the distances of some numbers from one.
pub open spec fn squares_of<N: Number>(xs: Seq<N>, m: N) -> N
    decreases xs.len(),
{
    if xs.len() == 0 {
        N::integer(0)
    } else {
        let d = xs.last().difference(m);
        squares_of(xs.drop_last(), m).sum(d.product(d))
    }
}

/// The sum of the squares of some numbers.
pub open spec fn own_squares<N: Number>(xs: Seq<N>) -> N
    decreases xs.len(),
{
    if xs.len() == 0 {
        N::integer(0)
    } else {
        own_squares(xs.drop_last()).sum(xs.last().product(xs.last()))
    }
}

/// The mean; 0 of nothing.
pub open spec fn mean_of<N: Number>(xs: Seq<N>) -> N {
    if xs.len() == 0 {
        N::integer(0)
    } else {
        total_of(xs).quotient(tally::<N>(xs.len()))
    }
}

/// The sample standard deviation about a mean; 0 of fewer than two.
pub open spec fn deviation_of<N: Number>(xs: Seq<N>, m: N) -> N {
    if xs.len() < 2 {
        N::integer(0)
    } else {
        squares_of(xs, m).quotient(tally::<N>(xs.len()).difference(N::integer(1))).root()
    }
}

/// Those of some numbers that are below 0.
pub open spec fn negatives<N: Number>(xs: Seq<N>) -> Seq<N>
    decreases xs.len(),
{
    if xs.len() == 0 {
        xs
    } else if xs.last().below(N::integer(0)) {
        negatives(xs.drop_last()).push(xs.last())
    } else {
        negatives(xs.drop_last())
    }
}

/// Those of some numbers that are above 0.
pub open spec fn positives<N: Number>(xs: Seq<N>) -> Seq<N>
    decreases xs.len(),
{
    if xs.len() == 0 {
        xs
    } else if N::integer(0).below(xs.last()) {
        positives(xs.drop_last()).push(xs.last())
    } else {
        positives(xs.drop_last())
    }
}

/// The root of the mean square of those that are below 0; 0 where none is.
pub open spec fn downside_of<N: Number>(xs: Seq<N>) -> N {
    let d = negatives(xs);
    if d.len() == 0 {
        N::integer(0)
    } else {
        own_squares(d).quotient(tally::<N>(d.len())).root()
    }
}

/// A ratio whose divisor is a deviation; 0 where that is nothing.
pub open spec fn per_deviation<N: Number>(m: N, s: N) -> N {
    if speck::<N>().below(s) {
        m.quotient(s)
    } else {
        N::integer(0)
    }
}

/// The largest of some numbers and of 0.
pub open spec fn largest<N: Number>(xs: Seq<N>) -> N
    decreases xs.len(),
{
    if xs.len() == 0 {
        N::integer(0)
    } else {
        largest(xs.drop_last()).greater(xs.last())
    }
}

/// The least of some numbers and of 0.
pub open spec fn least<N: Number>(xs: Seq<N>) -> N
    decreases xs.len(),
{
    if xs.len() == 0 {
        N::integer(0)
    } else {
        least(xs.drop_last()).lesser(xs.last())
    }
}

/// The peak of some levels, and the deepest fall from a peak, as an amount and as a part of it.
pub open spec fn falls_of<N: Number>(levels: Seq<N>) -> (N, N, N)
    decreases levels.len(),
{
    if levels.len() == 0 {
        (N::unbounded().negated(), N::integer(0), N::integer(0))
    } else {
        let (was, abs, pct) = falls_of(levels.drop_last());
        let v = levels.last();
        let peak = if was.below(v) {
            v
        } else {
            was
        };
        let dd = peak.difference(v);
        (
            peak,
            if abs.below(dd) {
                dd
            } else {
                abs
            },
            if speck::<N>().below(peak) && pct.below(dd.quotient(peak)) {
                dd.quotient(peak)
            } else {
                pct
            },
        )
    }
}

/// The longest streaks of wins and of losses, and the streaks that the numbers end with. A 0 ends
/// both.
pub open spec fn streaks_of<N: Number>(pnls: Seq<N>) -> (i64, i64, i64, i64)
    decreases pnls.len(),
{
    if pnls.len() == 0 {
        (0, 0, 0, 0)
    } else {
        let (max_w, max_l, w, l) = streaks_of(pnls.drop_last());
        let p = pnls.last();
        let wins = if N::integer(0).below(p) {
            w.wrapping_add(1)
        } else {
            0
        };
        let losses = if !N::integer(0).below(p) && p.below(N::integer(0)) {
            l.wrapping_add(1)
        } else {
            0
        };
        (
            if max_w < wins {
                wins
            } else {
                max_w
            },
            if max_l < losses {
                losses
            } else {
                max_l
            },
            wins,
            losses,
        )
    }
}

/// The returns between the points of an equity curve.
pub fn snapshot_returns<N: Number>(curve: &[EquityPoint<N>]) -> (r: Vec<N>)
    ensures
        r@ == returns_of(levels_of(curve@)),
{
    let ghost levels = levels_of(curve@);
    let mut r: Vec<N> = Vec::new();
    let n: usize = curve.len();
    if n == 0 {
        return r;
    }
    let mut i: usize = 0;
    while i < n - 1
        invariant
            n >= 1,
            i <= n - 1,
            n == curve@.len(),
            levels == levels_of(curve@),
            r@.len() == i,
            forall|j: int|
                0 <= j < i ==> (#[trigger] r@[j]) == return_from(levels[j], levels[j + 1]),
        decreases n - i,
    {
        let prev = curve[i].total;
        let cur = curve[i + 1].total;
        let x = if tiny::<N>().is_below(prev.abs()) {
            cur.minus(prev).over(prev)
        } else {
            N::from_int(0)
        };
        r.push(x);
        i += 1;
    }
    proof {
        assert(r@ =~= returns_of(levels));
    }
    r
}

fn total<N: Number>(xs: &[N]) -> (r: N)
    ensures
        r == total_of(xs@),
{
    let mut sum = N::from_int(0);
    let n: usize = xs.len();
    let mut i: usize = 0;
    while i < n
        invariant
            i <= n,
            n == xs@.len(),
            sum == total_of(xs@.take(i as int)),
        decreases n - i,
    {
        proof {
            assert(xs@.take(i + 1).drop_last() =~= xs@.take(i as int));
        }
        sum = sum.plus(xs[i]);
        i += 1;
    }
    proof {
        assert(xs@.take(n as int) =~= xs@);
    }
    sum
}

fn mean<N: Number>(xs: &[N]) -> (r: N)
    ensures
        r == mean_of(xs@),
{
    if xs.len() == 0 {
        N::from_int(0)
    } else {
        total(xs).over(count(xs.len()))
    }
}

fn std_dev<N: Number>(xs: &[N], m: N) -> (r: N)
    ensures
        r == deviation_of(xs@, m),
{
    let n: usize = xs.len();
    if n < 2 {
        return N::from_int(0);
    }
    let mut sum = N::from_int(0);
    let mut i: usize = 0;
    while i < n
        invariant
            i <= n,
            n == xs@.len(),
            sum == squares_of(xs@.take(i as int), m),
        decreases n - i,
    {
        proof {
            assert(xs@.take(i + 1).drop_last() =~= xs@.take(i as int));
        }
        let d = xs[i].minus(m);
        sum = sum.plus(d.times(d));
        i += 1;
    }
    proof {
        assert(xs@.take(n as int) =~= xs@);
    }
    sum.over(count::<N>(n).minus(N::from_int(1))).sqrt()
}

fn below_zero<N: Number>(xs: &[N]) -> (r: Vec<N>)
    ensures
        r@ == negatives(xs@),
{
    let mut r: Vec<N> = Vec::new();
    let n: usize = xs.len();
    let mut i: usize = 0;
    proof {
        assert(r@ =~= xs@.take(0));
    }
    while i < n
        invariant
            i <= n,
            n == xs@.len(),
            r@ == negatives(xs@.take(i as int)),
        decreases n - i,
    {
        proof {
            assert(xs@.take(i + 1).drop_last() =~= xs@.take(i as int));
        }
        let x: N = xs[i];
        if x.is_below(N::from_int(0)) {
            r.push(x);
        }
        i += 1;
    }
    proof {
        assert(xs@.take(n as int) =~= xs@);
    }
    r
}

fn above_zero<N: Number>(xs: &[N]) -> (r: Vec<N>)
    ensures
        r@ == positives(xs@),
{
    let mut r: Vec<N> = Vec::new();
    let n: usize = xs.len();
    let mut i: usize = 0;
    proof {
        assert(r@ =~= xs@.take(0));
    }
    while i < n
        invariant
            i <= n,
            n == xs@.len(),
            r@ == positives(xs@.take(i as int)),
        decreases n - i,
    {
        proof {
            assert(xs@.take(i + 1).drop_last() =~= xs@.take(i as int));
        }
        let x: N = xs[i];
        if N::from_int(0).is_below(x) {
            r.push(x);
        }
        i += 1;
    }
    proof {
        assert(xs@.take(n as int) =~= xs@);
    }
    r
}

fn downside<N: Number>(xs: &[N]) -> (r: N)
    ensures
        r == downside_of(xs@),
{
    let d = below_zero(xs);
    let n: usize = d.len();
    if n == 0 {
        return N::from_int(0);
    }
    let mut sum = N::from_int(0);
    let mut i: usize = 0;
    while i < n
        invariant
            i <= n,
            n == d@.len(),
            sum == own_squares(d@.take(i as int)),
        decreases n - i,
    {
        proof {
            assert(d@.take(i + 1).drop_last() =~= d@.take(i as int));
        }
        sum = sum.plus(d[i].times(d[i]));
        i += 1;
    }
    proof {
        assert(d@.take(n as int) =~= d@);
    }
    sum.over(count(n)).sqrt()
}

/// The mean return per standard deviation of the returns; 0 where that is nothing.
pub fn sharpe<N: Number>(curve: &[EquityPoint<N>]) -> (r: N)
    ensures
        ({
            let rs = returns_of(levels_of(curve@));
            r == per_deviation(mean_of(rs), deviation_of(rs, mean_of(rs)))
        }),
{
    let rs = snapshot_returns(curve);
    let m = mean(rs.as_slice());
    let s = std_dev(rs.as_slice(), m);
    if tiny::<N>().is_below(s) {
        m.over(s)
    } else {
        N::from_int(0)
    }
}

/// The mean return per deviation of the returns below 0; 0 where that is nothing.
pub fn sortino<N: Number>(curve: &[EquityPoint<N>]) -> (r: N)
    ensures
        ({
            let rs = returns_of(levels_of(curve@));
            r == if negatives(rs).len() == 0 {
                N::integer(0)
            } else {
                per_deviation(mean_of(rs), downside_of(rs))
            }
        }),
{
    let rs = snapshot_returns(curve);
    let m = mean(rs.as_slice());
    if below_zero(rs.as_slice()).len() == 0 {
        return N::from_int(0);
    }
    let s = downside(rs.as_slice());
    if tiny::<N>().is_below(s) {
        m.over(s)
    } else {
        N::from_int(0)
    }
}

/// The deepest fall from a peak: as an amount, and as a part of the peak.
pub fn max_drawdown<N: Number>(curve: &[EquityPoint<N>]) -> (r: (N, N))
    ensures
        r == (falls_of(levels_of(curve@)).1, falls_of(levels_of(curve@)).2),
{
    let ghost levels = levels_of(curve@);
    let mut peak = N::infinity().neg();
    let mut max_abs = N::from_int(0);
    let mut max_pct = N::from_int(0);
    let n: usize = curve.len();
    let mut i: usize = 0;
    while i < n
        invariant
            i <= n,
            n == curve@.len(),
            levels == levels_of(curve@),
            (peak, max_abs, max_pct) == falls_of(levels.take(i as int)),
        decreases n - i,
    {
        proof {
            assert(levels.take(i + 1).drop_last() =~= levels.take(i as int));
        }
        let v = curve[i].total;
        if peak.is_below(v) {
            peak = v;
        }
        let dd = peak.minus(v);
        if max_abs.is_below(dd) {
            max_abs = dd;
        }
        if tiny::<N>().is_below(peak) {
            let pct = dd.over(peak);
            if max_pct.is_below(pct) {
                max_pct = pct;
            }
        }
        i += 1;
    }
    proof {
        assert(levels.take(n as int) =~= levels);
    }
    (max_abs, max_pct)
}

/// The part of the round trips that gained; 0 where there are none.
pub open spec fn wins_part<N: Number>(pnls: Seq<N>) -> N {
    if pnls.len() == 0 {
        N::integer(0)
    } else {
        tally::<N>(positives(pnls).len()).quotient(tally::<N>(pnls.len()))
    }
}

/// The part of the round trips that gained; 0 where there are none.
pub fn win_rate<N: Number>(round_trip_pnls: &[N]) -> (r: N)
    ensures
        r == wins_part(round_trip_pnls@),
{
    if round_trip_pnls.len() == 0 {
        return N::from_int(0);
    }
    let wins: usize = above_zero(round_trip_pnls).len();
    count::<N>(wins).over(count(round_trip_pnls.len()))
}

/// What was traded, as a multiple of the starting balance; 0 where that is nothing.
pub fn turnover<N: Number>(buy_notional: N, sell_notional: N, starting_balance: N) -> (r: N)
    ensures
        r == if nothing(starting_balance) {
            N::integer(0)
        } else {
            buy_notional.sum(sell_notional).quotient(starting_balance)
        },
{
    if is_nothing(starting_balance) {
        N::from_int(0)
    } else {
        buy_notional.plus(sell_notional).over(starting_balance)
    }
}

/// The standard deviation of the returns.
pub fn volatility<N: Number>(curve: &[EquityPoint<N>]) -> (r: N)
    ensures
        ({
            let rs = returns_of(levels_of(curve@));
            r == deviation_of(rs, mean_of(rs))
        }),
{
    let rs = snapshot_returns(curve);
    let m = mean(rs.as_slice());
    std_dev(rs.as_slice(), m)
}

/// The deviation of the returns below 0.
pub fn downside_volatility<N: Number>(curve: &[EquityPoint<N>]) -> (r: N)
    ensures
        r == downside_of(returns_of(levels_of(curve@))),
{
    let rs = snapshot_returns(curve);
    downside(rs.as_slice())
}

/// The total return, given in percent, per drawdown, given as a part; 0 without a drawdown.
pub open spec fn calmar_of<N: Number>(total_return_pct: N, max_drawdown_pct: N) -> N {
    if nothing(max_drawdown_pct) {
        N::integer(0)
    } else {
        total_return_pct.quotient(N::integer(100)).quotient(max_drawdown_pct)
    }
}

/// The total return, given in percent, per drawdown, given as a part; 0 without a drawdown.
pub fn calmar_ratio<N: Number>(total_return_pct: N, max_drawdown_pct: N) -> (r: N)
    ensures
        r == calmar_of(total_return_pct, max_drawdown_pct),
{
    if is_nothing(max_drawdown_pct) {
        N::from_int(0)
    } else {
        total_return_pct.over(N::from_int(100)).over(max_drawdown_pct)
    }
}

/// The part of the equity points at which something was held; 0 where there are none.
pub fn exposure_pct<N: Number>(snapshots_with_position: i64, total_snapshots: i64) -> (r: N)
    ensures
        r == if total_snapshots <= 0 {
            N::integer(0)
        } else {
            fraction_of::<N>(snapshots_with_position as int, total_snapshots as int)
        },
{
    if total_snapshots <= 0 {
        N::from_int(0)
    } else {
        ratio::<N>(snapshots_with_position, total_snapshots)
    }
}

/// What the round trips were like.
#[derive(Debug, Clone, Copy, PartialEq)]
pub struct TradeStats<N> {
    pub num_round_trips: i64,
    pub gross_profit: N,
    /// Without its sign.
    pub gross_loss: N,
    /// Unbounded where there are gains and no losses.
    pub profit_factor: N,
    pub avg_win: N,
    /// Without its sign.
    pub avg_loss: N,
    /// Unbounded where there are gains and no losses.
    pub payoff_ratio: N,
    pub expectancy: N,
    pub avg_trade_pnl: N,
    pub largest_win: N,
    /// With its sign.
    pub largest_loss: N,
    pub max_consecutive_wins: i64,
    pub max_consecutive_losses: i64,
}

/// A ratio of gains to losses, without a sign each: unbounded where there are gains and no losses,
/// 0 where there is neither.
pub open spec fn gain_ratio<N: Number>(gain: N, loss: N) -> N {
    if speck::<N>().below(loss) {
        gain.quotient(loss)
    } else if N::integer(0).below(gain) {
        N::unbounded()
    } else {
        N::integer(0)
    }
}

fn gain_over<N: Number>(gain: N, loss: N) -> (r: N)
    ensures
        r == gain_ratio(gain, loss),
{
    if tiny::<N>().is_below(loss) {
        gain.over(loss)
    } else if N::from_int(0).is_below(gain) {
        N::infinity()
    } else {
        N::from_int(0)
    }
}

/// A sum spread over a count; 0 over none.
pub open spec fn each_of<N: Number>(sum: N, n: nat) -> N {
    if n == 0 {
        N::integer(0)
    } else {
        sum.quotient(tally::<N>(n))
    }
}

fn spread<N: Number>(sum: N, n: usize) -> (r: N)
    ensures
        r == each_of(sum, n as nat),
{
    if n == 0 {
        N::from_int(0)
    } else {
        sum.over(count(n))
    }
}

/// What some round trips were like.
pub open spec fn stats_of<N: Number>(pnls: Seq<N>) -> TradeStats<N> {
    let zero = N::integer(0);
    let wins = positives(pnls);
    let losses = negatives(pnls);
    let profit = total_of(wins);
    let loss = total_of(losses).magnitude();
    let avg_win = each_of(profit, wins.len());
    let avg_loss = each_of(loss, losses.len());
    let rate = tally::<N>(wins.len()).quotient(tally::<N>(pnls.len()));
    let (max_w, max_l, _, _) = streaks_of(pnls);
    if pnls.len() == 0 {
        TradeStats {
            num_round_trips: 0,
            gross_profit: zero,
            gross_loss: zero,
            profit_factor: zero,
            avg_win: zero,
            avg_loss: zero,
            payoff_ratio: zero,
            expectancy: zero,
            avg_trade_pnl: zero,
            largest_win: zero,
            largest_loss: zero,
            max_consecutive_wins: 0,
            max_consecutive_losses: 0,
        }
    } else {
        TradeStats {
            num_round_trips: pnls.len() as i64,
            gross_profit: profit,
            gross_loss: loss,
            profit_factor: gain_ratio(profit, loss),
            avg_win,
            avg_loss,
            payoff_ratio: gain_ratio(avg_win, avg_loss),
            expectancy: rate.product(avg_win).difference(
                N::integer(1).difference(rate).product(avg_loss),
            ),
            avg_trade_pnl: total_of(pnls).quotient(tally::<N>(pnls.len())),
            largest_win: largest(wins),
            largest_loss: least(losses),
            max_consecutive_wins: max_w,
            max_consecutive_losses: max_l,
        }
    }
}

fn greatest<N: Number>(xs: &[N]) -> (r: N)
    ensures
        r == largest(xs@),
{
    let mut best = N::from_int(0);
    let n: usize = xs.len();
    let mut i: usize = 0;
    while i < n
        invariant
            i <= n,
            n == xs@.len(),
            best == largest(xs@.take(i as int)),
        decreases n - i,
    {
        proof {
            assert(xs@.take(i + 1).drop_last() =~= xs@.take(i as int));
        }
        best = best.max(xs[i]);
        i += 1;
    }
    proof {
        assert(xs@.take(n as int) =~= xs@);
    }
    best
}

fn smallest<N: Number>(xs: &[N]) -> (r: N)
    ensures
        r == least(xs@),
{
    let mut best = N::from_int(0);
    let n: usize = xs.len();
    let mut i: usize = 0;
    while i < n
        invariant
            i <= n,
            n == xs@.len(),
            best == least(xs@.take(i as int)),
        decreases n - i,
    {
        proof {
            assert(xs@.take(i + 1).drop_last() =~= xs@.take(i as int));
        }
        best = best.min(xs[i]);
        i += 1;
    }
    proof {
        assert(xs@.take(n as int) =~= xs@);
    }
    best
}

impl<N: Number> Default for TradeStats<N> {
    fn default() -> (r: TradeStats<N>)
        ensures
            r == stats_of(Seq::<N>::empty()),
    {
        let zero = N::from_int(0);
        TradeStats {
            num_round_trips: 0,
            gross_profit: zero,
            gross_loss: zero,
            profit_factor: zero,
            avg_win: zero,
            avg_loss: zero,
            payoff_ratio: zero,
            expectancy: zero,
            avg_trade_pnl: zero,
            largest_win: zero,
            largest_loss: zero,
            max_consecutive_wins: 0,
            max_consecutive_losses: 0,
        }
    }
}

impl<N: Number> TradeStats<N> {
    /// What round trips were like, given what each gained.
    pub fn from_pnls(pnls: &[N]) -> (r: TradeStats<N>)
        ensures
            r == stats_of(pnls@),
    {
        let n: usize = pnls.len();
        if n == 0 {
            return TradeStats::default();
        }
        let wins = above_zero(pnls);
        let losses = below_zero(pnls);
        let gross_profit = total(wins.as_slice());
        let gross_loss = total(losses.as_slice()).abs();
        let avg_win = spread(gross_profit, wins.len());
        let avg_loss = spread(gross_loss, losses.len());
        let rate = count::<N>(wins.len()).over(count(n));
        let (max_w, max_l): (i64, i64) = max_consecutive(pnls);
        TradeStats {
            num_round_trips: n as i64,
            gross_profit,
            gross_loss,
            profit_factor: gain_over(gross_profit, gross_loss),
            avg_win,
            avg_loss,
            payoff_ratio: gain_over(avg_win, avg_loss),
            expectancy: rate.times(avg_win).minus(N::from_int(1).minus(rate).times(avg_loss)),
            avg_trade_pnl: total(pnls).over(count(n)),
            largest_win: greatest(wins.as_slice()),
            largest_loss: smallest(losses.as_slice()),
            max_consecutive_wins: max_w,
            max_consecutive_losses: max_l,
        }
    }
}

/// The longest streaks of gains and of losses. A round trip that gains nothing ends both.
pub fn max_consecutive<N: Number>(pnls: &[N]) -> (r: (i64, i64))
    ensures
        r == (streaks_of(pnls@).0, streaks_of(pnls@).1),
{
    let zero = N::from_int(0);
    let mut max_w: i64 = 0;
    let mut max_l: i64 = 0;
    let mut cur_w: i64 = 0;
    let mut cur_l: i64 = 0;
    let n: usize = pnls.len();
    let mut i: usize = 0;
    while i < n
        invariant
            i <= n,
            n == pnls@.len(),
            zero == N::integer(0),
            (max_w, max_l, cur_w, cur_l) == streaks_of(pnls@.take(i as int)),
        decreases n - i,
    {
        proof {
            assert(pnls@.take(i + 1).drop_last() =~= pnls@.take(i as int));
        }
        let p: N = pnls[i];
        if zero.is_below(p) {
            cur_w = cur_w.wrapping_add(1);
            cur_l = 0;
        } else if p.is_below(zero) {
            cur_l = cur_l.wrapping_add(1);
            cur_w = 0;
        } else {
            cur_w = 0;
            cur_l = 0;
        }
        if max_w < cur_w {
            max_w = cur_w;
        }
        if max_l < cur_l {
            max_l = cur_l;
        }
        i += 1;
    }
    proof {
        assert(pnls@.take(n as int) =~= pnls@);
    }
    (max_w, max_l)
}

// ---- what the figures say --------------------------------------------------------------------

/// One level stands at or above every level up to another.
pub open spec fn is_peak(levels: Seq<Fixed>, i: int, j: int) -> bool {
    &&& 0 <= i <= j < levels.len()
    &&& forall|k: int| 0 <= k <= j ==> (#[trigger] levels[k]).units <= levels[i].units
}

/// The fall from one level to a later one.
pub open spec fn fall(levels: Seq<Fixed>, i: int, j: int) -> Fixed {
    levels[i].difference(levels[j])
}

/// The deepest fall of some levels is the deepest of all falls from a level to a later one, and 0
/// where none falls.
pub proof fn law_deepest_fall(levels: Seq<Fixed>)
    requires
        forall|i: int| 0 <= i < levels.len() ==> (#[trigger] levels[i]).finite(),
    ensures
        forall|i: int, j: int|
            0 <= i <= j < levels.len() ==> #[trigger] fall(levels, i, j).units <= falls_of(
                levels,
            ).1.units,
        falls_of(levels).1.units >= 0,
        falls_of(levels).1.units > 0 ==> exists|i: int, j: int|
            0 <= i <= j < levels.len() && falls_of(levels).1 == #[trigger] fall(levels, i, j),
{
    lemma_falls(levels);
}

/// The deepest fall as a part is the deepest of the falls from a peak, each as a part of it; 0 where
/// none falls.
pub proof fn law_deepest_part(levels: Seq<Fixed>)
    requires
        forall|i: int| 0 <= i < levels.len() ==> (#[trigger] levels[i]).finite(),
    ensures
        forall|i: int, j: int| #[trigger]
            is_peak(levels, i, j) && levels[i].units > 0 ==> fall(levels, i, j).quotient(
                levels[i],
            ).units <= falls_of(levels).2.units,
        falls_of(levels).2.units >= 0,
        falls_of(levels).2.units > 0 ==> exists|i: int, j: int| #[trigger]
            is_peak(levels, i, j) && levels[i].units > 0 && falls_of(levels).2 == fall(
                levels,
                i,
                j,
            ).quotient(levels[i]),
{
    lemma_falls(levels);
}

proof fn lemma_falls(levels: Seq<Fixed>)
    requires
        forall|i: int| 0 <= i < levels.len() ==> (#[trigger] levels[i]).finite(),
    ensures
        levels.len() > 0 ==> exists|p: int| #[trigger]
            is_peak(levels, p, levels.len() - 1) && levels[p] == falls_of(levels).0,
        forall|i: int, j: int|
            0 <= i <= j < levels.len() ==> #[trigger] fall(levels, i, j).units <= falls_of(
                levels,
            ).1.units,
        falls_of(levels).1.units >= 0,
        falls_of(levels).1.units > 0 ==> exists|i: int, j: int|
            0 <= i <= j < levels.len() && falls_of(levels).1 == #[trigger] fall(levels, i, j),
        forall|i: int, j: int| #[trigger]
            is_peak(levels, i, j) && levels[i].units > 0 ==> fall(levels, i, j).quotient(
                levels[i],
            ).units <= falls_of(levels).2.units,
        falls_of(levels).2.units >= 0,
        falls_of(levels).2.units > 0 ==> exists|i: int, j: int| #[trigger]
            is_peak(levels, i, j) && levels[i].units > 0 && falls_of(levels).2 == fall(
                levels,
                i,
                j,
            ).quotient(levels[i]),
    decreases levels.len(),
{
    if levels.len() > 0 {
        let rest = levels.drop_last();
        let n = levels.len() - 1;
        assert forall|i: int| 0 <= i < rest.len() implies (#[trigger] rest[i]).finite() by {
            assert(rest[i] == levels[i]);
        }
        lemma_falls(rest);
        let (was, abs, pct) = falls_of(rest);
        let (peak, deep, part) = falls_of(levels);
        let v = levels.last();
        assert(levels[n] == v);
        assert(v.finite());
        // The peak so far is a level.
        let p = if was.units < v.units {
            n
        } else {
            choose|p: int| #[trigger] is_peak(rest, p, rest.len() - 1) && rest[p] == was
        };
        assert(is_peak(levels, p, n) && levels[p] == peak) by {
            if rest.len() > 0 {
                let q = choose|q: int| #[trigger] is_peak(rest, q, rest.len() - 1) && rest[q] == was;
                assert forall|k: int| 0 <= k <= n implies (#[trigger] levels[k]).units
                    <= levels[p].units by {
                    if k < n {
                        assert(rest[k].units <= rest[q].units);
                    }
                }
            }
        }
        let dd = peak.difference(v);
        assert(dd == fall(levels, p, n));
        assert(dd.units >= 0);
        assert(deep.units >= dd.units && deep.units >= abs.units);
        assert forall|i: int, j: int| 0 <= i <= j < levels.len() implies #[trigger] fall(
            levels,
            i,
            j,
        ).units <= deep.units by {
            if j < n {
                assert(fall(rest, i, j) == fall(levels, i, j));
            } else {
                assert(levels[i].units <= levels[p].units);
            }
        }
        if deep.units > 0 && !abs.below(dd) {
            let (i, j) = choose|i: int, j: int|
                0 <= i <= j < rest.len() && abs == #[trigger] fall(rest, i, j);
            assert(fall(levels, i, j) == deep);
        }
        lemma_speck_is_zero();
        assert forall|i: int, j: int| #[trigger]
            is_peak(levels, i, j) && levels[i].units > 0 implies fall(levels, i, j).quotient(
            levels[i],
        ).units <= part.units by {
            if j < n {
                assert(is_peak(rest, i, j)) by {
                    assert forall|k: int| 0 <= k <= j implies (#[trigger] rest[k]).units
                        <= rest[i].units by {
                        assert(levels[k].units <= levels[i].units);
                    }
                }
                assert(fall(rest, i, j) == fall(levels, i, j));
            } else {
                assert(levels[p].units <= levels[i].units);
                assert(levels[i].units <= levels[p].units);
            }
        }
        if part.units > 0 {
            if speck::<Fixed>().below(peak) && pct.below(dd.quotient(peak)) {
                assert(is_peak(levels, p, n));
            } else {
                let (i, j) = choose|i: int, j: int| #[trigger]
                    is_peak(rest, i, j) && rest[i].units > 0 && pct == fall(rest, i, j).quotient(
                        rest[i],
                    );
                assert(is_peak(levels, i, j)) by {
                    assert forall|k: int| 0 <= k <= j implies (#[trigger] levels[k]).units
                        <= levels[i].units by {
                        assert(rest[k].units <= rest[i].units);
                    }
                }
                assert(fall(rest, i, j) == fall(levels, i, j));
            }
        }
    }
}

/// A result that counts as a win.
pub open spec fn is_win<N: Number>(p: N) -> bool {
    N::integer(0).below(p)
}

/// A result that counts as a loss.
pub open spec fn is_loss<N: Number>(p: N) -> bool {
    !N::integer(0).below(p) && p.below(N::integer(0))
}

/// All results from one up to another are wins.
pub open spec fn all_wins<N: Number>(pnls: Seq<N>, a: int, b: int) -> bool {
    &&& 0 <= a <= b <= pnls.len()
    &&& forall|k: int| a <= k < b ==> is_win(#[trigger] pnls[k])
}

/// All results from one up to another are losses.
pub open spec fn all_losses<N: Number>(pnls: Seq<N>, a: int, b: int) -> bool {
    &&& 0 <= a <= b <= pnls.len()
    &&& forall|k: int| a <= k < b ==> is_loss(#[trigger] pnls[k])
}

/// The longest streaks are those: no run of wins or of losses is longer, and one of each is as long.
pub proof fn law_longest_streaks<N: Number>(pnls: Seq<N>)
    requires
        pnls.len() <= i64::MAX,
    ensures
        forall|a: int, b: int| #[trigger]
            all_wins(pnls, a, b) ==> b - a <= streaks_of(pnls).0,
        exists|a: int| #[trigger] all_wins(pnls, a, a + streaks_of(pnls).0),
        forall|a: int, b: int| #[trigger]
            all_losses(pnls, a, b) ==> b - a <= streaks_of(pnls).1,
        exists|a: int| #[trigger] all_losses(pnls, a, a + streaks_of(pnls).1),
{
    lemma_streaks(pnls);
}

proof fn lemma_streaks<N: Number>(pnls: Seq<N>)
    requires
        pnls.len() <= i64::MAX,
    ensures
        0 <= streaks_of(pnls).2 <= streaks_of(pnls).0 <= pnls.len(),
        0 <= streaks_of(pnls).3 <= streaks_of(pnls).1 <= pnls.len(),
        all_wins(pnls, pnls.len() - streaks_of(pnls).2, pnls.len() as int),
        forall|a: int| #[trigger]
            all_wins(pnls, a, pnls.len() as int) ==> pnls.len() - a <= streaks_of(pnls).2,
        forall|a: int, b: int| #[trigger]
            all_wins(pnls, a, b) ==> b - a <= streaks_of(pnls).0,
        exists|a: int| #[trigger] all_wins(pnls, a, a + streaks_of(pnls).0),
        all_losses(pnls, pnls.len() - streaks_of(pnls).3, pnls.len() as int),
        forall|a: int| #[trigger]
            all_losses(pnls, a, pnls.len() as int) ==> pnls.len() - a <= streaks_of(pnls).3,
        forall|a: int, b: int| #[trigger]
            all_losses(pnls, a, b) ==> b - a <= streaks_of(pnls).1,
        exists|a: int| #[trigger] all_losses(pnls, a, a + streaks_of(pnls).1),
    decreases pnls.len(),
{
    if pnls.len() == 0 {
        assert(all_wins(pnls, 0, 0 + streaks_of(pnls).0));
        assert(all_losses(pnls, 0, 0 + streaks_of(pnls).1));
    } else {
        let rest = pnls.drop_last();
        lemma_streaks(rest);
        let n = rest.len() as int;
        let (max_w, max_l, w, l) = streaks_of(rest);
        let (new_w, new_l, wins, losses) = streaks_of(pnls);
        let p = pnls.last();
        assert(pnls[n] == p);
        assert forall|a: int, b: int| b <= n implies #[trigger] all_wins(pnls, a, b) == all_wins(
            rest,
            a,
            b,
        ) by {
            assert(forall|k: int| 0 <= k < n ==> rest[k] == pnls[k]);
            if all_wins(pnls, a, b) {
                assert forall|k: int| a <= k < b implies is_win(#[trigger] rest[k]) by {
                    assert(is_win(pnls[k]));
                }
            }
            if all_wins(rest, a, b) {
                assert forall|k: int| a <= k < b implies is_win(#[trigger] pnls[k]) by {
                    assert(is_win(rest[k]));
                }
            }
        }
        assert forall|a: int, b: int| b <= n implies #[trigger] all_losses(pnls, a, b)
            == all_losses(rest, a, b) by {
            assert(forall|k: int| 0 <= k < n ==> rest[k] == pnls[k]);
            if all_losses(pnls, a, b) {
                assert forall|k: int| a <= k < b implies is_loss(#[trigger] rest[k]) by {
                    assert(is_loss(pnls[k]));
                }
            }
            if all_losses(rest, a, b) {
                assert forall|k: int| a <= k < b implies is_loss(#[trigger] pnls[k]) by {
                    assert(is_loss(rest[k]));
                }
            }
        }
        assert(all_wins(pnls, n + 1 - wins, n + 1)) by {
            if is_win(p) {
                assert(all_wins(pnls, n - w, n));
            }
        }
        assert(all_losses(pnls, n + 1 - losses, n + 1)) by {
            if is_loss(p) {
                assert(all_losses(pnls, n - l, n));
            }
        }
        assert forall|a: int| #[trigger] all_wins(pnls, a, n + 1) implies n + 1 - a <= wins by {
            if a <= n {
                assert(is_win(pnls[n]));
                assert(all_wins(pnls, a, n));
                assert(all_wins(rest, a, n));
            }
        }
        assert forall|a: int| #[trigger] all_losses(pnls, a, n + 1) implies n + 1 - a <= losses by {
            if a <= n {
                assert(is_loss(pnls[n]));
                assert(all_losses(pnls, a, n));
                assert(all_losses(rest, a, n));
            }
        }
        assert forall|a: int, b: int| #[trigger] all_wins(pnls, a, b) implies b - a <= new_w by {
            if b <= n {
                assert(all_wins(rest, a, b));
            }
        }
        assert forall|a: int, b: int| #[trigger] all_losses(pnls, a, b) implies b - a <= new_l by {
            if b <= n {
                assert(all_losses(rest, a, b));
            }
        }
        let a = choose|a: int| #[trigger] all_wins(rest, a, a + max_w);
        assert(all_wins(pnls, a, a + max_w));
        assert(all_wins(pnls, n + 1 - wins, (n + 1 - wins) + wins));
        assert(exists|a: int| #[trigger] all_wins(pnls, a, a + new_w));
        let c = choose|a: int| #[trigger] all_losses(rest, a, a + max_l);
        assert(all_losses(pnls, c, c + max_l));
        assert(all_losses(pnls, n + 1 - losses, (n + 1 - losses) + losses));
        assert(exists|a: int| #[trigger] all_losses(pnls, a, a + new_l));
    }
}

/// The sum of some numbers, in millionths and without a limit.
pub open spec fn exact_sum(xs: Seq<Fixed>) -> int
    decreases xs.len(),
{
    if xs.len() == 0 {
        0
    } else {
        exact_sum(xs.drop_last()) + xs.last().units
    }
}

/// The sum of the sizes of some numbers, in millionths and without a limit.
pub open spec fn exact_weight(xs: Seq<Fixed>) -> nat
    decreases xs.len(),
{
    if xs.len() == 0 {
        0
    } else {
        exact_weight(xs.drop_last()) + size(xs.last().units as int)
    }
}

proof fn lemma_total_is_exact(xs: Seq<Fixed>)
    requires
        exact_weight(xs) < LARGEST,
    ensures
        total_of(xs).units == exact_sum(xs),
        -exact_weight(xs) <= exact_sum(xs) <= exact_weight(xs),
    decreases xs.len(),
{
    if xs.len() > 0 {
        lemma_total_is_exact(xs.drop_last());
    }
}

proof fn lemma_parts_sum(xs: Seq<Fixed>)
    ensures
        exact_sum(positives(xs)) + exact_sum(negatives(xs)) == exact_sum(xs),
        exact_sum(negatives(xs)) <= 0,
        exact_weight(positives(xs)) + exact_weight(negatives(xs)) == exact_weight(xs),
    decreases xs.len(),
{
    if xs.len() > 0 {
        let rest = xs.drop_last();
        lemma_parts_sum(rest);
        let x = xs.last();
        if x.units > 0 {
            assert(positives(rest).push(x).drop_last() =~= positives(rest));
        } else if x.units < 0 {
            assert(negatives(rest).push(x).drop_last() =~= negatives(rest));
        }
    }
}

/// What round trips gained, less what they lost, is the sum of their results, as far as the numbers
/// hold the sums.
pub proof fn law_profit_less_loss_is_the_sum(pnls: Seq<Fixed>)
    requires
        exact_weight(pnls) < LARGEST,
    ensures
        stats_of(pnls).gross_profit.difference(stats_of(pnls).gross_loss) == total_of(pnls),
        stats_of(pnls).gross_loss.units >= 0,
{
    lemma_parts_sum(pnls);
    lemma_total_is_exact(pnls);
    lemma_total_is_exact(positives(pnls));
    lemma_total_is_exact(negatives(pnls));
}

/// The return from one level to the next is what was gained, as a part of the level before. With
/// numbers of six decimals it misses by less than a millionth, and never overshoots.
pub proof fn law_returns_are_gains_over_levels(prev: Fixed, cur: Fixed)
    requires
        prev.units > 0,
        cur.difference(prev).finite(),
        return_from(prev, cur).finite(),
    ensures
        ({
            let r = return_from(prev, cur).units * prev.units;
            let gain = (cur.units - prev.units) * 1_000_000;
            &&& gain >= 0 ==> 0 <= r <= gain < r + prev.units
            &&& gain <= 0 ==> r - prev.units < gain <= r <= 0
        }),
{
    lemma_speck_is_zero();
    law_quotients_are_cut(cur.difference(prev), prev);
}

/// There is one return between each two levels that follow one another, in their order.
pub proof fn law_returns_stand_between_levels<N: Number>(levels: Seq<N>, i: int)
    requires
        0 <= i < levels.len() - 1,
    ensures
        returns_of(levels).len() == levels.len() - 1,
        returns_of(levels)[i] == return_from(levels[i], levels[i + 1]),
{
}

proof fn lemma_tally(n: nat)
    requires
        n <= 9_000_000_000_000,
    ensures
        tally::<Fixed>(n).units == n * 1_000_000,
{
}

proof fn lemma_spread_out(x: Fixed, n: nat)
    requires
        0 < n <= 9_000_000_000_000,
    ensures
        ({
            let q = x.quotient(tally::<Fixed>(n)).units * n;
            &&& x.units >= 0 ==> 0 <= q <= x.units < q + n
            &&& x.units <= 0 && x.units > i64::MIN ==> q - n < x.units <= q <= 0
        }),
{
    lemma_tally(n);
    let (a, m) = (x.units as int, n as int);
    lemma_cut(a * 1_000_000, m * 1_000_000);
    let q = cut_quotient(a * 1_000_000, m * 1_000_000);
    assert(q * (m * 1_000_000) == (q * m) * 1_000_000) by (nonlinear_arith);
    assert(-LARGEST <= q <= LARGEST || a == i64::MIN) by (nonlinear_arith)
        requires
            a >= 0 ==> 0 <= (q * m) * 1_000_000 <= a * 1_000_000,
            a <= 0 ==> a * 1_000_000 <= (q * m) * 1_000_000 <= 0,
            m >= 1,
            i64::MIN <= a <= LARGEST,
    ;
}

/// The mean is the sum spread over the count. With numbers of six decimals it misses by less than a
/// millionth, and never overshoots.
pub proof fn law_mean_is_the_sum_over_the_count(xs: Seq<Fixed>)
    requires
        0 < xs.len() <= 9_000_000_000_000,
        exact_weight(xs) < LARGEST,
    ensures
        ({
            let m = mean_of(xs).units * xs.len();
            let sum = exact_sum(xs);
            &&& sum >= 0 ==> 0 <= m <= sum < m + xs.len()
            &&& sum <= 0 ==> m - xs.len() < sum <= m <= 0
        }),
{
    lemma_total_is_exact(xs);
    lemma_spread_out(total_of(xs), xs.len());
}

/// The sum of the squares of the distances of some numbers from one, in millionths of millionths and
/// without a limit.
pub open spec fn exact_squares(xs: Seq<Fixed>, m: Fixed) -> int
    decreases xs.len(),
{
    if xs.len() == 0 {
        0
    } else {
        exact_squares(xs.drop_last(), m) + (xs.last().units - m.units) * (xs.last().units
            - m.units)
    }
}

proof fn lemma_square(d: int)
    requires
        d * d < LARGEST * 1_000_000,
    ensures
        d * d >= 0,
        -LARGEST < d < LARGEST,
        0 <= cut_quotient(d * d, 1_000_000) * 1_000_000 <= d * d,
        d * d < cut_quotient(d * d, 1_000_000) * 1_000_000 + 1_000_000,
        cut_quotient(d * d, 1_000_000) < LARGEST,
{
    assert(d * d >= 0) by (nonlinear_arith);
    assert(-LARGEST < d < LARGEST) by (nonlinear_arith)
        requires
            d * d < LARGEST * 1_000_000,
            LARGEST > 1_000_000,
    ;
    lemma_cut(d * d, 1_000_000);
}

proof fn lemma_squares(xs: Seq<Fixed>, m: Fixed)
    requires
        exact_squares(xs, m) < LARGEST * 1_000_000,
    ensures
        0 <= squares_of(xs, m).units * 1_000_000 <= exact_squares(xs, m),
        exact_squares(xs, m) <= squares_of(xs, m).units * 1_000_000 + xs.len() * 1_000_000,
        exact_squares(xs, m) < squares_of(xs, m).units * 1_000_000 + xs.len() * 1_000_000
            || xs.len() == 0,
    decreases xs.len(),
{
    if xs.len() > 0 {
        let d = xs.last().units - m.units;
        assert(d * d >= 0) by (nonlinear_arith);
        lemma_squares_positive(xs.drop_last(), m);
        lemma_squares(xs.drop_last(), m);
        lemma_square(d);
        assert(xs.last().difference(m).units == d);
    }
}

proof fn lemma_squares_positive(xs: Seq<Fixed>, m: Fixed)
    ensures
        exact_squares(xs, m) >= 0,
    decreases xs.len(),
{
    if xs.len() > 0 {
        lemma_squares_positive(xs.drop_last(), m);
        let d = xs.last().units - m.units;
        assert(d * d >= 0) by (nonlinear_arith);
    }
}

proof fn lemma_root_mean(total: Fixed, exact: int, k: nat, n: nat)
    requires
        0 < k <= 9_000_000_000_000,
        0 <= total.units * 1_000_000 <= exact < total.units * 1_000_000 + n * 1_000_000,
    ensures
        ({
            let d = total.quotient(tally::<Fixed>(k)).root().units as int;
            &&& d >= 0
            &&& k * (d * d) <= exact
            &&& exact < k * ((d + 1) * (d + 1)) + (k + n) * 1_000_000
        }),
{
    lemma_spread_out(total, k);
    let v = total.quotient(tally::<Fixed>(k));
    law_roots_are_cut(v);
    let (w, d, c) = (v.units as int, v.root().units as int, k as int);
    assert(w * c <= total.units < w * c + c);
    assert(w >= 0) by (nonlinear_arith)
        requires
            0 <= w * c,
            c > 0,
    ;
    assert(d * d <= w * 1_000_000 < (d + 1) * (d + 1)) by {
        if w == 0 {
            assert(d * d == 0 && (d + 1) * (d + 1) == 1) by (nonlinear_arith)
                requires
                    d == 0,
            ;
        }
    }
    let (sq, up) = (d * d, (d + 1) * (d + 1));
    assert(c * sq <= c * (w * 1_000_000) <= c * up) by (nonlinear_arith)
        requires
            sq <= w * 1_000_000 <= up,
            c > 0,
    ;
    assert(c * (w * 1_000_000) == (w * c) * 1_000_000) by (nonlinear_arith);
}

/// The deviation is the root of the mean square distance, over one less than the count. With numbers
/// of six decimals it is not below 0; its square, times one less than the count, is not above the
/// sum of the squared distances, and that of the next number is, but for what the quotient and the
/// squares were cut by.
pub proof fn law_deviation_is_a_root_mean_square(xs: Seq<Fixed>, m: Fixed)
    requires
        2 <= xs.len() <= 9_000_000_000_000,
        exact_squares(xs, m) < LARGEST * 1_000_000,
    ensures
        ({
            let d = deviation_of(xs, m).units as int;
            let n = xs.len() as int;
            &&& d >= 0
            &&& (n - 1) * (d * d) <= exact_squares(xs, m)
            &&& exact_squares(xs, m) < (n - 1) * ((d + 1) * (d + 1)) + (2 * n - 1) * 1_000_000
        }),
{
    lemma_squares(xs, m);
    let n = xs.len();
    lemma_tally(n);
    assert(Fixed::integer(1).units == 1_000_000);
    assert(tally::<Fixed>(n).difference(Fixed::integer(1)) == tally::<Fixed>((n - 1) as nat));
    lemma_root_mean(squares_of(xs, m), exact_squares(xs, m), (n - 1) as nat, n);
}

/// Of numbers that do not differ from their mean there is no deviation, and of fewer than two.
pub proof fn law_no_spread_no_deviation(xs: Seq<Fixed>, m: Fixed)
    requires
        xs.len() < 2 || (xs.len() <= 9_000_000_000_000 && forall|i: int|
            0 <= i < xs.len() ==> (#[trigger] xs[i]) == m),
    ensures
        deviation_of(xs, m).units == 0,
{
    if xs.len() >= 2 {
        lemma_no_squares(xs, m);
        law_deviation_is_a_root_mean_square(xs, m);
        let d = deviation_of(xs, m).units as int;
        let n = xs.len() as int;
        assert(d == 0) by (nonlinear_arith)
            requires
                d >= 0,
                n >= 2,
                (n - 1) * (d * d) <= 0,
        ;
    }
}

proof fn lemma_no_squares(xs: Seq<Fixed>, m: Fixed)
    requires
        forall|i: int| 0 <= i < xs.len() ==> (#[trigger] xs[i]) == m,
    ensures
        exact_squares(xs, m) == 0,
    decreases xs.len(),
{
    if xs.len() > 0 {
        assert(xs[xs.len() - 1] == m);
        assert forall|i: int| 0 <= i < xs.drop_last().len() implies (#[trigger] xs.drop_last()[i])
            == m by {
            assert(xs[i] == m);
        }
        lemma_no_squares(xs.drop_last(), m);
        let d = xs.last().units - m.units;
        assert(d * d == 0) by (nonlinear_arith)
            requires
                d == 0,
        ;
    }
}

/// A ratio to a deviation is the quotient of the two; with numbers of six decimals it misses by less
/// than a millionth, and never overshoots. It is 0 where the deviation is not above 0.
pub proof fn law_ratio_to_deviation(m: Fixed, s: Fixed)
    requires
        per_deviation(m, s).finite(),
    ensures
        s.units <= 0 ==> per_deviation(m, s).units == 0,
        s.units > 0 ==> {
            let r = per_deviation(m, s).units * s.units;
            let exact = m.units * 1_000_000;
            &&& exact >= 0 ==> 0 <= r <= exact < r + s.units
            &&& exact <= 0 ==> r - s.units < exact <= r <= 0
        },
{
    lemma_speck_is_zero();
    if s.units > 0 {
        law_quotients_are_cut(m, s);
    }
}

/// How many of some numbers are below 0.
pub open spec fn count_below(xs: Seq<Fixed>) -> nat {
    xs.filter(|x: Fixed| x.units < 0).len()
}

/// How many of some numbers are above 0.
pub open spec fn count_above(xs: Seq<Fixed>) -> nat {
    xs.filter(|x: Fixed| x.units > 0).len()
}

/// The sum of the squares of those of some numbers that are below 0.
pub open spec fn exact_squares_below(xs: Seq<Fixed>) -> int
    decreases xs.len(),
{
    if xs.len() == 0 {
        0
    } else {
        exact_squares_below(xs.drop_last()) + if xs.last().units < 0 {
            xs.last().units * xs.last().units
        } else {
            0
        }
    }
}

/// The sum of those of some numbers that are above 0.
pub open spec fn exact_sum_above(xs: Seq<Fixed>) -> int
    decreases xs.len(),
{
    if xs.len() == 0 {
        0
    } else {
        exact_sum_above(xs.drop_last()) + if xs.last().units > 0 {
            xs.last().units as int
        } else {
            0
        }
    }
}

/// The sum of those of some numbers that are below 0.
pub open spec fn exact_sum_below(xs: Seq<Fixed>) -> int
    decreases xs.len(),
{
    if xs.len() == 0 {
        0
    } else {
        exact_sum_below(xs.drop_last()) + if xs.last().units < 0 {
            xs.last().units as int
        } else {
            0
        }
    }
}

proof fn lemma_parts(xs: Seq<Fixed>)
    ensures
        negatives(xs) == xs.filter(|x: Fixed| x.units < 0),
        positives(xs) == xs.filter(|x: Fixed| x.units > 0),
        exact_sum(positives(xs)) == exact_sum_above(xs),
        exact_sum(negatives(xs)) == exact_sum_below(xs),
        negatives(xs).len() <= xs.len(),
        positives(xs).len() <= xs.len(),
    decreases xs.len(),
{
    reveal(Seq::filter);
    if xs.len() > 0 {
        let rest = xs.drop_last();
        lemma_parts(rest);
        let x = xs.last();
        assert(positives(rest).push(x).drop_last() =~= positives(rest));
        assert(negatives(rest).push(x).drop_last() =~= negatives(rest));
    } else {
        assert(negatives(xs) =~= xs.filter(|x: Fixed| x.units < 0));
        assert(positives(xs) =~= xs.filter(|x: Fixed| x.units > 0));
    }
}

proof fn lemma_own_squares(xs: Seq<Fixed>)
    requires
        exact_squares_below(xs) < LARGEST * 1_000_000,
    ensures
        ({
            let t = own_squares(negatives(xs)).units * 1_000_000;
            &&& 0 <= t <= exact_squares_below(xs)
            &&& exact_squares_below(xs) < t + negatives(xs).len() * 1_000_000 || negatives(
                xs,
            ).len() == 0
            &&& negatives(xs).len() == 0 ==> exact_squares_below(xs) == 0
        }),
    decreases xs.len(),
{
    if xs.len() > 0 {
        let rest = xs.drop_last();
        let x = xs.last().units as int;
        assert(x * x >= 0) by (nonlinear_arith);
        lemma_squares_below_positive(rest);
        lemma_own_squares(rest);
        if x < 0 {
            lemma_square(x);
            assert(negatives(rest).push(xs.last()).drop_last() =~= negatives(rest));
        }
    }
}

proof fn lemma_squares_below_positive(xs: Seq<Fixed>)
    ensures
        exact_squares_below(xs) >= 0,
    decreases xs.len(),
{
    if xs.len() > 0 {
        lemma_squares_below_positive(xs.drop_last());
        let x = xs.last().units as int;
        assert(x * x >= 0) by (nonlinear_arith);
    }
}

/// The downside deviation is the root of the mean square of the returns below 0, over their count. It
/// is 0 where there are none, and what lies above 0 does not matter.
pub proof fn law_downside_is_a_root_mean_square(xs: Seq<Fixed>)
    requires
        xs.len() <= 9_000_000_000_000,
        exact_squares_below(xs) < LARGEST * 1_000_000,
    ensures
        ({
            let d = downside_of(xs).units as int;
            let k = count_below(xs) as int;
            &&& d >= 0
            &&& k == 0 ==> d == 0
            &&& k > 0 ==> k * (d * d) <= exact_squares_below(xs)
            &&& k > 0 ==> exact_squares_below(xs) < k * ((d + 1) * (d + 1)) + 2 * k * 1_000_000
        }),
{
    lemma_parts(xs);
    lemma_own_squares(xs);
    let k = negatives(xs).len();
    if k > 0 {
        lemma_root_mean(own_squares(negatives(xs)), exact_squares_below(xs), k, k);
    }
}

/// The part of round trips that gained is their count over the count of all.
pub proof fn law_win_rate_counts_gains(pnls: Seq<Fixed>)
    requires
        0 < pnls.len() <= 9_000_000_000_000,
    ensures
        ({
            let r = wins_part(pnls).units * pnls.len();
            let won = count_above(pnls) * 1_000_000;
            0 <= r <= won < r + pnls.len()
        }),
{
    lemma_parts(pnls);
    lemma_tally(positives(pnls).len());
    lemma_spread_out(tally::<Fixed>(positives(pnls).len()), pnls.len());
}

proof fn lemma_extremes(xs: Seq<Fixed>)
    ensures
        forall|i: int| 0 <= i < xs.len() ==> (#[trigger] xs[i]).units <= largest(xs).units,
        forall|i: int| 0 <= i < xs.len() ==> (#[trigger] xs[i]).units >= least(xs).units,
        largest(xs).units >= 0,
        least(xs).units <= 0,
        largest(xs).units > 0 ==> xs.contains(largest(xs)),
        least(xs).units < 0 ==> xs.contains(least(xs)),
    decreases xs.len(),
{
    if xs.len() > 0 {
        let rest = xs.drop_last();
        lemma_extremes(rest);
        assert forall|i: int| 0 <= i < xs.len() implies (#[trigger] xs[i]).units <= largest(
            xs,
        ).units && xs[i].units >= least(xs).units by {
            if i < rest.len() {
                assert(rest[i] == xs[i]);
            }
        }
        assert(xs.last() == xs[xs.len() - 1]);
        if largest(xs).units > 0 && largest(xs) == largest(rest) && rest.contains(largest(rest)) {
            let i = choose|i: int| 0 <= i < rest.len() && rest[i] == largest(rest);
            assert(xs[i] == largest(xs));
        }
        if least(xs).units < 0 && least(xs) == least(rest) && rest.contains(least(rest)) {
            let i = choose|i: int| 0 <= i < rest.len() && rest[i] == least(rest);
            assert(xs[i] == least(xs));
        }
    }
}

proof fn lemma_filtered(xs: Seq<Fixed>, i: int)
    requires
        0 <= i < xs.len(),
    ensures
        xs[i].units > 0 ==> positives(xs).contains(xs[i]),
        xs[i].units < 0 ==> negatives(xs).contains(xs[i]),
    decreases xs.len(),
{
    let rest = xs.drop_last();
    let x = xs[i];
    if i < rest.len() {
        lemma_filtered(rest, i);
        assert(rest[i] == x);
        if positives(rest).contains(x) {
            let j = choose|j: int| 0 <= j < positives(rest).len() && positives(rest)[j] == x;
            assert(positives(xs)[j] == x);
        }
        if negatives(rest).contains(x) {
            let j = choose|j: int| 0 <= j < negatives(rest).len() && negatives(rest)[j] == x;
            assert(negatives(xs)[j] == x);
        }
    } else {
        if x.units > 0 {
            assert(positives(xs)[positives(xs).len() - 1] == x);
        }
        if x.units < 0 {
            assert(negatives(xs)[negatives(xs).len() - 1] == x);
        }
    }
}

/// What round trips were like, in exact terms. With numbers of six decimals and sums that can be
/// held: the gross profit is the sum of the gains and the gross loss that of the losses, without its
/// sign; the averages are those over their counts, and the average result is the mean of all; no
/// result is above the largest gain or below the largest loss, and both are results.
pub proof fn law_trade_figures(pnls: Seq<Fixed>)
    requires
        0 < pnls.len() <= 9_000_000_000_000,
        exact_weight(pnls) < LARGEST,
    ensures
        ({
            let t = stats_of(pnls);
            let (won, lost) = (count_above(pnls) as int, count_below(pnls) as int);
            &&& t.num_round_trips == pnls.len()
            &&& t.gross_profit.units == exact_sum_above(pnls)
            &&& t.gross_loss.units == -exact_sum_below(pnls)
            &&& won == 0 ==> t.avg_win.units == 0
            &&& won > 0 ==> t.avg_win.units * won <= t.gross_profit.units < t.avg_win.units * won
                + won
            &&& lost == 0 ==> t.avg_loss.units == 0
            &&& lost > 0 ==> t.avg_loss.units * lost <= t.gross_loss.units < t.avg_loss.units * lost
                + lost
            &&& exact_sum(pnls) >= 0 ==> t.avg_trade_pnl.units * pnls.len() <= exact_sum(pnls)
                < t.avg_trade_pnl.units * pnls.len() + pnls.len()
            &&& exact_sum(pnls) <= 0 ==> t.avg_trade_pnl.units * pnls.len() - pnls.len()
                < exact_sum(pnls) <= t.avg_trade_pnl.units * pnls.len()
            &&& forall|i: int|
                0 <= i < pnls.len() ==> t.largest_loss.units <= (#[trigger] pnls[i]).units
                    <= t.largest_win.units
            &&& t.largest_win.units >= 0 && t.largest_loss.units <= 0
            &&& t.largest_win.units > 0 ==> pnls.contains(t.largest_win)
            &&& t.largest_loss.units < 0 ==> pnls.contains(t.largest_loss)
        }),
{
    lemma_parts(pnls);
    lemma_parts_sum(pnls);
    lemma_total_is_exact(pnls);
    let (w, l) = (positives(pnls), negatives(pnls));
    lemma_total_is_exact(w);
    lemma_total_is_exact(l);
    let t = stats_of(pnls);
    lemma_sum_below(pnls);
    assert(t.gross_profit.units == exact_sum_above(pnls));
    assert(t.gross_loss.units == -exact_sum_below(pnls));
    if w.len() > 0 {
        lemma_spread_out(t.gross_profit, w.len());
    }
    if l.len() > 0 {
        lemma_spread_out(t.gross_loss, l.len());
    }
    lemma_spread_out(total_of(pnls), pnls.len());
    lemma_extremes(w);
    lemma_extremes(l);
    assert forall|i: int| 0 <= i < pnls.len() implies t.largest_loss.units <= (
    #[trigger] pnls[i]).units <= t.largest_win.units by {
        lemma_filtered(pnls, i);
    }
    lemma_members(pnls);
}

proof fn lemma_sum_below(xs: Seq<Fixed>)
    ensures
        exact_sum_below(xs) <= 0 <= exact_sum_above(xs),
    decreases xs.len(),
{
    if xs.len() > 0 {
        lemma_sum_below(xs.drop_last());
    }
}

proof fn lemma_members(xs: Seq<Fixed>)
    ensures
        forall|x: Fixed| #[trigger] positives(xs).contains(x) ==> xs.contains(x),
        forall|x: Fixed| #[trigger] negatives(xs).contains(x) ==> xs.contains(x),
    decreases xs.len(),
{
    if xs.len() > 0 {
        let rest = xs.drop_last();
        lemma_members(rest);
        assert(xs[xs.len() - 1] == xs.last());
        assert forall|x: Fixed| #[trigger] positives(xs).contains(x) implies xs.contains(x) by {
            let j = choose|j: int| 0 <= j < positives(xs).len() && positives(xs)[j] == x;
            if j < positives(rest).len() {
                assert(positives(rest)[j] == x);
                assert(positives(rest).contains(x));
                let i = choose|i: int| 0 <= i < rest.len() && rest[i] == x;
                assert(xs[i] == x);
            }
        }
        assert forall|x: Fixed| #[trigger] negatives(xs).contains(x) implies xs.contains(x) by {
            let j = choose|j: int| 0 <= j < negatives(xs).len() && negatives(xs)[j] == x;
            if j < negatives(rest).len() {
                assert(negatives(rest)[j] == x);
                assert(negatives(rest).contains(x));
                let i = choose|i: int| 0 <= i < rest.len() && rest[i] == x;
                assert(xs[i] == x);
            }
        }
    }
}

proof fn lemma_gain_ratio(gain: Fixed, loss: Fixed)
    requires
        gain.units >= 0,
        loss.units >= 0,
        gain_ratio(gain, loss).finite() || loss.units == 0,
    ensures
        ({
            let r = gain_ratio(gain, loss);
            &&& loss.units > 0 ==> 0 <= r.units * loss.units <= gain.units * 1_000_000 < r.units
                * loss.units + loss.units
            &&& loss.units == 0 && gain.units > 0 ==> !r.finite() && r.units > 0
            &&& loss.units == 0 && gain.units == 0 ==> r.units == 0
        }),
{
    lemma_speck_is_zero();
    if loss.units > 0 {
        law_quotients_are_cut(gain, loss);
    }
}

/// The profit factor is the gross profit over the gross loss, and the payoff ratio the average gain
/// over the average loss: infinite where nothing was lost and something gained. The expectancy is
/// the average gain, weighed by the part of the round trips that gained, less the average loss,
/// weighed by the rest.
pub proof fn law_trade_ratios(pnls: Seq<Fixed>)
    requires
        0 < pnls.len() <= 9_000_000_000_000,
        exact_weight(pnls) < LARGEST,
        exact_sum_below(pnls) < 0 ==> stats_of(pnls).profit_factor.finite(),
        stats_of(pnls).avg_loss.units > 0 ==> stats_of(pnls).payoff_ratio.finite(),
    ensures
        ({
            let t = stats_of(pnls);
            let (gain, loss) = (exact_sum_above(pnls), -exact_sum_below(pnls));
            let w = wins_part(pnls).units;
            let e = t.expectancy.units * 1_000_000;
            let exact = w * t.avg_win.units - (1_000_000 - w) * t.avg_loss.units;
            &&& loss > 0 ==> 0 <= t.profit_factor.units * loss <= gain * 1_000_000
                < t.profit_factor.units * loss + loss
            &&& loss == 0 && gain > 0 ==> !t.profit_factor.finite() && t.profit_factor.units > 0
            &&& loss == 0 && gain == 0 ==> t.profit_factor.units == 0
            &&& t.avg_loss.units > 0 ==> 0 <= t.payoff_ratio.units * t.avg_loss.units
                <= t.avg_win.units * 1_000_000 < t.payoff_ratio.units * t.avg_loss.units
                + t.avg_loss.units
            &&& t.avg_loss.units == 0 && t.avg_win.units == 0 ==> t.payoff_ratio.units == 0
            &&& 0 <= w <= 1_000_000
            &&& -1_000_000 < e - exact < 1_000_000
        }),
{
    law_trade_figures(pnls);
    law_win_rate_counts_gains(pnls);
    lemma_parts(pnls);
    lemma_sum_below(pnls);
    let t = stats_of(pnls);
    lemma_averages_are_not_below_zero(pnls);
    lemma_gain_ratio(t.gross_profit, t.gross_loss);
    lemma_gain_ratio(t.avg_win, t.avg_loss);
    let rate = wins_part(pnls);
    let (w, n) = (rate.units as int, pnls.len() as int);
    assert(0 <= w <= 1_000_000) by (nonlinear_arith)
        requires
            0 <= w * n <= count_above(pnls) * 1_000_000,
            count_above(pnls) <= n,
            n > 0,
    ;
    let rest = Fixed::integer(1).difference(rate);
    assert(Fixed::integer(1).units == 1_000_000);
    assert(rest.units == 1_000_000 - w);
    let (a, b) = (t.avg_win.units as int, t.avg_loss.units as int);
    lemma_part(w, a);
    lemma_part(1_000_000 - w, b);
}

proof fn lemma_part(w: int, a: int)
    requires
        0 <= w <= 1_000_000,
        0 <= a <= LARGEST,
    ensures
        0 <= cut_quotient(w * a, 1_000_000) <= LARGEST,
        cut_quotient(w * a, 1_000_000) * 1_000_000 <= w * a < cut_quotient(w * a, 1_000_000)
            * 1_000_000 + 1_000_000,
{
    assert(0 <= w * a <= a * 1_000_000) by (nonlinear_arith)
        requires
            0 <= w <= 1_000_000,
            0 <= a,
    ;
    lemma_cut(w * a, 1_000_000);
}

proof fn lemma_averages_are_not_below_zero(pnls: Seq<Fixed>)
    requires
        0 < pnls.len() <= 9_000_000_000_000,
        exact_weight(pnls) < LARGEST,
    ensures
        stats_of(pnls).avg_win.units >= 0,
        stats_of(pnls).avg_loss.units >= 0,
        stats_of(pnls).gross_profit.units >= 0,
        stats_of(pnls).gross_loss.units >= 0,
{
    law_trade_figures(pnls);
    lemma_parts(pnls);
    lemma_sum_below(pnls);
    let t = stats_of(pnls);
    let (w, l) = (positives(pnls), negatives(pnls));
    if w.len() > 0 {
        lemma_spread_out(t.gross_profit, w.len());
        let (a, n) = (t.avg_win.units as int, w.len() as int);
        assert(a >= 0) by (nonlinear_arith)
            requires
                0 <= a * n,
                n > 0,
        ;
    }
    if l.len() > 0 {
        lemma_spread_out(t.gross_loss, l.len());
        let (a, n) = (t.avg_loss.units as int, l.len() as int);
        assert(a >= 0) by (nonlinear_arith)
            requires
                0 <= a * n,
                n > 0,
        ;
    }
}

/// The Calmar ratio is the total return, as a part and not in percent, over the deepest fall as a
/// part. It is 0 without a fall.
pub proof fn law_calmar_is_return_over_fall(total_return_pct: Fixed, max_drawdown_pct: Fixed)
    requires
        max_drawdown_pct.units >= 0,
        total_return_pct.units > i64::MIN,
        calmar_of(total_return_pct, max_drawdown_pct).finite(),
    ensures
        max_drawdown_pct.units == 0 ==> calmar_of(total_return_pct, max_drawdown_pct).units == 0,
        max_drawdown_pct.units > 0 ==> {
            let part = cut_quotient(total_return_pct.units as int, 100);
            let r = calmar_of(total_return_pct, max_drawdown_pct).units * max_drawdown_pct.units;
            &&& part >= 0 ==> 0 <= r <= part * 1_000_000 < r + max_drawdown_pct.units
            &&& part <= 0 ==> r - max_drawdown_pct.units < part * 1_000_000 <= r <= 0
        },
{
    lemma_speck_is_zero();
    assert(Fixed::integer(0).units == 0 && Fixed::integer(100).units == 100_000_000);
    if max_drawdown_pct.units > 0 {
        let x = total_return_pct.units as int;
        lemma_cut(x, 100);
        lemma_cut(x * 1_000_000, 100_000_000);
        let (p, q) = (cut_quotient(x, 100), cut_quotient(x * 1_000_000, 100_000_000));
        assert(p == q);
        law_quotients_are_cut(total_return_pct.quotient(Fixed::integer(100)), max_drawdown_pct);
    }
}

} // verus!
