//! Rewards for resting liquidity.
//!
//! A period pays up to a fixed reward, in proportion to the time within it during which enough
//! contracts rested close enough to the middle of the book. The share of other participants is not
//! modelled.
use crate::config::RewardsConfig;
use crate::fixed::{law_products_are_cut, law_whole_products_are_exact, lemma_cut, Fixed, LARGEST};
use crate::number::{clamp, clamped, Number};
use crate::types::Side;
use vstd::arithmetic::div_mod::{lemma_fundamental_div_mod, lemma_fundamental_div_mod_converse};
use vstd::prelude::*;

verus! {

/// What rests close enough to the middle of the book, at one time.
#[derive(Debug, Clone, Copy, PartialEq)]
pub struct QuoteState<N> {
    pub bid_size_in_band: N,
    pub ask_size_in_band: N,
    /// Without a middle nothing can be said to be close to it.
    pub has_mid: bool,
}

impl<N: Number> QuoteState<N> {
    /// Nothing rests, and there is no middle.
    pub open spec fn none() -> QuoteState<N> {
        QuoteState {
            bid_size_in_band: N::integer(0),
            ask_size_in_band: N::integer(0),
            has_mid: false,
        }
    }
}

impl<N: Number> Default for QuoteState<N> {
    fn default() -> (r: QuoteState<N>)
        ensures
            r == QuoteState::<N>::none(),
    {
        let zero = N::from_int(0);
        QuoteState { bid_size_in_band: zero, ask_size_in_band: zero, has_mid: false }
    }
}

/// The rewards of a run.
#[derive(Debug, Clone, Copy, PartialEq)]
pub struct RewardsModel<N> {
    pub enabled: bool,
    pub period_ns: i64,
    pub reward_per_period: N,
    pub min_resting_size: N,
    pub both_sides_required: bool,
    /// When the quotes were last looked at.
    pub last_ts: Option<i64>,
    /// Whether they qualified then.
    pub last_qualifying: bool,
    /// The time in the current period during which they qualified.
    pub qualifying_ns_in_period: i64,
    /// Which period it is.
    pub cur_period: i64,
    pub accrued: N,
    /// What earlier periods have earned.
    pub locked: N,
}

/// The length of a period, in nanoseconds: at least a second, at most what an `i64` holds.
pub open spec fn period_length(secs: i64) -> i64 {
    let s = if secs < 1 {
        1
    } else {
        secs as int
    };
    if s * 1_000_000_000 > i64::MAX {
        i64::MAX
    } else {
        (s * 1_000_000_000) as i64
    }
}

fn floor_quotient(a: i64, d: i64) -> (r: i64)
    requires
        d > 0,
    ensures
        r == a as int / d as int,
{
    if a >= 0 {
        a / d
    } else {
        let m: u64 = (-(a as i128)) as u64;
        let q: u64 = (m - 1) / (d as u64);
        proof {
            let mi = m as int;
            let di = d as int;
            lemma_fundamental_div_mod(mi - 1, di);
            assert(q == (mi - 1) / di);
            assert(0 <= (mi - 1) % di < di);
            assert(q * di == di * q) by (nonlinear_arith);
            assert((-(q + 1)) * di == -(q * di) - di) by (nonlinear_arith);
            assert(di * (-(q + 1)) == (-(q + 1)) * di) by (nonlinear_arith);
            lemma_fundamental_div_mod_converse(a as int, di, -(q + 1), di - 1 - (mi - 1) % di);
            assert(q <= mi - 1) by (nonlinear_arith)
                requires
                    mi - 1 == di * q + (mi - 1) % di,
                    di >= 1,
                    (mi - 1) % di >= 0,
                    q >= 0,
            ;
        }
        (-(q as i128) - 1) as i64
    }
}

impl<N: Number> RewardsModel<N> {
    /// Periods have a length.
    pub open spec fn sound(self) -> bool {
        self.period_ns > 0
    }

    /// The rewards that some settings stand for.
    pub open spec fn of_config(cfg: RewardsConfig<N>) -> RewardsModel<N> {
        RewardsModel {
            enabled: cfg.enabled,
            period_ns: period_length(cfg.period_secs),
            reward_per_period: cfg.reward_per_period.greater(N::integer(0)),
            min_resting_size: cfg.min_resting_size.greater(N::integer(0)),
            both_sides_required: cfg.both_sides_required,
            last_ts: None,
            last_qualifying: false,
            qualifying_ns_in_period: 0,
            cur_period: 0,
            accrued: N::integer(0),
            locked: N::integer(0),
        }
    }

    /// Whether quotes qualify: enough rests on both sides, or on one where one will do.
    pub open spec fn accepts(self, q: QuoteState<N>) -> bool {
        let bid_ok = self.min_resting_size.at_most(q.bid_size_in_band);
        let ask_ok = self.min_resting_size.at_most(q.ask_size_in_band);
        q.has_mid && if self.both_sides_required {
            bid_ok && ask_ok
        } else {
            bid_ok || ask_ok
        }
    }

    /// What an amount of qualifying time earns within one period.
    pub open spec fn earned(self, qualifying_ns: i64) -> N {
        self.reward_per_period.product(
            clamped(
                N::integer(qualifying_ns as int).quotient(N::integer(self.period_ns as int)),
                N::integer(0),
                N::integer(1),
            ),
        )
    }

    /// The rewards once another period is the current one: what the last one earned is kept.
    pub open spec fn rolled(self, period: int) -> RewardsModel<N> {
        if period == self.cur_period {
            self
        } else {
            RewardsModel {
                locked: self.locked.sum(self.earned(self.qualifying_ns_in_period)),
                cur_period: period as i64,
                qualifying_ns_in_period: 0,
                ..self
            }
        }
    }

    /// The rewards once the time from `t` to `b` was counted, each part of it in its period. No
    /// period counts more than its length.
    pub open spec fn counted(self, t: int, b: int) -> RewardsModel<N>
        decreases b - t,
    {
        let period = t / self.period_ns as int;
        let period_end = (period + 1) * self.period_ns;
        let end = if b <= period_end {
            b
        } else {
            period_end
        };
        if t >= b || end <= t {
            self
        } else {
            let now = self.rolled(period);
            let time = now.qualifying_ns_in_period + (end - t);
            RewardsModel {
                qualifying_ns_in_period: if time <= self.period_ns {
                    time as i64
                } else {
                    self.period_ns
                },
                ..now
            }.counted(end, b)
        }
    }

    /// The rewards with their sum brought up to date.
    pub open spec fn summed(self) -> RewardsModel<N> {
        RewardsModel {
            accrued: self.locked.sum(self.earned(self.qualifying_ns_in_period)),
            ..self
        }
    }

    /// The rewards once time has passed that does not qualify.
    pub open spec fn idled(self, b: int) -> RewardsModel<N> {
        let period = (b - 1) / self.period_ns as int;
        if period == self.cur_period {
            self
        } else {
            self.rolled(period).summed()
        }
    }

    /// The rewards once the quotes were looked at again. The time since they were last looked at
    /// counts as they were then.
    pub open spec fn observed(self, now: i64, q: QuoteState<N>) -> RewardsModel<N> {
        if !self.enabled {
            self
        } else {
            let advanced = match self.last_ts {
                Some(prev) => if now <= prev {
                    self
                } else if self.last_qualifying {
                    self.counted(prev as int, now as int).summed()
                } else {
                    self.idled(now as int)
                },
                None => RewardsModel { cur_period: (now as int / self.period_ns as int) as i64, ..self },
            };
            RewardsModel { last_ts: Some(now), last_qualifying: self.accepts(q), ..advanced }
        }
    }

    /// The rewards that some settings stand for.
    pub fn from_config(cfg: &RewardsConfig<N>) -> (r: RewardsModel<N>)
        ensures
            r == RewardsModel::of_config(*cfg),
            r.sound(),
    {
        let secs: i64 = if cfg.period_secs < 1 {
            1
        } else {
            cfg.period_secs
        };
        let wide: i128 = secs as i128 * 1_000_000_000;
        let period_ns: i64 = if wide > i64::MAX as i128 {
            i64::MAX
        } else {
            wide as i64
        };
        let zero = N::from_int(0);
        RewardsModel {
            enabled: cfg.enabled,
            period_ns,
            reward_per_period: cfg.reward_per_period.max(zero),
            min_resting_size: cfg.min_resting_size.max(zero),
            both_sides_required: cfg.both_sides_required,
            last_ts: None,
            last_qualifying: false,
            qualifying_ns_in_period: 0,
            cur_period: 0,
            accrued: zero,
            locked: zero,
        }
    }

    /// Whether rewards are modelled.
    pub fn is_active(&self) -> (r: bool)
        ensures
            r == self.enabled,
    {
        self.enabled
    }

    /// Whether quotes qualify.
    pub fn qualifies(&self, q: &QuoteState<N>) -> (r: bool)
        ensures
            r == self.accepts(*q),
    {
        if !q.has_mid {
            return false;
        }
        let bid_ok: bool = self.min_resting_size.is_at_most(q.bid_size_in_band);
        let ask_ok: bool = self.min_resting_size.is_at_most(q.ask_size_in_band);
        if self.both_sides_required {
            bid_ok && ask_ok
        } else {
            bid_ok || ask_ok
        }
    }

    /// Looks at the quotes at a time. The time since they were last looked at counts as they were
    /// then.
    pub fn observe(&mut self, now: i64, q: &QuoteState<N>)
        requires
            old(self).sound(),
        ensures
            *final(self) == old(self).observed(now, *q),
            final(self).sound(),
    {
        if !self.enabled {
            return;
        }
        let next: bool = self.qualifies(q);
        if let Some(prev) = self.last_ts {
            if now > prev && self.last_qualifying {
                self.credit_segment(prev, now);
            } else if now > prev {
                self.advance_period_clock(now);
            }
        } else {
            self.cur_period = floor_quotient(now, self.period_ns);
        }
        proof {
            law_counting_keeps_settings(
                *old(self),
                old(self).last_ts.unwrap_or(0) as int,
                now as int,
            );
        }
        self.last_ts = Some(now);
        self.last_qualifying = next;
    }

    fn credit_segment(&mut self, a: i64, b: i64)
        requires
            old(self).sound(),
            a < b,
        ensures
            *final(self) == old(self).counted(a as int, b as int).summed(),
            final(self).sound(),
    {
        let mut t: i64 = a;
        while t < b
            invariant
                t <= b,
                self.sound(),
                self.counted(t as int, b as int) == old(self).counted(a as int, b as int),
            decreases b - t,
        {
            let period: i64 = floor_quotient(t, self.period_ns);
            let ghost p = self.period_ns as int;
            proof {
                lemma_fundamental_div_mod(t as int, p);
                assert((period + 1) * p == p * period + p) by (nonlinear_arith);
                assert(-0x8000_0000_0000_0000 <= t < 0x7fff_ffff_ffff_ffff);
                assert(period < 0x7fff_ffff_ffff_ffff) by (nonlinear_arith)
                    requires
                        t == p * period + t as int % p,
                        0 <= t as int % p,
                        p >= 1,
                        t < 0x7fff_ffff_ffff_ffff,
                ;
            }
            let period_end: i128 = (period as i128 + 1) * (self.period_ns as i128);
            let end: i64 = if b as i128 <= period_end {
                b
            } else {
                period_end as i64
            };
            self.roll_to_period(period);
            let time: i128 = self.qualifying_ns_in_period as i128 + (end as i128 - t as i128);
            self.qualifying_ns_in_period = if time <= self.period_ns as i128 {
                time as i64
            } else {
                self.period_ns
            };
            t = end;
        }
        self.recompute_accrued();
    }

    fn advance_period_clock(&mut self, b: i64)
        requires
            old(self).sound(),
            b > i64::MIN,
        ensures
            *final(self) == old(self).idled(b as int),
            final(self).sound(),
    {
        let period: i64 = floor_quotient(b - 1, self.period_ns);
        if period != self.cur_period {
            self.roll_to_period(period);
            self.recompute_accrued();
        }
    }

    fn roll_to_period(&mut self, period: i64)
        ensures
            *final(self) == old(self).rolled(period as int),
    {
        if period == self.cur_period {
            return;
        }
        self.locked = self.locked.plus(self.period_reward(self.qualifying_ns_in_period));
        self.cur_period = period;
        self.qualifying_ns_in_period = 0;
    }

    fn period_reward(&self, qualifying_ns: i64) -> (r: N)
        ensures
            r == self.earned(qualifying_ns),
    {
        let part = N::from_int(qualifying_ns).over(N::from_int(self.period_ns));
        self.reward_per_period.times(clamp(part, N::from_int(0), N::from_int(1)))
    }

    fn recompute_accrued(&mut self)
        ensures
            *final(self) == old(self).summed(),
    {
        self.accrued = self.locked.plus(self.period_reward(self.qualifying_ns_in_period));
    }

    /// What was earned so far.
    pub fn accrued(&self) -> (r: N)
        ensures
            r == self.accrued,
    {
        self.accrued
    }
}

/// Counting time changes no setting.
pub proof fn law_counting_keeps_settings<N: Number>(m: RewardsModel<N>, t: int, b: int)
    ensures
        m.counted(t, b).enabled == m.enabled,
        m.counted(t, b).period_ns == m.period_ns,
        m.counted(t, b).reward_per_period == m.reward_per_period,
        m.counted(t, b).min_resting_size == m.min_resting_size,
        m.counted(t, b).both_sides_required == m.both_sides_required,
    decreases b - t,
{
    let period = t / m.period_ns as int;
    let period_end = (period + 1) * m.period_ns;
    let end = if b <= period_end {
        b
    } else {
        period_end
    };
    if !(t >= b || end <= t) {
        let now = m.rolled(period);
        let time = now.qualifying_ns_in_period + (end - t);
        let next = RewardsModel {
            qualifying_ns_in_period: if time <= m.period_ns {
                time as i64
            } else {
                m.period_ns
            },
            ..now
        };
        law_counting_keeps_settings(next, end, b);
    }
}

/// No period counts more time than it has.
pub proof fn law_counted_time_is_capped<N: Number>(m: RewardsModel<N>, t: int, b: int)
    requires
        m.sound(),
        m.qualifying_ns_in_period <= m.period_ns,
    ensures
        m.counted(t, b).qualifying_ns_in_period <= m.period_ns,
    decreases b - t,
{
    let period = t / m.period_ns as int;
    let period_end = (period + 1) * m.period_ns;
    let end = if b <= period_end {
        b
    } else {
        period_end
    };
    if !(t >= b || end <= t) {
        let now = m.rolled(period);
        let time = now.qualifying_ns_in_period + (end - t);
        let next = RewardsModel {
            qualifying_ns_in_period: if time <= m.period_ns {
                time as i64
            } else {
                m.period_ns
            },
            ..now
        };
        law_counted_time_is_capped(next, end, b);
    }
}

/// Rewards that are switched off never change.
pub proof fn law_disabled_earns_nothing<N: Number>(m: RewardsModel<N>, now: i64, q: QuoteState<N>)
    requires
        !m.enabled,
    ensures
        m.observed(now, q) == m,
{
}

/// To look at the quotes twice at one time earns no more than to look once.
pub proof fn law_no_time_earns_nothing<N: Number>(
    m: RewardsModel<N>,
    now: i64,
    q: QuoteState<N>,
    again: QuoteState<N>,
)
    ensures
        m.observed(now, q).observed(now, again).accrued == m.observed(now, q).accrued,
{
}

/// The sizes within a distance of a middle, the bids first.
pub open spec fn sizes_near<N: Number>(
    resting: Seq<(Side, i32, N)>,
    mid: N,
    band: N,
) -> (N, N)
    decreases resting.len(),
{
    if resting.len() == 0 {
        (N::integer(0), N::integer(0))
    } else {
        let (bid, ask) = sizes_near(resting.drop_last(), mid, band);
        let (side, price_cents, remaining) = resting.last();
        if N::integer(price_cents as int).difference(mid).magnitude().at_most(band) {
            match side {
                Side::Bid => (bid.sum(remaining), ask),
                Side::Ask => (bid, ask.sum(remaining)),
            }
        } else {
            (bid, ask)
        }
    }
}

/// The quotes that some resting orders amount to.
pub open spec fn quotes_of<N: Number>(
    resting: Seq<(Side, i32, N)>,
    mid_cents: Option<N>,
    max_spread_cents: i32,
) -> QuoteState<N> {
    match mid_cents {
        None => QuoteState::none(),
        Some(mid) => {
            let band = N::integer(
                if max_spread_cents < 0 {
                    0
                } else {
                    max_spread_cents as int
                },
            );
            let (bid, ask) = sizes_near(resting, mid, band);
            QuoteState { bid_size_in_band: bid, ask_size_in_band: ask, has_mid: true }
        },
    }
}

/// The quotes that resting orders amount to, each given by its side, its price in cents and what
/// is left of it: what rests no further from the middle than the distance given.
pub fn quote_state_from_resting<N: Number>(
    resting: &[(Side, i32, N)],
    mid_cents: Option<N>,
    max_spread_cents: i32,
) -> (r: QuoteState<N>)
    ensures
        r == quotes_of(resting@, mid_cents, max_spread_cents),
{
    let mid = match mid_cents {
        Some(m) => m,
        None => {
            return QuoteState::default();
        },
    };
    let mut bid = N::from_int(0);
    let mut ask = N::from_int(0);
    let reach: i64 = if max_spread_cents < 0 {
        0
    } else {
        max_spread_cents as i64
    };
    let band = N::from_int(reach);
    let n: usize = resting.len();
    let mut i: usize = 0;
    while i < n
        invariant
            i <= n,
            n == resting@.len(),
            (bid, ask) == sizes_near(resting@.take(i as int), mid, band),
        decreases n - i,
    {
        let (side, price_cents, remaining): (Side, i32, N) = resting[i];
        proof {
            assert(resting@.take(i + 1).drop_last() =~= resting@.take(i as int));
        }
        if N::from_int(price_cents as i64).minus(mid).abs().is_at_most(band) {
            match side {
                Side::Bid => {
                    bid = bid.plus(remaining);
                },
                Side::Ask => {
                    ask = ask.plus(remaining);
                },
            }
        }
        i += 1;
    }
    proof {
        assert(resting@.take(n as int) =~= resting@);
    }
    QuoteState { bid_size_in_band: bid, ask_size_in_band: ask, has_mid: true }
}

/// Quotes qualify where there is a middle and enough rests near it: on both sides where both are
/// asked for, else on either.
pub proof fn law_quotes_qualify(m: RewardsModel<Fixed>, q: QuoteState<Fixed>)
    ensures
        m.accepts(q) ==> q.has_mid,
        q.has_mid && m.both_sides_required ==> (m.accepts(q) <==> q.bid_size_in_band.units
            >= m.min_resting_size.units && q.ask_size_in_band.units >= m.min_resting_size.units),
        q.has_mid && !m.both_sides_required ==> (m.accepts(q) <==> q.bid_size_in_band.units
            >= m.min_resting_size.units || q.ask_size_in_band.units >= m.min_resting_size.units),
{
}

/// A period pays the part of its reward that the time bears to its length: nothing for no time, all
/// of it for all of the time, and in between the same part, short of it by less than two millionths
/// of the reward and a millionth of a dollar.
pub proof fn law_time_earns_its_part(m: RewardsModel<Fixed>, time: i64)
    requires
        0 < m.period_ns <= 9_000_000_000_000,
        0 <= time <= m.period_ns,
        0 <= m.reward_per_period.units <= 1_000_000_000_000_000,
    ensures
        ({
            let earned = m.earned(time).units;
            let part = time * 1_000_000 / (m.period_ns as int);
            &&& earned * 1_000_000 <= m.reward_per_period.units * part < earned * 1_000_000
                + 1_000_000
            &&& time == 0 ==> earned == 0
            &&& time == m.period_ns ==> earned == m.reward_per_period.units
        }),
{
    let (t, d, w) = (time as int, m.period_ns as int, m.reward_per_period.units as int);
    let a = Fixed::integer(t);
    let b = Fixed::integer(d);
    assert(a.units == t * 1_000_000 && b.units == d * 1_000_000);
    let part = t * 1_000_000 / d;
    lemma_fundamental_div_mod(t * 1_000_000, d);
    assert(0 <= part <= 1_000_000) by (nonlinear_arith)
        requires
            d > 0,
            0 <= t <= d,
            t * 1_000_000 == d * part + (t * 1_000_000) % d,
            0 <= (t * 1_000_000) % d < d,
    ;
    let n = (t * 1_000_000) * 1_000_000;
    assert(n / (d * 1_000_000) == part) by {
        let r = (t * 1_000_000) % d;
        assert(n == part * (d * 1_000_000) + r * 1_000_000) by (nonlinear_arith)
            requires
                n == (t * 1_000_000) * 1_000_000,
                t * 1_000_000 == d * part + r,
        ;
        lemma_fundamental_div_mod_converse(n, d * 1_000_000, part, r * 1_000_000);
    }
    let f = a.quotient(b);
    assert(n >= 0);
    assert(f.units == part);
    assert(Fixed::integer(0).units == 0 && Fixed::integer(1).units == 1_000_000);
    assert(clamped(f, Fixed::integer(0), Fixed::integer(1)) == f);
    assert(0 <= w * part <= w * 1_000_000) by (nonlinear_arith)
        requires
            0 <= w,
            0 <= part <= 1_000_000,
    ;
    lemma_cut(w * part, 1_000_000);
    law_products_are_cut(m.reward_per_period, f);
    let e = m.reward_per_period.product(f);
    assert(m.earned(time) == e);
    assert(e.units * 1_000_000 <= w * part < e.units * 1_000_000 + 1_000_000);
    if t == 0 {
        assert(part == 0);
        assert(w * part == 0) by (nonlinear_arith)
            requires
                part == 0,
        ;
    }
    if t == d {
        lemma_fundamental_div_mod_converse(t * 1_000_000, d, 1_000_000, 0);
        assert(part == 1_000_000);
        law_whole_products_are_exact(f, m.reward_per_period, 1);
    }
}

/// Time within a period counts where the quotes qualified when they were last looked at, and does
/// not where they did not. What is then earned is what earlier periods have earned and what the time
/// in this one earns.
pub proof fn law_time_counts_as_the_quotes_stood(
    m: RewardsModel<Fixed>,
    prev: i64,
    now: i64,
    q: QuoteState<Fixed>,
)
    requires
        m.enabled,
        m.sound(),
        m.last_ts == Some(prev),
        prev < now,
        m.cur_period * m.period_ns <= prev,
        now <= (m.cur_period + 1) * m.period_ns,
        0 <= m.qualifying_ns_in_period,
    ensures
        ({
            let r = m.observed(now, q);
            let time = m.qualifying_ns_in_period + (now - prev);
            &&& m.last_qualifying && time <= m.period_ns ==> r.qualifying_ns_in_period == time
            &&& m.last_qualifying && time > m.period_ns ==> r.qualifying_ns_in_period == m.period_ns
            &&& m.last_qualifying ==> r.accrued == m.locked.sum(
                r.earned(r.qualifying_ns_in_period),
            )
            &&& !m.last_qualifying ==> r.qualifying_ns_in_period == m.qualifying_ns_in_period
                && r.accrued == m.accrued
            &&& r.locked == m.locked
            &&& r.cur_period == m.cur_period
            &&& r.last_ts == Some(now)
            &&& r.last_qualifying == m.accepts(q)
        }),
{
    let (d, c) = (m.period_ns as int, m.cur_period as int);
    assert(c * d == d * c && (c + 1) * d == d * c + d) by (nonlinear_arith);
    lemma_fundamental_div_mod_converse(prev as int, d, c, prev - c * d);
    assert(prev as int / d == c);
    lemma_fundamental_div_mod_converse(now - 1, d, c, now - 1 - c * d);
    assert((now - 1) / d == c);
    let time = m.qualifying_ns_in_period + (now - prev);
    let counted = RewardsModel {
        qualifying_ns_in_period: if time <= m.period_ns {
            time as i64
        } else {
            m.period_ns
        },
        ..m
    };
    if m.last_qualifying {
        assert(m.rolled(c) == m);
        assert(m.counted(prev as int, now as int) == counted.counted(now as int, now as int));
        assert(counted.counted(now as int, now as int) == counted);
    }
}

/// When a period is over, what it earned is kept, and the next one begins with no time.
pub proof fn law_periods_are_kept(
    m: RewardsModel<Fixed>,
    prev: i64,
    now: i64,
    q: QuoteState<Fixed>,
)
    requires
        m.enabled,
        m.sound(),
        m.last_ts == Some(prev),
        prev < now,
        !m.last_qualifying,
        (m.cur_period + 1) * m.period_ns < now,
    ensures
        ({
            let r = m.observed(now, q);
            &&& r.locked == m.locked.sum(m.earned(m.qualifying_ns_in_period))
            &&& r.qualifying_ns_in_period == 0
            &&& r.cur_period == (now - 1) / m.period_ns as int
            &&& r.accrued == r.locked.sum(m.earned(0))
        }),
{
    let (d, c) = (m.period_ns as int, m.cur_period as int);
    let p = (now - 1) / d;
    lemma_fundamental_div_mod(now - 1, d);
    assert(p > c) by (nonlinear_arith)
        requires
            d > 0,
            now - 1 == d * p + (now - 1) % d,
            0 <= (now - 1) % d < d,
            (c + 1) * d < now,
    ;
    assert(p < 0x7fff_ffff_ffff_ffff) by (nonlinear_arith)
        requires
            d >= 1,
            now - 1 == d * p + (now - 1) % d,
            0 <= (now - 1) % d,
            now <= 0x7fff_ffff_ffff_ffff,
    ;
}

/// An order is near the middle where it is no further from it than the distance, to either side. It
/// adds what is left of it to its own side, and to the other one nothing.
pub proof fn law_near_orders_count(
    resting: Seq<(Side, i32, Fixed)>,
    side: Side,
    price: i32,
    left: Fixed,
    mid: Fixed,
    band: i32,
)
    requires
        0 <= band <= 1_000_000,
        -1_000_000 <= price <= 1_000_000,
        -1_000_000_000_000 <= mid.units <= 1_000_000_000_000,
    ensures
        ({
            let was = quotes_of(resting, Some(mid), band);
            let is = quotes_of(resting.push((side, price, left)), Some(mid), band);
            let away = price * 1_000_000 - mid.units;
            let near = -(band * 1_000_000) <= away <= band * 1_000_000;
            &&& is.has_mid
            &&& !near ==> is == was
            &&& near && side == Side::Bid ==> is.ask_size_in_band == was.ask_size_in_band && (
            -LARGEST <= was.bid_size_in_band.units + left.units <= LARGEST
                ==> is.bid_size_in_band.units == was.bid_size_in_band.units + left.units)
            &&& near && side == Side::Ask ==> is.bid_size_in_band == was.bid_size_in_band && (
            -LARGEST <= was.ask_size_in_band.units + left.units <= LARGEST
                ==> is.ask_size_in_band.units == was.ask_size_in_band.units + left.units)
        }),
{
    let all = resting.push((side, price, left));
    assert(all.drop_last() =~= resting);
    assert(all.last() == (side, price, left));
    assert(Fixed::integer(price as int).units == price * 1_000_000);
    assert(Fixed::integer(band as int).units == band * 1_000_000);
}

/// Rewards are set as the settings say; an amount or a size below 0 counts as none.
pub proof fn law_rewards_follow_their_settings(cfg: RewardsConfig<Fixed>)
    ensures
        ({
            let m = RewardsModel::of_config(cfg);
            &&& m.enabled == cfg.enabled
            &&& m.both_sides_required == cfg.both_sides_required
            &&& m.reward_per_period.units == if cfg.reward_per_period.units < 0 {
                0
            } else {
                cfg.reward_per_period.units
            }
            &&& m.min_resting_size.units == if cfg.min_resting_size.units < 0 {
                0
            } else {
                cfg.min_resting_size.units
            }
            &&& 1 <= cfg.period_secs <= 9_000_000_000 ==> m.period_ns == cfg.period_secs
                * 1_000_000_000
            &&& cfg.period_secs < 1 ==> m.period_ns == 1_000_000_000
            &&& !m.last_qualifying
            &&& m.accrued.units == 0
            &&& m.last_ts is None
        }),
{
}

} // verus!
