//! A logistic curve through a ladder of contracts "above K".
//!
//! The middle price of the contract with strike `K` estimates the probability that the event
//! settles above `K`. Over the strikes of one event these fall from 1 to 0 along
//!
//! ```text
//!     S(K) = 1 / (1 + exp((K - mu) / s))
//! ```
//!
//! where `mu` is the median of the settlement and `s > 0` its scale. The two are chosen to make
//! the sum of the squares of `S(K) - mid` small: a first guess is read off the ladder, and steps
//! of Levenberg and Marquardt improve on it.
use crate::fixed::{
    cut_quotient, exp_series, law_products_are_cut, lemma_cut, lemma_cut_multiple, Fixed, LARGEST, TERMS,
};
use crate::portfolio::{is_nothing, lemma_speck_is_zero, nothing};
use crate::number::{count, fraction_of, ratio, tally, Analytic, Number};
use crate::text::{chars_of, lemma_first_index_unique, split_once, split_once_at, string_of};
use vstd::prelude::*;

verus! {

/// A curve and how well it fits.
#[derive(Debug, Clone, Copy, PartialEq)]
pub struct LogisticFit<N> {
    /// The median of the settlement: the strike at which the curve is one half.
    pub mu: N,
    /// The scale.
    pub s: N,
    /// How many points it was fitted to.
    pub n_points: usize,
    /// The root of the mean square of what the curve misses by.
    pub rmse: N,
    /// Whether it was improved until no step helped, or helped by almost nothing.
    pub converged: bool,
}

/// The factor from the scale of a logistic distribution to its standard deviation.
pub open spec fn deviation_factor<N: Analytic>() -> N {
    N::full_turn().quotient(N::integer(2)).quotient(N::integer(3).root())
}

/// The curve at a strike. No exponential of a number above 0 is taken, so that none overflows.
pub open spec fn survival<N: Analytic>(k: N, mu: N, s: N) -> N {
    let z = k.difference(mu).quotient(s);
    if N::integer(0).at_most(z) {
        let e = z.negated().exponential();
        e.quotient(N::integer(1).sum(e))
    } else {
        N::integer(1).quotient(N::integer(1).sum(z.exponential()))
    }
}

/// The curve at a strike, its slope along `mu`, and its slope along `s`.
pub open spec fn slopes<N: Analytic>(k: N, mu: N, s: N) -> (N, N, N) {
    let surv = survival(k, mu, s);
    let g = surv.product(N::integer(1).difference(surv));
    (surv, g.quotient(s), g.product(k.difference(mu)).quotient(s.product(s)))
}

/// The least scale.
pub open spec fn least_scale<N: Number>() -> N {
    fraction_of::<N>(1, 10_000)
}

impl<N: Analytic> LogisticFit<N> {
    /// The curve at a strike: what a contract above it ought to cost.
    pub fn fitted(&self, k: N) -> (r: N)
        ensures
            r == survival(k, self.mu, self.s),
    {
        logistic_survival(k, self.mu, self.s)
    }

    /// The median of the settlement.
    pub fn fair_value(&self) -> (r: N)
        ensures
            r == self.mu,
    {
        self.mu
    }

    /// The standard deviation of the settlement, in dollars, for the time until it.
    pub fn implied_vol(&self) -> (r: N)
        ensures
            r == self.s.product(deviation_factor::<N>()),
    {
        self.s.times(N::tau().over(N::from_int(2)).over(N::from_int(3).sqrt()))
    }

    /// How much more the market asks than the curve. Above 0 the contract is dear, below 0 cheap.
    pub fn edge(&self, k: N, market_mid: N) -> (r: N)
        ensures
            r == market_mid.difference(survival(k, self.mu, self.s)),
    {
        market_mid.minus(self.fitted(k))
    }
}

/// The curve at a strike.
pub fn logistic_survival<N: Analytic>(k: N, mu: N, s: N) -> (r: N)
    ensures
        r == survival(k, mu, s),
{
    let z = k.minus(mu).over(s);
    if N::from_int(0).is_at_most(z) {
        let e = z.neg().exp();
        e.over(N::from_int(1).plus(e))
    } else {
        let e = z.exp();
        N::from_int(1).over(N::from_int(1).plus(e))
    }
}

/// The curve at a strike, its slope along `mu`, and its slope along `s`.
pub fn partials<N: Analytic>(k: N, mu: N, s: N) -> (r: (N, N, N))
    ensures
        r == slopes(k, mu, s),
{
    let surv = logistic_survival(k, mu, s);
    let g = surv.times(N::from_int(1).minus(surv));
    (surv, g.over(s), g.times(k.minus(mu)).over(s.times(s)))
}

/// Whether a point can be fitted to: a middle of 0 or 1 says nothing of the curve.
pub open spec fn is_usable<N: Number>(p: (N, N)) -> bool {
    p.0.finite() && p.1.finite() && N::integer(0).below(p.1) && p.1.below(N::integer(1))
}

/// The points that can be fitted to.
pub open spec fn usable<N: Number>(points: Seq<(N, N)>) -> Seq<(N, N)>
    decreases points.len(),
{
    if points.len() == 0 {
        Seq::empty()
    } else if is_usable(points.last()) {
        usable(points.drop_last()).push(points.last())
    } else {
        usable(points.drop_last())
    }
}

/// The points with one more, behind the last whose strike is not above its own.
pub open spec fn placed<N: Number>(points: Seq<(N, N)>, p: (N, N)) -> Seq<(N, N)>
    decreases points.len(),
{
    if points.len() == 0 || !p.0.below(points.last().0) {
        points.push(p)
    } else {
        placed(points.drop_last(), p).push(points.last())
    }
}

/// The points in the order of their strikes; those of one strike stay as they stood.
pub open spec fn by_strike<N: Number>(points: Seq<(N, N)>) -> Seq<(N, N)>
    decreases points.len(),
{
    if points.len() == 0 {
        Seq::empty()
    } else {
        placed(by_strike(points.drop_last()), points.last())
    }
}

/// The strike at which the middles first pass a level, on a straight line between the two points
/// about it.
pub open spec fn crossing<N: Number>(points: Seq<(N, N)>, target: N) -> Option<N>
    decreases points.len(),
{
    if points.len() < 2 {
        None
    } else {
        let (k0, m0) = points[0];
        let (k1, m1) = points[1];
        if m0.lesser(m1).at_most(target) && target.at_most(m0.greater(m1)) {
            let dm = m1.difference(m0);
            if nothing(dm) {
                Some(fraction_of::<N>(1, 2).product(k0.sum(k1)))
            } else {
                let part = target.difference(m0).quotient(dm);
                Some(k0.sum(part.product(k1.difference(k0))))
            }
        } else {
            crossing(points.drop_first(), target)
        }
    }
}

/// The first guess: the median where the middles pass one half, or the nearer end of the ladder;
/// the scale from where they pass one quarter and three quarters, or a sixth of the ladder.
pub open spec fn first_guess<N: Analytic>(points: Seq<(N, N)>) -> Option<(N, N)> {
    let half = fraction_of::<N>(1, 2);
    let span = points.last().0.difference(points[0].0);
    if points.len() == 0 || !N::integer(0).below(span) {
        None
    } else {
        let mu = match crossing(points, half) {
            Some(k) => k,
            None => if points[0].1.below(half) {
                points[0].0
            } else {
                points.last().0
            },
        };
        let s = match (crossing(points, fraction_of::<N>(1, 4)), crossing(
            points,
            fraction_of::<N>(3, 4),
        )) {
            (Some(k25), Some(k75)) => k25.difference(k75).magnitude().quotient(
                N::integer(2).product(N::integer(3).logarithm()),
            ),
            _ => span.quotient(N::integer(6)),
        };
        Some((mu, s.greater(least_scale::<N>())))
    }
}

/// The sum of the squares of what the curve misses by.
pub open spec fn misfit<N: Analytic>(points: Seq<(N, N)>, mu: N, s: N) -> N
    decreases points.len(),
{
    if points.len() == 0 {
        N::integer(0)
    } else {
        let (k, m) = points.last();
        let r = survival(k, mu, s).difference(m);
        misfit(points.drop_last(), mu, s).sum(r.product(r))
    }
}

/// The two equations whose solution is the step of Gauss and Newton.
#[derive(Debug, Clone, Copy, PartialEq)]
pub struct Normal<N> {
    pub a00: N,
    pub a01: N,
    pub a11: N,
    pub g0: N,
    pub g1: N,
}

/// The equations for some points.
pub open spec fn normal<N: Analytic>(points: Seq<(N, N)>, mu: N, s: N) -> Normal<N>
    decreases points.len(),
{
    if points.len() == 0 {
        let zero = N::integer(0);
        Normal { a00: zero, a01: zero, a11: zero, g0: zero, g1: zero }
    } else {
        let before = normal(points.drop_last(), mu, s);
        let (k, m) = points.last();
        let (surv, d_mu, d_s) = slopes(k, mu, s);
        let r = surv.difference(m);
        Normal {
            a00: before.a00.sum(d_mu.product(d_mu)),
            a01: before.a01.sum(d_mu.product(d_s)),
            a11: before.a11.sum(d_s.product(d_s)),
            g0: before.g0.sum(d_mu.product(r)),
            g1: before.g1.sum(d_s.product(r)),
        }
    }
}

impl<N: Analytic> Normal<N> {
    /// The solution with the diagonal raised, if there is one.
    pub open spec fn solution(self, lambda: N) -> Option<(N, N)> {
        let one = N::integer(1);
        let m00 = self.a00.product(one.sum(lambda));
        let m11 = self.a11.product(one.sum(lambda));
        let m01 = self.a01;
        let det = m00.product(m11).difference(m01.product(m01));
        if det.magnitude().below(fraction_of::<N>(1, 1_000_000_000_000_000_000)) || det.equals(
            N::integer(0),
        ) {
            None
        } else {
            Some(
                (
                    m11.product(self.g0).difference(m01.product(self.g1)).negated().quotient(det),
                    m01.negated().product(self.g0).sum(m00.product(self.g1)).negated().quotient(
                        det,
                    ),
                ),
            )
        }
    }
}

/// A pair of parameters, what it misses by, and how far it lies from the pair before.
#[derive(Debug, Clone, Copy, PartialEq)]
pub struct Trial<N> {
    pub mu: N,
    pub s: N,
    pub sse: N,
    pub moved: N,
}

/// The pair that one step leads to.
pub open spec fn stepped<N: Analytic>(
    points: Seq<(N, N)>,
    mu: N,
    s: N,
    step: (N, N),
) -> Trial<N> {
    let new_mu = mu.sum(step.0);
    let new_s = s.sum(step.1).greater(least_scale::<N>());
    Trial {
        mu: new_mu,
        s: new_s,
        sse: misfit(points, new_mu, new_s),
        moved: step.0.magnitude().sum(step.1.magnitude()),
    }
}

/// Looks for a step that misses by less, with more and more damping. Returns where it leads, if
/// one was found, and the damping to go on with.
pub open spec fn improved<N: Analytic>(
    points: Seq<(N, N)>,
    system: Normal<N>,
    mu: N,
    s: N,
    sse: N,
    lambda: N,
    tries: nat,
) -> (Option<Trial<N>>, N)
    decreases tries,
{
    let more = lambda.product(N::integer(10));
    let next = match system.solution(lambda) {
        Some(step) => Some(stepped(points, mu, s, step)),
        None => None,
    };
    if tries == 0 {
        (None, lambda)
    } else if next is Some && next.unwrap().sse.finite() && next.unwrap().sse.below(sse) {
        let less = lambda.product(fraction_of::<N>(1, 2)).greater(
            fraction_of::<N>(1, 1_000_000_000),
        );
        (next, less)
    } else if N::integer(1_000_000_000_000).below(more) {
        (None, more)
    } else {
        improved(points, system, mu, s, sse, more, (tries - 1) as nat)
    }
}

/// Takes steps until none helps, or one helps by almost nothing, or the rounds are used up.
pub open spec fn refined<N: Analytic>(
    points: Seq<(N, N)>,
    mu: N,
    s: N,
    sse: N,
    lambda: N,
    rounds: nat,
) -> (N, N, N, bool)
    decreases rounds,
{
    if rounds == 0 {
        (mu, s, sse, false)
    } else {
        match improved(points, normal(points, mu, s), mu, s, sse, lambda, 12) {
            (Some(t), less) => if t.moved.below(fraction_of::<N>(1, 1_000_000_000)) {
                (t.mu, t.s, t.sse, true)
            } else {
                refined(points, t.mu, t.s, t.sse, less, (rounds - 1) as nat)
            },
            (None, _) => (mu, s, sse, true),
        }
    }
}

/// The curve through some points, of which at least four can be fitted to.
pub open spec fn best_fit<N: Analytic>(points: Seq<(N, N)>) -> Option<LogisticFit<N>> {
    let pts = by_strike(usable(points));
    if pts.len() < 4 {
        None
    } else {
        match first_guess(pts) {
            None => None,
            Some((mu0, s0)) => if !mu0.finite() || !s0.finite() {
                None
            } else {
                let start = s0.greater(least_scale::<N>());
                let (mu, s, sse, converged) = refined(
                    pts,
                    mu0,
                    start,
                    misfit(pts, mu0, start),
                    fraction_of::<N>(1, 1000),
                    25,
                );
                let rmse = sse.quotient(tally::<N>(pts.len())).root();
                if !mu.finite() || !s.finite() || !rmse.finite() || s.at_most(N::integer(0)) {
                    None
                } else {
                    Some(LogisticFit { mu, s, n_points: pts.len() as usize, rmse, converged })
                }
            },
        }
    }
}

proof fn lemma_placed_len<N: Number>(points: Seq<(N, N)>, p: (N, N))
    ensures
        placed(points, p).len() == points.len() + 1,
    decreases points.len(),
{
    if !(points.len() == 0 || !p.0.below(points.last().0)) {
        lemma_placed_len(points.drop_last(), p);
    }
}

proof fn lemma_by_strike_len<N: Number>(points: Seq<(N, N)>)
    ensures
        by_strike(points).len() == points.len(),
    decreases points.len(),
{
    if points.len() > 0 {
        lemma_by_strike_len(points.drop_last());
        lemma_placed_len(by_strike(points.drop_last()), points.last());
    }
}

fn place<N: Number>(points: &mut Vec<(N, N)>, p: (N, N))
    ensures
        final(points)@ == placed(old(points)@, p),
{
    let ghost all = points@;
    let mut i: usize = points.len();
    proof {
        assert(all.take(i as int) =~= all);
        assert(placed(all.take(i as int), p) + all.skip(i as int) =~= placed(all, p));
    }
    while i > 0
        invariant_except_break
            placed(all.take(i as int), p) + all.skip(i as int) == placed(all, p),
        invariant
            i <= all.len(),
            points@ == all,
        ensures
            i <= all.len(),
            points@ == all,
            placed(all, p) == all.take(i as int).push(p) + all.skip(i as int),
        decreases i,
    {
        let ghost head = all.take(i as int);
        if !p.0.is_below(points[i - 1].0) {
            break;
        }
        proof {
            assert(head.drop_last() =~= all.take(i - 1));
            assert(placed(all.take(i - 1), p).push(head.last()) + all.skip(i as int) =~= placed(
                all.take(i - 1),
                p,
            ) + all.skip(i - 1));
        }
        i -= 1;
    }
    points.insert(i, p);
    proof {
        assert(points@ =~= all.take(i as int).push(p) + all.skip(i as int));
    }
}

fn clean<N: Number>(points: &[(N, N)]) -> (r: Vec<(N, N)>)
    ensures
        r@ == by_strike(usable(points@)),
{
    let mut r: Vec<(N, N)> = Vec::new();
    let n: usize = points.len();
    let mut i: usize = 0;
    while i < n
        invariant
            i <= n,
            n == points@.len(),
            r@ == by_strike(usable(points@.take(i as int))),
        decreases n - i,
    {
        let p: (N, N) = points[i];
        proof {
            assert(points@.take(i + 1).drop_last() =~= points@.take(i as int));
            let before = usable(points@.take(i as int));
            assert(before.push(p).drop_last() =~= before);
        }
        if p.0.is_finite() && p.1.is_finite() && N::from_int(0).is_below(p.1) && p.1.is_below(
            N::from_int(1),
        ) {
            place(&mut r, p);
        }
        i += 1;
    }
    proof {
        assert(points@.take(n as int) =~= points@);
    }
    r
}

fn total_misfit<N: Analytic>(points: &Vec<(N, N)>, mu: N, s: N) -> (r: N)
    ensures
        r == misfit(points@, mu, s),
{
    let mut total = N::from_int(0);
    let n: usize = points.len();
    let mut i: usize = 0;
    while i < n
        invariant
            i <= n,
            n == points@.len(),
            total == misfit(points@.take(i as int), mu, s),
        decreases n - i,
    {
        let (k, m): (N, N) = points[i];
        proof {
            assert(points@.take(i + 1).drop_last() =~= points@.take(i as int));
        }
        let r = logistic_survival(k, mu, s).minus(m);
        total = total.plus(r.times(r));
        i += 1;
    }
    proof {
        assert(points@.take(n as int) =~= points@);
    }
    total
}

fn normal_equations<N: Analytic>(points: &Vec<(N, N)>, mu: N, s: N) -> (r: Normal<N>)
    ensures
        r == normal(points@, mu, s),
{
    let zero = N::from_int(0);
    let mut sys = Normal { a00: zero, a01: zero, a11: zero, g0: zero, g1: zero };
    let n: usize = points.len();
    let mut i: usize = 0;
    while i < n
        invariant
            i <= n,
            n == points@.len(),
            sys == normal(points@.take(i as int), mu, s),
        decreases n - i,
    {
        let (k, m): (N, N) = points[i];
        proof {
            assert(points@.take(i + 1).drop_last() =~= points@.take(i as int));
        }
        let (surv, d_mu, d_s): (N, N, N) = partials(k, mu, s);
        let r = surv.minus(m);
        sys = Normal {
            a00: sys.a00.plus(d_mu.times(d_mu)),
            a01: sys.a01.plus(d_mu.times(d_s)),
            a11: sys.a11.plus(d_s.times(d_s)),
            g0: sys.g0.plus(d_mu.times(r)),
            g1: sys.g1.plus(d_s.times(r)),
        };
        i += 1;
    }
    proof {
        assert(points@.take(n as int) =~= points@);
    }
    sys
}

impl<N: Analytic> Normal<N> {
    fn solve(&self, lambda: N) -> (r: Option<(N, N)>)
        ensures
            r == self.solution(lambda),
    {
        let one = N::from_int(1);
        let m00 = self.a00.times(one.plus(lambda));
        let m11 = self.a11.times(one.plus(lambda));
        let m01 = self.a01;
        let det = m00.times(m11).minus(m01.times(m01));
        if det.abs().is_below(ratio::<N>(1, 1_000_000_000_000_000_000)) || det.is_equal(
            N::from_int(0),
        ) {
            return None;
        }
        let d_mu = m11.times(self.g0).minus(m01.times(self.g1)).neg().over(det);
        let d_s = m01.neg().times(self.g0).plus(m00.times(self.g1)).neg().over(det);
        Some((d_mu, d_s))
    }
}

fn improve<N: Analytic>(
    points: &Vec<(N, N)>,
    system: &Normal<N>,
    mu: N,
    s: N,
    sse: N,
    damping: N,
) -> (r: (Option<Trial<N>>, N))
    ensures
        r == improved(points@, *system, mu, s, sse, damping, 12),
{
    let mut lambda = damping;
    let mut tries: usize = 12;
    while tries > 0
        invariant
            improved(points@, *system, mu, s, sse, lambda, tries as nat) == improved(
                points@,
                *system,
                mu,
                s,
                sse,
                damping,
                12,
            ),
        decreases tries,
    {
        if let Some((d_mu, d_s)) = system.solve(lambda) {
            let new_mu = mu.plus(d_mu);
            let new_s = s.plus(d_s).max(ratio::<N>(1, 10_000));
            let new_sse = total_misfit(points, new_mu, new_s);
            if new_sse.is_finite() && new_sse.is_below(sse) {
                let less = lambda.times(ratio::<N>(1, 2)).max(ratio::<N>(1, 1_000_000_000));
                let t = Trial {
                    mu: new_mu,
                    s: new_s,
                    sse: new_sse,
                    moved: d_mu.abs().plus(d_s.abs()),
                };
                return (Some(t), less);
            }
        }
        lambda = lambda.times(N::from_int(10));
        if N::from_int(1_000_000_000_000).is_below(lambda) {
            return (None, lambda);
        }
        tries -= 1;
    }
    (None, lambda)
}

fn refine<N: Analytic>(
    points: &Vec<(N, N)>,
    mu0: N,
    s0: N,
    sse0: N,
    damping: N,
) -> (r: (N, N, N, bool))
    ensures
        r == refined(points@, mu0, s0, sse0, damping, 25),
{
    let mut mu = mu0;
    let mut s = s0;
    let mut sse = sse0;
    let mut lambda = damping;
    let mut rounds: usize = 25;
    while rounds > 0
        invariant
            refined(points@, mu, s, sse, lambda, rounds as nat) == refined(
                points@,
                mu0,
                s0,
                sse0,
                damping,
                25,
            ),
        decreases rounds,
    {
        let system = normal_equations(points, mu, s);
        let (found, less): (Option<Trial<N>>, N) = improve(points, &system, mu, s, sse, lambda);
        match found {
            Some(t) => {
                if t.moved.is_below(ratio::<N>(1, 1_000_000_000)) {
                    return (t.mu, t.s, t.sse, true);
                }
                mu = t.mu;
                s = t.s;
                sse = t.sse;
                lambda = less;
            },
            None => {
                return (mu, s, sse, true);
            },
        }
        rounds -= 1;
    }
    (mu, s, sse, false)
}

/// Fits a curve to points, each a strike and the middle price at it, in any order. Points whose
/// middle is not strictly between 0 and 1 are left out; there is no curve with fewer than four
/// others, or if all strikes are the same.
pub fn fit<N: Analytic>(points: &[(N, N)]) -> (r: Option<LogisticFit<N>>)
    ensures
        r == best_fit(points@),
{
    let pts = clean(points);
    if pts.len() < 4 {
        return None;
    }
    let (mu0, s0): (N, N) = match initial_guess(&pts) {
        Some(g) => g,
        None => {
            return None;
        },
    };
    if !mu0.is_finite() || !s0.is_finite() {
        return None;
    }
    let start = s0.max(ratio::<N>(1, 10_000));
    let sse0 = total_misfit(&pts, mu0, start);
    let (mu, s, sse, converged): (N, N, N, bool) = refine(
        &pts,
        mu0,
        start,
        sse0,
        ratio::<N>(1, 1000),
    );
    let rmse = sse.over(count(pts.len())).sqrt();
    if !mu.is_finite() || !s.is_finite() || !rmse.is_finite() || s.is_at_most(N::from_int(0)) {
        return None;
    }
    Some(LogisticFit { mu, s, n_points: pts.len(), rmse, converged })
}

proof fn lemma_usable_len<N: Number>(points: Seq<(N, N)>)
    ensures
        usable(points).len() <= points.len(),
    decreases points.len(),
{
    if points.len() > 0 {
        lemma_usable_len(points.drop_last());
    }
}

/// A fitted curve has finite parameters, a scale that is not below 0 or 0, and is fitted to at least
/// four points: all that can be fitted to.
pub proof fn law_fit_is_sane<N: Analytic>(points: Seq<(N, N)>)
    requires
        points.len() <= usize::MAX,
    ensures
        match best_fit(points) {
            Some(f) => f.mu.finite() && f.s.finite() && f.rmse.finite() && !f.s.at_most(
                N::integer(0),
            ) && usable(points).len() >= 4 && f.n_points == usable(points).len(),
            None => true,
        },
{
    lemma_by_strike_len(usable(points));
    lemma_usable_len(points);
}

/// With fewer than four points that can be fitted to there is no curve.
pub proof fn law_few_points_do_not_fit<N: Analytic>(points: Seq<(N, N)>)
    requires
        usable(points).len() < 4,
    ensures
        best_fit(points) is None,
{
    lemma_by_strike_len(usable(points));
}

/// No root is below 0. That is so of every type whose roots of numbers below 0 compare with nothing.
pub open spec fn roots_are_sane<N: Number>() -> bool {
    forall|x: N| !(#[trigger] x.root()).below(N::integer(0))
}

/// Numbers of six decimals have sane roots.
pub proof fn law_six_decimals_have_sane_roots()
    ensures
        roots_are_sane::<Fixed>(),
{
    assert forall|x: Fixed| !(#[trigger] x.root()).below(Fixed::integer(0)) by {
        assert(Fixed::integer(0).units == 0);
    }
}

/// What a curve misses by is not below 0.
pub proof fn law_error_is_not_below_zero<N: Analytic>(points: Seq<(N, N)>)
    requires
        roots_are_sane::<N>(),
    ensures
        match best_fit(points) {
            Some(f) => !f.rmse.below(N::integer(0)),
            None => true,
        },
{
}

proof fn lemma_usable_join<N: Number>(a: Seq<(N, N)>, b: Seq<(N, N)>)
    ensures
        usable(a + b) == usable(a) + usable(b),
    decreases b.len(),
{
    if b.len() == 0 {
        assert(a + b =~= a);
        assert(usable(a) + usable(b) =~= usable(a));
    } else {
        assert((a + b).drop_last() =~= a + b.drop_last());
        lemma_usable_join(a, b.drop_last());
        assert(usable(a + b) =~= usable(a) + usable(b));
    }
}

/// A point that cannot be fitted to changes nothing, wherever it stands.
pub proof fn law_unusable_points_do_not_matter<N: Analytic>(
    points: Seq<(N, N)>,
    i: int,
    p: (N, N),
)
    requires
        0 <= i <= points.len(),
        !is_usable(p),
    ensures
        best_fit(points.insert(i, p)) == best_fit(points),
{
    let (a, b) = (points.take(i), points.skip(i));
    assert(points =~= a + b);
    assert(points.insert(i, p) =~= a.push(p) + b);
    assert(a.push(p).drop_last() =~= a);
    lemma_usable_join(a, b);
    lemma_usable_join(a.push(p), b);
}

/// The points that can be fitted to, in the order of their strikes.
spec fn ladder<N: Number>(points: Seq<(N, N)>) -> Seq<(N, N)> {
    by_strike(usable(points))
}

/// A point is one of some points, and can be fitted to.
pub open spec fn is_rung<N: Number>(points: Seq<(N, N)>, p: (N, N)) -> bool {
    points.contains(p) && is_usable(p)
}

/// The strikes of the points that can be fitted to stand in an order: none is both below and above
/// another, and what is below another is below or above any third. That is so of all strikes of a
/// type that orders its finite numbers.
pub open spec fn strikes_are_ordered<N: Number>(points: Seq<(N, N)>) -> bool {
    &&& forall|p: (N, N), q: (N, N)|
        is_rung(points, p) && is_rung(points, q) && #[trigger] p.0.below(q.0) ==> !q.0.below(p.0)
    &&& forall|p: (N, N), q: (N, N), r: (N, N)|
        is_rung(points, p) && is_rung(points, q) && is_rung(points, r) && #[trigger] p.0.below(q.0)
            && !(#[trigger] r.0.below(q.0)) ==> p.0.below(r.0)
}

/// No two points that can be fitted to differ at one strike.
pub open spec fn strikes_tell_apart<N: Number>(points: Seq<(N, N)>) -> bool {
    forall|p: (N, N), q: (N, N)|
        is_rung(points, p) && is_rung(points, q) && !(#[trigger] p.0.below(q.0)) && !q.0.below(p.0)
            ==> p == q
}

/// Numbers of six decimals order all strikes.
pub proof fn law_six_decimals_order_strikes(points: Seq<(Fixed, Fixed)>)
    ensures
        strikes_are_ordered(points),
{
}

proof fn lemma_placed_commutes<N: Number>(
    all: Seq<(N, N)>,
    points: Seq<(N, N)>,
    e: (N, N),
    f: (N, N),
)
    requires
        strikes_are_ordered(all),
        strikes_tell_apart(all),
        forall|i: int| 0 <= i < points.len() ==> is_rung(all, #[trigger] points[i]),
        is_rung(all, e),
        is_rung(all, f),
    ensures
        placed(placed(points, e), f) == placed(placed(points, f), e),
    decreases points.len(),
{
    if e != f && points.len() > 0 {
        let rest = points.drop_last();
        let l = points.last();
        assert(is_rung(all, points[points.len() - 1]));
        lemma_placed_commutes(all, rest, e, f);
        assert(placed(rest, e).push(l).drop_last() =~= placed(rest, e));
        assert(placed(rest, f).push(l).drop_last() =~= placed(rest, f));
        assert(e.0.below(l.0) && !f.0.below(l.0) ==> e.0.below(f.0));
        assert(f.0.below(l.0) && !e.0.below(l.0) ==> f.0.below(e.0));
    }
    assert(e.0.below(f.0) ==> !f.0.below(e.0));
    assert(points.push(e).drop_last() =~= points);
    assert(points.push(f).drop_last() =~= points);
}

proof fn lemma_placed_members<N: Number>(all: Seq<(N, N)>, points: Seq<(N, N)>, e: (N, N))
    requires
        forall|i: int| 0 <= i < points.len() ==> is_rung(all, #[trigger] points[i]),
        is_rung(all, e),
    ensures
        forall|i: int|
            0 <= i < placed(points, e).len() ==> is_rung(all, #[trigger] placed(points, e)[i]),
    decreases points.len(),
{
    if points.len() > 0 && e.0.below(points.last().0) {
        let rest = points.drop_last();
        assert(is_rung(all, points[points.len() - 1]));
        assert forall|i: int| 0 <= i < rest.len() implies is_rung(all, #[trigger] rest[i]) by {
            assert(rest[i] == points[i]);
        }
        lemma_placed_members(all, rest, e);
        assert forall|i: int| 0 <= i < placed(points, e).len() implies is_rung(
            all,
            #[trigger] placed(points, e)[i],
        ) by {
            if i < placed(rest, e).len() {
                assert(placed(points, e)[i] == placed(rest, e)[i]);
            }
        }
    }
}

proof fn lemma_ladder_members<N: Number>(all: Seq<(N, N)>, points: Seq<(N, N)>)
    requires
        forall|i: int| 0 <= i < points.len() ==> all.contains(#[trigger] points[i]),
    ensures
        forall|i: int| 0 <= i < ladder(points).len() ==> is_rung(all, #[trigger] ladder(points)[i]),
    decreases points.len(),
{
    if points.len() > 0 {
        let rest = points.drop_last();
        let l = points.last();
        assert(all.contains(points[points.len() - 1]));
        assert(rest.push(l) =~= points);
        lemma_ladder_members(all, rest);
        lemma_ladder_push(rest, l);
        if is_usable(l) {
            lemma_placed_members(all, ladder(rest), l);
        }
    }
}

proof fn lemma_ladder_push<N: Number>(points: Seq<(N, N)>, e: (N, N))
    ensures
        ladder(points.push(e)) == if is_usable(e) {
            placed(ladder(points), e)
        } else {
            ladder(points)
        },
{
    assert(points.push(e).drop_last() =~= points);
    assert(usable(points).push(e).drop_last() =~= usable(points));
}

proof fn lemma_ladder_moved<N: Number>(all: Seq<(N, N)>, points: Seq<(N, N)>, i: int)
    requires
        0 <= i < points.len(),
        strikes_are_ordered(all),
        strikes_tell_apart(all),
        forall|k: int| 0 <= k < points.len() ==> all.contains(#[trigger] points[k]),
    ensures
        ladder(points) == ladder(points.remove(i).push(points[i])),
    decreases points.len(),
{
    let x = points[i];
    if i == points.len() - 1 {
        assert(points.remove(i).push(x) =~= points);
    } else {
        let rest = points.drop_last();
        let l = points.last();
        assert(points[points.len() - 1] == l);
        assert(rest[i] == x);
        assert forall|k: int| 0 <= k < rest.len() implies all.contains(#[trigger] rest[k]) by {
            assert(rest[k] == points[k]);
        }
        lemma_ladder_moved(all, rest, i);
        let moved = rest.remove(i);
        assert(rest.push(l) =~= points);
        assert(points.remove(i) =~= moved.push(l));
        lemma_ladder_push(rest, l);
        lemma_ladder_push(moved, x);
        lemma_ladder_push(moved, l);
        lemma_ladder_push(moved.push(l), x);
        if is_usable(x) && is_usable(l) {
            assert forall|k: int| 0 <= k < moved.len() implies all.contains(#[trigger] moved[k]) by {
                assert(moved[k] == if k < i {
                    rest[k]
                } else {
                    rest[k + 1]
                });
            }
            lemma_ladder_members(all, moved);
            lemma_placed_commutes(all, ladder(moved), x, l);
        }
    }
}

proof fn lemma_ladder_reordered<N: Number>(all: Seq<(N, N)>, a: Seq<(N, N)>, b: Seq<(N, N)>)
    requires
        a.to_multiset() == b.to_multiset(),
        strikes_are_ordered(all),
        strikes_tell_apart(all),
        forall|k: int| 0 <= k < b.len() ==> all.contains(#[trigger] b[k]),
    ensures
        ladder(a) == ladder(b),
    decreases a.len(),
{
    broadcast use vstd::seq_lib::group_to_multiset_ensures;

    assert(a.len() == a.to_multiset().len());
    assert(b.len() == b.to_multiset().len());
    if a.len() == 0 {
        assert(a =~= b);
    } else {
        let x = a.last();
        let rest = a.drop_last();
        assert(a[a.len() - 1] == x);
        assert(a.contains(x));
        assert(b.to_multiset().count(x) > 0);
        assert(b.contains(x));
        let i = choose|i: int| 0 <= i < b.len() && b[i] == x;
        let left = b.remove(i);
        assert(rest =~= a.remove(a.len() - 1));
        assert(rest.to_multiset() == a.to_multiset().remove(x));
        assert(left.to_multiset() == b.to_multiset().remove(x));
        assert forall|k: int| 0 <= k < left.len() implies all.contains(#[trigger] left[k]) by {
            assert(left[k] == if k < i {
                b[k]
            } else {
                b[k + 1]
            });
        }
        lemma_ladder_reordered(all, rest, left);
        lemma_ladder_push(rest, x);
        lemma_ladder_push(left, x);
        assert(rest.push(x) =~= a);
        lemma_ladder_moved(all, b, i);
    }
}

/// The order of the points does not matter, where their strikes stand in an order and no two of
/// them differ at one strike.
pub proof fn law_order_of_points_does_not_matter<N: Analytic>(a: Seq<(N, N)>, b: Seq<(N, N)>)
    requires
        a.to_multiset() == b.to_multiset(),
        strikes_are_ordered(b),
        strikes_tell_apart(b),
    ensures
        best_fit(a) == best_fit(b),
{
    lemma_ladder_reordered(b, a, b);
}

fn initial_guess<N: Analytic>(points: &Vec<(N, N)>) -> (r: Option<(N, N)>)
    ensures
        r == first_guess(points@),
{
    let n: usize = points.len();
    if n == 0 {
        return None;
    }
    let half = ratio::<N>(1, 2);
    let k_lo = points[0].0;
    let k_hi = points[n - 1].0;
    let span = k_hi.minus(k_lo);
    if !N::from_int(0).is_below(span) {
        return None;
    }
    let mu = match crossing_strike(points, half) {
        Some(k) => k,
        None => {
            if points[0].1.is_below(half) {
                k_lo
            } else {
                k_hi
            }
        },
    };
    let s = match (
        crossing_strike(points, ratio::<N>(1, 4)),
        crossing_strike(points, ratio::<N>(3, 4)),
    ) {
        (Some(k25), Some(k75)) => k25.minus(k75).abs().over(
            N::from_int(2).times(N::from_int(3).ln()),
        ),
        _ => span.over(N::from_int(6)),
    };
    Some((mu, s.max(ratio::<N>(1, 10_000))))
}

fn crossing_strike<N: Number>(points: &Vec<(N, N)>, target: N) -> (r: Option<N>)
    ensures
        r == crossing(points@, target),
{
    let n: usize = points.len();
    let mut i: usize = 0;
    proof {
        assert(points@.skip(0) =~= points@);
    }
    while n - i >= 2
        invariant
            n == points@.len(),
            i <= n,
            crossing(points@.skip(i as int), target) == crossing(points@, target),
        decreases n - i,
    {
        let (k0, m0): (N, N) = points[i];
        let (k1, m1): (N, N) = points[i + 1];
        proof {
            let rest = points@.skip(i as int);
            assert(rest[0] == points@[i as int]);
            assert(rest[1] == points@[i + 1]);
            assert(rest.drop_first() =~= points@.skip(i + 1));
        }
        if m0.min(m1).is_at_most(target) && target.is_at_most(m0.max(m1)) {
            let dm = m1.minus(m0);
            if is_nothing(dm) {
                return Some(ratio::<N>(1, 2).times(k0.plus(k1)));
            }
            let part = target.minus(m0).over(dm);
            return Some(k0.plus(part.times(k1.minus(k0))));
        }
        i += 1;
    }
    None
}

/// Where the last `-T` of a text begins.
pub open spec fn strike_tag(s: Seq<char>) -> Option<int>
    decreases s.len(),
{
    if s.len() < 2 {
        None
    } else if s[s.len() - 2] == '-' && s[s.len() - 1] == 'T' {
        Some(s.len() - 2)
    } else {
        strike_tag(s.drop_last())
    }
}

/// The id without its venue.
pub open spec fn bare_id(instrument: Seq<char>) -> Seq<char> {
    match split_once_at(instrument, ':') {
        Some((_, rest)) => rest,
        None => instrument,
    }
}

/// The event and the strike that an id names: what stands before the last `-T` of it, without the
/// venue, and the number that stands behind.
pub open spec fn event_strike<N: Number>(instrument: Seq<char>) -> Option<(Seq<char>, N)> {
    let bare = bare_id(instrument);
    match strike_tag(bare) {
        None => None,
        Some(i) => match N::written(bare.skip(i + 2)) {
            Some(strike) => if i == 0 || !strike.finite() {
                None
            } else {
                Some((bare.take(i), strike))
            },
            None => None,
        },
    }
}

/// Reads the event and the strike of an instrument off its id.
pub fn parse_event_strike<N: Number>(instrument: &str) -> (r: Option<(String, N)>)
    ensures
        match r {
            Some((event, strike)) => event_strike::<N>(instrument@) == Some((event@, strike)),
            None => event_strike::<N>(instrument@) is None,
        },
{
    let bare: String = match split_once(instrument, ':') {
        Some((_, rest)) => rest,
        None => instrument.to_owned(),
    };
    let v = chars_of(bare.as_str());
    let mut n: usize = v.len();
    proof {
        assert(v@.take(n as int) =~= v@);
    }
    while n >= 2 && !(v[n - 2] == '-' && v[n - 1] == 'T')
        invariant
            n <= v@.len(),
            strike_tag(v@.take(n as int)) == strike_tag(v@),
        decreases n,
    {
        proof {
            assert(v@.take(n as int).drop_last() =~= v@.take(n - 1));
        }
        n -= 1;
    }
    if n < 2 {
        return None;
    }
    let tail = string_of(&v, n, v.len());
    proof {
        assert(v@.subrange(n as int, v@.len() as int) =~= v@.skip(n as int));
        assert(v@.subrange(0, n - 2) =~= v@.take(n - 2));
    }
    match N::parse(tail.as_str()) {
        Some(strike) => {
            if n == 2 || !strike.is_finite() {
                None
            } else {
                Some((string_of(&v, 0, n - 2), strike))
            }
        },
        None => None,
    }
}

// ---- what the curve is -------------------------------------------------------------------------

proof fn lemma_series_at_zero(n: nat)
    requires
        n > 0,
    ensures
        exp_series(Fixed { units: 0 }, n).0.units == 1_000_000,
        exp_series(Fixed { units: 0 }, n).1.units == 0,
    decreases n,
{
    let zero = Fixed { units: 0 };
    assert(Fixed::integer(0).units == 0 && Fixed::integer(1).units == 1_000_000);
    if n == 1 {
        assert(exp_series(zero, 0) == (Fixed::integer(0), Fixed::integer(1)));
        lemma_cut_multiple(0, 1_000_000);
    } else {
        lemma_series_at_zero((n - 1) as nat);
        lemma_cut_multiple(0, 1_000_000);
    }
    let (_, term) = exp_series(zero, (n - 1) as nat);
    assert(term.units * 0 == 0);
    assert(term.product(zero).units == 0);
    let d = Fixed::integer(n as int);
    assert(d.units > 0);
    lemma_cut(0, d.units as int);
    assert(cut_quotient(0, d.units as int) == 0) by {
        lemma_cut_multiple(0, d.units as int);
    }
    assert(term.product(zero).quotient(d).units == 0);
}

/// The curve is one half at its median, whatever its scale.
pub proof fn law_curves_are_a_half_at_the_median(mu: Fixed, s: Fixed)
    requires
        s.units > 0,
    ensures
        survival(mu, mu, s).units == 500_000,
{
    let z = mu.difference(mu).quotient(s);
    lemma_cut_multiple(0, s.units as int);
    assert(mu.difference(mu).units == 0);
    assert(z.units == 0);
    assert(z.negated() == z);
    lemma_series_at_zero(TERMS as nat);
    let e = z.negated().exponential();
    assert(e.units == 1_000_000);
    let one = Fixed::integer(1);
    assert(one.units == 1_000_000);
    assert(one.sum(e).units == 2_000_000);
    lemma_cut_multiple(500_000, 2_000_000);
    assert(e.quotient(one.sum(e)).units == 500_000);
}

/// The curve is even about its median: what it loses above is what it gains below, to the last
/// millionth. Above the median it is no more than one half, and below no less, where what the
/// exponential gives for the distance lies between 0 and one.
pub proof fn law_curves_are_even(mu: Fixed, s: Fixed, d: Fixed)
    requires
        s.units > 0,
        d.units > 0,
        -LARGEST < mu.units - d.units,
        mu.units + d.units < LARGEST,
        0 <= d.quotient(s).negated().exponential().units <= 1_000_000,
    ensures
        ({
            let above = survival(mu.sum(d), mu, s).units;
            let below = survival(mu.difference(d), mu, s).units;
            &&& 0 <= above <= 500_000 <= below <= 1_000_000
            &&& 999_999 <= above + below <= 1_000_000
        }),
{
    let up = mu.sum(d).difference(mu);
    let down = mu.difference(d).difference(mu);
    assert(up == d);
    assert(down.units == -d.units);
    lemma_cut(d.units * 1_000_000, s.units as int);
    lemma_cut(-(d.units * 1_000_000), s.units as int);
    assert(cut_quotient(-(d.units * 1_000_000), s.units as int) == -cut_quotient(
        d.units * 1_000_000,
        s.units as int,
    ));
    let z = d.quotient(s);
    assert(z.units >= 0);
    assert(down.quotient(s).units == -z.units);
    let e = z.negated().exponential();
    assert(Fixed::integer(0).units == 0 && Fixed::integer(1).units == 1_000_000);
    if z.units == 0 {
        lemma_series_at_zero(TERMS as nat);
        assert(z.negated() == z);
        assert(z == (Fixed { units: 0 }));
    }
    let t = Fixed::integer(1).sum(e);
    let (x, y) = (e.units as int, 1_000_000 + e.units);
    assert(t.units == y);
    lemma_cut(x * 1_000_000, y);
    lemma_cut(1_000_000_000_000, y);
    let a = e.quotient(t).units as int;
    let b = Fixed::integer(1).quotient(t).units as int;
    assert(0 <= a * y <= x * 1_000_000 < a * y + y);
    assert(0 <= b * y <= 1_000_000 * 1_000_000 < b * y + y);
    assert(0 <= a <= 500_000 <= b <= 1_000_000) by (nonlinear_arith)
        requires
            0 <= a * y <= x * 1_000_000,
            x * 1_000_000 < a * y + y,
            0 <= b * y <= 1_000_000 * 1_000_000,
            1_000_000 * 1_000_000 < b * y + y,
            y == 1_000_000 + x,
            0 <= x <= 1_000_000,
    ;
    assert(999_999 <= a + b <= 1_000_000) by (nonlinear_arith)
        requires
            a * y <= x * 1_000_000 < a * y + y,
            b * y <= 1_000_000 * 1_000_000 < b * y + y,
            y == 1_000_000 + x,
            0 <= x <= 1_000_000,
    ;
}

/// Only the distance from the median in scales matters: two curves agree at strikes that lie as many
/// scales above their medians.
pub proof fn law_curves_look_at_scales(
    k: Fixed,
    mu: Fixed,
    s: Fixed,
    j: Fixed,
    nu: Fixed,
    t: Fixed,
)
    requires
        s.units > 0,
        t.units > 0,
        -LARGEST <= k.units - mu.units <= LARGEST,
        -LARGEST <= j.units - nu.units <= LARGEST,
        (k.units - mu.units) * t.units == (j.units - nu.units) * s.units,
    ensures
        survival(k, mu, s) == survival(j, nu, t),
{
    let (a, b) = (k.units - mu.units, j.units - nu.units);
    lemma_same_cut(a, s.units as int, b, t.units as int);
    assert(k.difference(mu).units == a);
    assert(j.difference(nu).units == b);
}

proof fn lemma_same_cut(a: int, s: int, b: int, t: int)
    requires
        s > 0,
        t > 0,
        a * t == b * s,
    ensures
        cut_quotient(a * 1_000_000, s) == cut_quotient(b * 1_000_000, t),
{
    lemma_cut(a * 1_000_000, s);
    lemma_cut(b * 1_000_000, t);
    let p = cut_quotient(a * 1_000_000, s);
    let q = cut_quotient(b * 1_000_000, t);
    let (x, y) = (a * 1_000_000, b * 1_000_000);
    assert(x * t == y * s) by (nonlinear_arith)
        requires
            a * t == b * s,
            x == a * 1_000_000,
            y == b * 1_000_000,
    ;
    if x >= 0 {
        assert(y >= 0) by (nonlinear_arith)
            requires
                x * t == y * s,
                x >= 0,
                t > 0,
                s > 0,
        ;
        assert(p == q) by (nonlinear_arith)
            requires
                x * t == y * s,
                p * s <= x < p * s + s,
                q * t <= y < q * t + t,
                s > 0,
                t > 0,
        ;
    } else {
        assert(y <= 0) by (nonlinear_arith)
            requires
                x * t == y * s,
                x < 0,
                t > 0,
                s > 0,
        ;
        assert(p == q) by (nonlinear_arith)
            requires
                x * t == y * s,
                p * s - s < x <= p * s,
                q * t - t < y <= q * t,
                s > 0,
                t > 0,
        ;
    }
}

/// No step is taken that makes the curve miss by more: what is found misses by no more than what was
/// begun with, and by what it says.
pub proof fn law_steps_only_improve(
    points: Seq<(Fixed, Fixed)>,
    mu: Fixed,
    s: Fixed,
    lambda: Fixed,
    rounds: nat,
)
    ensures
        ({
            let sse = misfit(points, mu, s);
            let (m, t, e, _) = refined(points, mu, s, sse, lambda, rounds);
            &&& e.units <= sse.units
            &&& e == misfit(points, m, t)
        }),
    decreases rounds,
{
    if rounds > 0 {
        let sse = misfit(points, mu, s);
        lemma_improved(points, normal(points, mu, s), mu, s, sse, lambda, 12);
        match improved(points, normal(points, mu, s), mu, s, sse, lambda, 12) {
            (Some(t), less) => {
                law_steps_only_improve(points, t.mu, t.s, less, (rounds - 1) as nat);
            },
            (None, _) => {},
        }
    }
}

proof fn lemma_improved(
    points: Seq<(Fixed, Fixed)>,
    system: Normal<Fixed>,
    mu: Fixed,
    s: Fixed,
    sse: Fixed,
    lambda: Fixed,
    tries: nat,
)
    ensures
        improved(points, system, mu, s, sse, lambda, tries).0 matches Some(t) ==> t.sse.units
            < sse.units && t.sse == misfit(points, t.mu, t.s),
    decreases tries,
{
    if tries > 0 {
        let more = lambda.product(Fixed::integer(10));
        lemma_improved(points, system, mu, s, sse, more, (tries - 1) as nat);
    }
}

/// What the curve misses by is the sum of the squares of what it misses by at each point: one point
/// more adds its own.
pub proof fn law_misfits_are_squares(
    points: Seq<(Fixed, Fixed)>,
    k: Fixed,
    mid: Fixed,
    mu: Fixed,
    s: Fixed,
)
    requires
        ({
            let off = survival(k, mu, s).units - mid.units;
            &&& -1_000_000 <= off <= 1_000_000
            &&& 0 <= misfit(points, mu, s).units <= 1_000_000_000_000_000
        }),
    ensures
        ({
            let off = survival(k, mu, s).units - mid.units;
            let added = misfit(points.push((k, mid)), mu, s).units - misfit(points, mu, s).units;
            added * 1_000_000 <= off * off < added * 1_000_000 + 1_000_000
        }),
        misfit(Seq::empty(), mu, s).units == 0,
{
    let all = points.push((k, mid));
    assert(all.drop_last() =~= points);
    assert(all.last() == (k, mid));
    let r = survival(k, mu, s).difference(mid);
    let off = survival(k, mu, s).units - mid.units;
    assert(r.units == off);
    assert(0 <= off * off <= 1_000_000_000_000) by (nonlinear_arith)
        requires
            -1_000_000 <= off <= 1_000_000,
    ;
    lemma_cut(off * off, 1_000_000);
    law_products_are_cut(r, r);
}

/// A straight line between two points passes the level of each at its strike, and one between their
/// levels at a strike between theirs.
pub proof fn law_crossings_lie_between(
    points: Seq<(Fixed, Fixed)>,
    target: Fixed,
)
    requires
        points.len() >= 2,
        points[0].0.units <= points[1].0.units,
        -1_000_000_000_000_000 <= points[0].0.units,
        points[1].0.units <= 1_000_000_000_000_000,
        0 <= points[1].1.units < points[0].1.units <= 1_000_000,
        points[1].1.units <= target.units <= points[0].1.units,
    ensures
        crossing(points, target) matches Some(k) && points[0].0.units <= k.units
            <= points[1].0.units && (target == points[0].1 ==> k == points[0].0) && (target
            == points[1].1 ==> k == points[1].0),
{
    let (k0, m0) = points[0];
    let (k1, m1) = points[1];
    lemma_speck_is_zero();
    let dm = m1.difference(m0);
    let gap = target.difference(m0);
    assert(dm.units == m1.units - m0.units);
    assert(gap.units == target.units - m0.units);
    assert(!nothing(dm));
    let (g, w) = (m0.units - target.units, m0.units - m1.units);
    let c = cut_quotient(-(g * 1_000_000), -w);
    lemma_negative_quotient(g * 1_000_000, w);
    lemma_cut(g * 1_000_000, w);
    assert(0 <= c <= 1_000_000) by (nonlinear_arith)
        requires
            0 <= c * w <= g * 1_000_000,
            0 <= g <= w,
            w > 0,
    ;
    let part = gap.quotient(dm);
    assert(gap.units * 1_000_000 == -(g * 1_000_000));
    assert(part.units == c);
    let span = k1.difference(k0);
    let v = span.units as int;
    assert(v == k1.units - k0.units);
    assert(0 <= c * v <= v * 1_000_000) by (nonlinear_arith)
        requires
            0 <= c <= 1_000_000,
            0 <= v,
    ;
    lemma_cut(c * v, 1_000_000);
    law_products_are_cut(part, span);
    if g == 0 {
        lemma_cut_multiple(0, w);
        assert(c == 0);
        assert(c * v == 0) by (nonlinear_arith)
            requires
                c == 0,
        ;
    }
    if g == w {
        assert(g * 1_000_000 == 1_000_000 * w);
        lemma_cut_multiple(1_000_000, w);
        assert(c == 1_000_000);
        assert(c * v == v * 1_000_000) by (nonlinear_arith)
            requires
                c == 1_000_000,
        ;
        lemma_cut_multiple(v, 1_000_000);
    }
}

proof fn lemma_negative_quotient(a: int, b: int)
    requires
        a >= 0,
        b > 0,
    ensures
        cut_quotient(-a, -b) == cut_quotient(a, b),
{
}

/// An id names its event before the last `-T` of it and its strike behind, whatever venue stands
/// before.
pub proof fn law_ids_name_events_and_strikes<N: Number>(
    venue: Seq<char>,
    event: Seq<char>,
    strike: Seq<char>,
    k: N,
)
    requires
        !venue.contains(':'),
        !event.contains(':'),
        !strike.contains(':'),
        !strike.contains('-'),
        event.len() > 0,
        N::written(strike) == Some(k),
        k.finite(),
    ensures
        event_strike::<N>(event + seq!['-', 'T'] + strike) == Some((event, k)),
        event_strike::<N>(venue + seq![':'] + (event + seq!['-', 'T'] + strike)) == Some((event, k)),
{
    let bare = event + seq!['-', 'T'] + strike;
    lemma_strike_tag(event, strike);
    assert(bare.take(event.len() as int) =~= event);
    assert(bare.skip(event.len() as int + 2) =~= strike);
    assert(!bare.contains(':')) by {
        if bare.contains(':') {
            let i = choose|i: int| 0 <= i < bare.len() && bare[i] == ':';
            if i < event.len() {
                assert(event[i] == ':');
            } else if i >= event.len() + 2 {
                assert(strike[i - event.len() - 2] == ':');
            }
        }
    }
    let full = venue + seq![':'] + bare;
    assert(full[venue.len() as int] == ':');
    assert forall|i: int| 0 <= i < venue.len() implies full[i] != ':' by {
        assert(full[i] == venue[i]);
    }
    lemma_first_index_unique(full, ':', venue.len() as int);
    assert(full.skip(venue.len() as int + 1) =~= bare);
}

proof fn lemma_strike_tag(event: Seq<char>, strike: Seq<char>)
    requires
        !strike.contains('-'),
    ensures
        strike_tag(event + seq!['-', 'T'] + strike) == Some(event.len() as int),
    decreases strike.len(),
{
    let s = event + seq!['-', 'T'] + strike;
    let n = s.len();
    if strike.len() > 0 {
        let rest = strike.drop_last();
        assert(s.drop_last() =~= event + seq!['-', 'T'] + rest);
        assert(!rest.contains('-')) by {
            if rest.contains('-') {
                let i = choose|i: int| 0 <= i < rest.len() && rest[i] == '-';
                assert(strike[i] == '-');
            }
        }
        lemma_strike_tag(event, rest);
        if strike.len() > 1 {
            assert(s[n - 2] == strike[strike.len() - 2]);
            assert(strike.contains(strike[strike.len() - 2]));
        } else {
            assert(s[n - 2] == 'T');
        }
    } else {
        assert(s[n - 2] == '-' && s[n - 1] == 'T');
    }
}

/// The slopes of the curve: a higher median lifts it, and a larger scale lifts it above the median and
/// lowers it below. Along the median it is the curve times what it is short of one, over the scale;
/// with numbers of six decimals it misses by less than a millionth.
pub proof fn law_slopes_of_the_curve(k: Fixed, mu: Fixed, s: Fixed)
    requires
        1_000_000 <= s.units <= 1_000_000_000,
        -1_000_000_000_000 <= k.units - mu.units <= 1_000_000_000_000,
        0 <= survival(k, mu, s).units <= 1_000_000,
    ensures
        ({
            let (surv, d_mu, d_s) = slopes(k, mu, s);
            let g = surv.units * (1_000_000 - surv.units);
            &&& surv == survival(k, mu, s)
            &&& d_mu.units >= 0
            &&& d_mu.units * s.units <= g < (d_mu.units + 1) * s.units + 1_000_000
            &&& k.units >= mu.units ==> d_s.units >= 0
            &&& k.units <= mu.units ==> d_s.units <= 0
        }),
{
    let surv = survival(k, mu, s);
    let one = Fixed::integer(1);
    assert(one.units == 1_000_000);
    let rest = one.difference(surv);
    let (x, w) = (surv.units as int, 1_000_000 - surv.units);
    assert(rest.units == w);
    assert(0 <= x * w <= 1_000_000_000_000) by (nonlinear_arith)
        requires
            0 <= x <= 1_000_000,
            w == 1_000_000 - x,
    ;
    lemma_cut(x * w, 1_000_000);
    law_products_are_cut(surv, rest);
    let g = surv.product(rest);
    let v = g.units as int;
    let t = s.units as int;
    lemma_cut(v * 1_000_000, t);
    let q = cut_quotient(v * 1_000_000, t);
    assert(0 <= q <= 1_000_000) by (nonlinear_arith)
        requires
            0 <= q * t <= v * 1_000_000,
            0 <= v <= 1_000_000,
            t >= 1_000_000,
    ;
    assert(g.quotient(s).units == q);
    assert((q + 1) * t == q * t + t) by (nonlinear_arith);
    let off = k.difference(mu);
    assert(off.units == k.units - mu.units);
    let o = off.units as int;
    assert(-1_000_000_000_000_000_000 <= v * o <= 1_000_000_000_000_000_000) by (nonlinear_arith)
        requires
            0 <= v <= 1_000_000,
            -1_000_000_000_000 <= o <= 1_000_000_000_000,
    ;
    assert(o >= 0 ==> v * o >= 0) by (nonlinear_arith)
        requires
            v >= 0,
    ;
    assert(o <= 0 ==> v * o <= 0) by (nonlinear_arith)
        requires
            v >= 0,
    ;
    lemma_cut(v * o, 1_000_000);
    let num = g.product(off);
    assert(o >= 0 ==> num.units >= 0);
    assert(o <= 0 ==> num.units <= 0);
    assert(1_000_000_000_000 <= t * t <= 1_000_000_000_000_000_000) by (nonlinear_arith)
        requires
            1_000_000 <= t <= 1_000_000_000,
    ;
    lemma_cut(t * t, 1_000_000);
    let den = s.product(s);
    assert(den.units > 0);
    lemma_cut(num.units * 1_000_000, den.units as int);
    let c = cut_quotient(num.units * 1_000_000, den.units as int);
    assert(num.units >= 0 ==> c >= 0) by (nonlinear_arith)
        requires
            num.units * 1_000_000 >= 0 ==> 0 <= c * den.units,
            den.units > 0,
    ;
    assert(num.units <= 0 ==> c <= 0) by (nonlinear_arith)
        requires
            num.units * 1_000_000 <= 0 ==> c * den.units <= 0,
            den.units > 0,
    ;
}

/// The points that are fitted to are those with a middle between 0 and one dollar, in their order.
pub proof fn law_usable_points_are_between(points: Seq<(Fixed, Fixed)>, p: (Fixed, Fixed))
    requires
        p.0.finite(),
    ensures
        0 < p.1.units < 1_000_000 ==> usable(points.push(p)) == usable(points).push(p),
        !(0 < p.1.units < 1_000_000) ==> usable(points.push(p)) == usable(points),
        usable(Seq::<(Fixed, Fixed)>::empty()).len() == 0,
{
    assert(points.push(p).drop_last() =~= points);
    assert(Fixed::integer(0).units == 0 && Fixed::integer(1).units == 1_000_000);
}

} // verus!
