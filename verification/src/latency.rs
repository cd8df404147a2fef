//! Delays: when an order can match, and when a cancel takes effect.
//!
//! A run with delays is as reproducible as one without. The jitter of a fixed delay depends on
//! the order's number alone; any other delay is drawn from a generator with a seed, one draw after
//! the other.
use crate::config::{LatencyConfig, LatencyDist};
use crate::fixed::{
    cut_quotient, law_whole_products_are_exact, lemma_cut_multiple, size, Fixed,
};
use crate::number::{Analytic, Number};
use crate::text::{
    chars_of, int_value, int_within, is_space, is_whitespace, parse_i64, split, split_at_char, texts, trim,
    trimmed,
};
use vstd::prelude::*;

verus! {

/// The generator `splitmix64`.
#[derive(Debug, Clone, Copy)]
pub struct SplitMix64 {
    pub state: u64,
}

/// The step from one state of the generator to the next.
pub open spec fn next_state(state: u64) -> u64 {
    state.wrapping_add(0x9E37_79B9_7F4A_7C15)
}

/// What a state of the generator is scrambled to.
pub open spec fn scrambled(z: u64) -> u64 {
    let a = ((z ^ (z >> 30)) as u64).wrapping_mul(0xBF58_476D_1CE4_E5B9);
    let b = ((a ^ (a >> 27)) as u64).wrapping_mul(0x94D0_49BB_1331_11EB);
    b ^ (b >> 31)
}

fn scramble(z: u64) -> (r: u64)
    ensures
        r == scrambled(z),
{
    let a: u64 = (z ^ (z >> 30)).wrapping_mul(0xBF58_476D_1CE4_E5B9);
    let b: u64 = (a ^ (a >> 27)).wrapping_mul(0x94D0_49BB_1331_11EB);
    b ^ (b >> 31)
}

/// The number in the unit interval that a draw stands for: its upper 53 bits, over 2 to the 53rd.
/// The first 26 of them are put over 2 to the 26th, the other 27 over the rest.
pub open spec fn unit_of<N: Number>(draw: u64) -> N {
    N::integer((draw >> 38) as int).quotient(N::integer(67108864)).sum(
        N::integer(((draw >> 11) & 0x7ff_ffff) as int).quotient(N::integer(134217728)).quotient(
            N::integer(67108864),
        ),
    )
}

impl SplitMix64 {
    /// The generator with a seed.
    pub fn new(seed: u64) -> (r: SplitMix64)
        ensures
            r.state == seed,
    {
        SplitMix64 { state: seed }
    }

    /// The next draw.
    pub fn next_u64(&mut self) -> (r: u64)
        ensures
            final(self).state == next_state(old(self).state),
            r == scrambled(next_state(old(self).state)),
    {
        self.state = self.state.wrapping_add(0x9E37_79B9_7F4A_7C15);
        scramble(self.state)
    }

    /// The next draw, as a number from 0 up to but without 1.
    pub fn next_f64<N: Number>(&mut self) -> (r: N)
        ensures
            final(self).state == next_state(old(self).state),
            r == unit_of::<N>(scrambled(next_state(old(self).state))),
    {
        let d: u64 = self.next_u64();
        assert((d >> 38) < 0x400_0000 && ((d >> 11) & 0x7ff_ffff) < 0x800_0000) by (bit_vector);
        let high = N::from_int((d >> 38) as i64).over(N::from_int(67108864));
        let low = N::from_int(((d >> 11) & 0x7ff_ffff) as i64).over(N::from_int(134217728)).over(
            N::from_int(67108864),
        );
        high.plus(low)
    }

    /// The next draw, as a number above 0 and up to 1.
    pub fn next_f64_open<N: Number>(&mut self) -> (r: N)
        ensures
            final(self).state == next_state(old(self).state),
            r == N::integer(1).difference(
                unit_of::<N>(scrambled(next_state(old(self).state))),
            ),
    {
        let u = self.next_f64::<N>();
        N::from_int(1).minus(u)
    }
}

/// The state of the generator after so many draws.
pub open spec fn state_after(seed: u64, n: nat) -> u64
    decreases n,
{
    if n == 0 {
        seed
    } else {
        next_state(state_after(seed, (n - 1) as nat))
    }
}

proof fn lemma_next_state(x: int)
    requires
        0 <= x,
    ensures
        next_state((x % 0x1_0000_0000_0000_0000int) as u64) as int == (x + 0x9E37_79B9_7F4A_7C15int)
            % 0x1_0000_0000_0000_0000int,
{
    let m = 0x1_0000_0000_0000_0000int;
    let step = 0x9E37_79B9_7F4A_7C15int;
    let s = x % m;
    vstd::arithmetic::div_mod::lemma_mod_bound(x, m);
    vstd::arithmetic::div_mod::lemma_add_mod_noop_right(step, x, m);
    assert((s + step) % m == (x + step) % m);
    if s + step < m {
        vstd::arithmetic::div_mod::lemma_small_mod((s + step) as nat, m as nat);
    } else {
        vstd::arithmetic::div_mod::lemma_mod_multiples_vanish(1, s + step - m, m);
        vstd::arithmetic::div_mod::lemma_small_mod((s + step - m) as nat, m as nat);
    }
}

/// The state after some draws is the seed and the step once for each of them, as far as 64 bits
/// hold it.
pub proof fn law_state_after_draws(seed: u64, n: nat)
    ensures
        state_after(seed, n) as int == (seed + n * 0x9E37_79B9_7F4A_7C15int)
            % 0x1_0000_0000_0000_0000int,
    decreases n,
{
    let step = 0x9E37_79B9_7F4A_7C15int;
    if n == 0 {
        vstd::arithmetic::div_mod::lemma_small_mod(seed as nat, 0x1_0000_0000_0000_0000nat);
    } else {
        law_state_after_draws(seed, (n - 1) as nat);
        assert(n * step == (n - 1) * step + step && (n - 1) * step >= 0) by (nonlinear_arith)
            requires
                n >= 1,
                step > 0,
        ;
        lemma_next_state(seed + (n - 1) * step);
    }
}

/// The generator runs through all its states before it comes back to one: after so many draws as
/// there are states it is where it began, and after fewer it is not.
pub proof fn law_states_do_not_recur(seed: u64, n: nat)
    requires
        n <= 0x1_0000_0000_0000_0000nat,
    ensures
        state_after(seed, n) == seed <==> n == 0 || n == 0x1_0000_0000_0000_0000nat,
{
    let m = 0x1_0000_0000_0000_0000int;
    let step = 0x9E37_79B9_7F4A_7C15int;
    let inverse = 0xF1DE_83E1_9937_733Dint;
    law_state_after_draws(seed, n);
    if n == m {
        vstd::arithmetic::div_mod::lemma_mod_multiples_vanish(step, seed as int, m);
        vstd::arithmetic::div_mod::lemma_small_mod(seed as nat, m as nat);
        assert(n * step == m * step);
    } else if n > 0 && state_after(seed, n) == seed {
        let x = n * step;
        vstd::arithmetic::div_mod::lemma_small_mod(seed as nat, m as nat);
        vstd::arithmetic::div_mod::lemma_mod_equivalence(seed + x, seed as int, m);
        assert(x % m == 0);
        vstd::arithmetic::div_mod::lemma_mul_mod_noop_left(x, inverse, m);
        assert(0 * inverse % m == 0);
        assert(x * inverse % m == 0);
        assert(x * inverse == m * (n * 10771413168148108919int) + n) by (nonlinear_arith)
            requires
                x == n * step,
                step * inverse == 1 + 10771413168148108919int * m,
        ;
        vstd::arithmetic::div_mod::lemma_mod_multiples_vanish(
            n * 10771413168148108919int,
            n as int,
            m,
        );
        vstd::arithmetic::div_mod::lemma_small_mod(n, m as nat);
    }
}

/// To draw some numbers and go on from the state that is left is to draw them all from the seed:
/// each draw is the first one of the generator whose seed is the state before it.
pub proof fn law_draws_go_on(seed: u64, n: nat, m: nat)
    ensures
        state_after(state_after(seed, n), m) == state_after(seed, n + m),
        state_after(seed, n + 1) == next_state(state_after(seed, n)),
    decreases m,
{
    if m > 0 {
        law_draws_go_on(seed, n, (m - 1) as nat);
        assert((n + m - 1) as nat == n + (m - 1) as nat);
    }
}

proof fn lemma_multiple_tells_apart(a: u64, b: u64, c: u64, inverse: int, rest: int)
    requires
        c * inverse == 1 + rest * 0x1_0000_0000_0000_0000int,
        a.wrapping_mul(c) == b.wrapping_mul(c),
    ensures
        a == b,
{
    let m = 0x1_0000_0000_0000_0000int;
    assert forall|x: u64| x as int == (#[trigger] x.wrapping_mul(c)) * inverse % m by {
        let p = x as int * c as int;
        vstd::arithmetic::div_mod::lemma_mul_mod_noop_left(p, inverse, m);
        assert(p * inverse == m * (x * rest) + x) by (nonlinear_arith)
            requires
                p == x as int * c as int,
                c * inverse == 1 + rest * m,
        ;
        vstd::arithmetic::div_mod::lemma_mod_multiples_vanish(x * rest, x as int, m);
    }
    assert(a as int == a.wrapping_mul(c) * inverse % m);
    assert(b as int == b.wrapping_mul(c) * inverse % m);
}

/// No two states are scrambled to the same draw.
pub proof fn law_scrambling_tells_apart(a: u64, b: u64)
    requires
        scrambled(a) == scrambled(b),
    ensures
        a == b,
{
    let (a1, b1) = (a ^ (a >> 30), b ^ (b >> 30));
    let (a2, b2) = (
        a1.wrapping_mul(0xBF58_476D_1CE4_E5B9),
        b1.wrapping_mul(0xBF58_476D_1CE4_E5B9),
    );
    let (a3, b3) = (a2 ^ (a2 >> 27), b2 ^ (b2 >> 27));
    let (a4, b4) = (
        a3.wrapping_mul(0x94D0_49BB_1331_11EB),
        b3.wrapping_mul(0x94D0_49BB_1331_11EB),
    );
    assert(a4 == b4) by (bit_vector)
        requires
            a4 ^ (a4 >> 31) == b4 ^ (b4 >> 31),
    ;
    lemma_multiple_tells_apart(
        a3,
        b3,
        0x94D0_49BB_1331_11EB,
        0x3196_42B2_D24D_8EC3int,
        2077064247507883091,
    );
    assert(a2 == b2) by (bit_vector)
        requires
            a2 ^ (a2 >> 27) == b2 ^ (b2 >> 27),
    ;
    lemma_multiple_tells_apart(
        a1,
        b1,
        0xBF58_476D_1CE4_E5B9,
        0x96DE_1B17_3F11_9089int,
        8125545580553827436,
    );
    assert(a == b) by (bit_vector)
        requires
            a ^ (a >> 30) == b ^ (b >> 30),
    ;
}

/// Two generators with different seeds never agree: their draws of the same number differ.
pub proof fn law_seeds_never_agree(a: u64, b: u64, n: nat)
    requires
        a != b,
    ensures
        state_after(a, n) != state_after(b, n),
        scrambled(state_after(a, n)) != scrambled(state_after(b, n)),
    decreases n,
{
    if n > 0 {
        law_seeds_never_agree(a, b, (n - 1) as nat);
    }
    if scrambled(state_after(a, n)) == scrambled(state_after(b, n)) {
        law_scrambling_tells_apart(state_after(a, n), state_after(b, n));
    }
}

/// The sum of two times, moved to the nearest `i64` where it lies outside.
pub open spec fn saturated(n: int) -> i64 {
    if n > i64::MAX {
        i64::MAX
    } else if n < i64::MIN {
        i64::MIN
    } else {
        n as i64
    }
}

pub(crate) fn saturating_sum(a: i64, b: i64) -> (r: i64)
    ensures
        r == saturated(a + b),
{
    let s: i128 = a as i128 + b as i128;
    if s > i64::MAX as i128 {
        i64::MAX
    } else if s < i64::MIN as i128 {
        i64::MIN
    } else {
        s as i64
    }
}

/// The larger of a time and 0.
pub open spec fn not_below_zero(n: i64) -> i64 {
    if n < 0 {
        0
    } else {
        n
    }
}

fn at_least_zero(n: i64) -> (r: i64)
    ensures
        r == not_below_zero(n),
{
    if n < 0 {
        0
    } else {
        n
    }
}

/// The jitter of the order with a number: between `-jitter` and `jitter`, and the same whenever it
/// is asked for.
pub open spec fn jitter_of(jitter: i64, seq: u64) -> int {
    if jitter <= 0 {
        0
    } else {
        scrambled(next_state(seq)) as int % (2 * jitter + 1) - jitter
    }
}

/// The delays of a run.
#[derive(Debug, Clone)]
pub struct LatencyModel {
    pub enabled: bool,
    pub order_latency_ns: i64,
    pub cancel_latency_ns: i64,
    pub market_data_latency_ns: i64,
    pub jitter_ns: i64,
    pub dist: LatencyDist,
    /// The delays to draw from, where they are drawn from a list.
    pub empirical: Vec<i64>,
    pub rng: SplitMix64,
}

/// What the delays of a run are.
#[verifier::ext_equal]
pub struct LatencyView {
    pub enabled: bool,
    pub order_latency_ns: i64,
    pub cancel_latency_ns: i64,
    pub market_data_latency_ns: i64,
    pub jitter_ns: i64,
    pub dist: LatencyDist,
    pub empirical: Seq<i64>,
    pub rng: SplitMix64,
}

impl View for LatencyModel {
    type V = LatencyView;

    open spec fn view(&self) -> LatencyView {
        LatencyView {
            enabled: self.enabled,
            order_latency_ns: self.order_latency_ns,
            cancel_latency_ns: self.cancel_latency_ns,
            market_data_latency_ns: self.market_data_latency_ns,
            jitter_ns: self.jitter_ns,
            dist: self.dist,
            empirical: self.empirical@,
            rng: self.rng,
        }
    }
}

impl LatencyView {
    /// The delay of an order with a fixed delay and a jitter.
    pub open spec fn fixed_delay(self, seq: u64) -> i64 {
        not_below_zero(saturated(self.order_latency_ns + jitter_of(self.jitter_ns, seq)))
    }

    /// The delay of the order with a number, before the lag of the market data.
    pub open spec fn order_delay<N: Analytic>(self, seq: u64) -> i64 {
        let s1 = next_state(self.rng.state);
        let s2 = next_state(s1);
        match self.dist {
            LatencyDist::Fixed => self.fixed_delay(seq),
            LatencyDist::Uniform { min_ns, max_ns } => {
                let lo = if min_ns < max_ns {
                    min_ns
                } else {
                    max_ns
                };
                let hi = if min_ns < max_ns {
                    max_ns
                } else {
                    min_ns
                };
                if lo == hi {
                    not_below_zero(lo)
                } else {
                    N::integer(lo as int).sum(
                        unit_of::<N>(scrambled(s1)).product(
                            N::integer(hi.wrapping_sub(lo) as int),
                        ),
                    ).nearest().greater(N::integer(0)).truncated()
                }
            },
            LatencyDist::Normal { mean_ns, std_ns } => {
                let u1 = N::integer(1).difference(unit_of::<N>(scrambled(s1)));
                let u2 = unit_of::<N>(scrambled(s2));
                let z = N::integer(-2).product(u1.logarithm()).root().product(
                    N::full_turn().product(u2).cosine(),
                );
                N::integer(mean_ns as int).sum(
                    z.product(N::integer(std_ns as int)),
                ).nearest().greater(N::integer(0)).truncated()
            },
            LatencyDist::Exponential { mean_ns } => {
                let u = N::integer(1).difference(unit_of::<N>(scrambled(s1)));
                N::integer(mean_ns as int).negated().product(u.logarithm()).nearest().greater(
                    N::integer(0),
                ).truncated()
            },
            LatencyDist::Empirical { path } => if self.empirical.len() == 0 {
                self.fixed_delay(seq)
            } else {
                not_below_zero(
                    self.empirical[scrambled(s1) as int % self.empirical.len() as int],
                )
            },
        }
    }

    /// How many draws the delay of one order takes.
    pub open spec fn draws(self) -> nat {
        match self.dist {
            LatencyDist::Fixed => 0,
            LatencyDist::Uniform { min_ns, max_ns } => if min_ns == max_ns {
                0
            } else {
                1
            },
            LatencyDist::Normal { mean_ns, std_ns } => 2,
            LatencyDist::Exponential { mean_ns } => 1,
            LatencyDist::Empirical { path } => if self.empirical.len() == 0 {
                0
            } else {
                1
            },
        }
    }

    /// The model once the delay of one order was found.
    pub open spec fn drawn(self) -> LatencyView {
        LatencyView {
            rng: SplitMix64 { state: state_after(self.rng.state, self.draws()) },
            ..self
        }
    }

    /// When an order that is placed at a time can match.
    pub open spec fn activation<N: Analytic>(self, placed_ts: i64, seq: u64) -> i64 {
        if self.enabled {
            saturated(
                placed_ts + not_below_zero(
                    saturated(self.order_delay::<N>(seq) + self.market_data_latency_ns),
                ),
            )
        } else {
            placed_ts
        }
    }

    /// When a cancel that is asked for at a time takes effect.
    pub open spec fn cancel_time(self, placed_ts: i64) -> i64 {
        if self.enabled {
            saturated(placed_ts + not_below_zero(self.cancel_latency_ns))
        } else {
            placed_ts
        }
    }

    /// The delays that some settings stand for. `samples` are the delays that the file of an
    /// empirical distribution lists; without any, the delay is fixed.
    pub open spec fn of_config(cfg: LatencyConfig, samples: Seq<i64>) -> LatencyView {
        let fixed = !cfg.enabled || cfg.dist is Empirical && samples.len() == 0;
        LatencyView {
            enabled: cfg.enabled,
            order_latency_ns: if cfg.enabled {
                not_below_zero(cfg.order_latency_ns)
            } else {
                0
            },
            cancel_latency_ns: if cfg.enabled {
                not_below_zero(cfg.cancel_latency_ns)
            } else {
                0
            },
            market_data_latency_ns: if cfg.enabled {
                not_below_zero(cfg.market_data_latency_ns)
            } else {
                0
            },
            jitter_ns: if cfg.enabled {
                not_below_zero(cfg.jitter_ns)
            } else {
                0
            },
            dist: if fixed {
                LatencyDist::Fixed
            } else {
                cfg.dist
            },
            empirical: if !fixed && cfg.dist is Empirical {
                samples
            } else {
                Seq::empty()
            },
            rng: SplitMix64 { state: cfg.seed },
        }
    }
}

impl LatencyModel {
    /// The delays that some settings stand for.
    pub fn from_config(cfg: &LatencyConfig, samples: Vec<i64>) -> (r: LatencyModel)
        ensures
            r@ == LatencyView::of_config(*cfg, samples@),
    {
        if !cfg.enabled {
            return LatencyModel {
                enabled: false,
                order_latency_ns: 0,
                cancel_latency_ns: 0,
                market_data_latency_ns: 0,
                jitter_ns: 0,
                dist: LatencyDist::Fixed,
                empirical: Vec::new(),
                rng: SplitMix64::new(cfg.seed),
            };
        }
        let is_empirical: bool = match &cfg.dist {
            LatencyDist::Empirical { path: _ } => true,
            _ => false,
        };
        let (dist, empirical) = if is_empirical {
            if samples.len() > 0 {
                (cfg.dist.copy(), samples)
            } else {
                (LatencyDist::Fixed, Vec::new())
            }
        } else {
            (cfg.dist.copy(), Vec::new())
        };
        LatencyModel {
            enabled: true,
            order_latency_ns: at_least_zero(cfg.order_latency_ns),
            cancel_latency_ns: at_least_zero(cfg.cancel_latency_ns),
            market_data_latency_ns: at_least_zero(cfg.market_data_latency_ns),
            jitter_ns: at_least_zero(cfg.jitter_ns),
            dist,
            empirical,
            rng: SplitMix64::new(cfg.seed),
        }
    }

    /// Whether there are any delays.
    pub fn is_active(&self) -> (r: bool)
        ensures
            r == self.enabled,
    {
        self.enabled
    }

    /// The jitter of the order with a number.
    pub fn jitter_for(&self, seq: u64) -> (r: i64)
        ensures
            r == jitter_of(self.jitter_ns, seq),
            self.jitter_ns > 0 ==> -self.jitter_ns <= r <= self.jitter_ns,
            self.jitter_ns <= 0 ==> r == 0,
    {
        if self.jitter_ns <= 0 {
            return 0;
        }
        let z: u64 = scramble(seq.wrapping_add(0x9E37_79B9_7F4A_7C15));
        let span: u64 = self.jitter_ns as u64 * 2 + 1;
        let r: i128 = (z % span) as i128 - self.jitter_ns as i128;
        r as i64
    }

    fn sample_order_latency_ns<N: Analytic>(&mut self, seq: u64) -> (r: i64)
        ensures
            r == old(self)@.order_delay::<N>(seq),
            final(self)@ == old(self)@.drawn(),
    {
        proof {
            reveal_with_fuel(state_after, 3);
        }
        let fixed: i64 = at_least_zero(
            saturating_sum(self.order_latency_ns, self.jitter_for(seq)),
        );
        match &self.dist {
            LatencyDist::Fixed => fixed,
            LatencyDist::Uniform { min_ns, max_ns } => {
                let lo: i64 = if *min_ns < *max_ns {
                    *min_ns
                } else {
                    *max_ns
                };
                let hi: i64 = if *min_ns < *max_ns {
                    *max_ns
                } else {
                    *min_ns
                };
                if lo == hi {
                    return at_least_zero(lo);
                }
                let u = self.rng.next_f64::<N>();
                let span = N::from_int(hi.wrapping_sub(lo));
                N::from_int(lo).plus(u.times(span)).round().max(N::from_int(0)).to_int()
            },
            LatencyDist::Normal { mean_ns, std_ns } => {
                let mean: i64 = *mean_ns;
                let std: i64 = *std_ns;
                let u1 = self.rng.next_f64_open::<N>();
                let u2 = self.rng.next_f64::<N>();
                let z = N::from_int(-2).times(u1.ln()).sqrt().times(N::tau().times(u2).cos());
                N::from_int(mean).plus(z.times(N::from_int(std))).round().max(
                    N::from_int(0),
                ).to_int()
            },
            LatencyDist::Exponential { mean_ns } => {
                let mean: i64 = *mean_ns;
                let u = self.rng.next_f64_open::<N>();
                N::from_int(mean).neg().times(u.ln()).round().max(N::from_int(0)).to_int()
            },
            LatencyDist::Empirical { path: _ } => {
                if self.empirical.len() == 0 {
                    return fixed;
                }
                let d: u64 = self.rng.next_u64();
                let i: u64 = d % (self.empirical.len() as u64);
                at_least_zero(self.empirical[i as usize])
            },
        }
    }

    /// When an order that is placed at a time can match: never before it is placed.
    pub fn order_activation_ts<N: Analytic>(&mut self, placed_ts: i64, seq: u64) -> (r: i64)
        ensures
            r == old(self)@.activation::<N>(placed_ts, seq),
            final(self)@ == if old(self).enabled {
                old(self)@.drawn()
            } else {
                old(self)@
            },
            r >= placed_ts,
    {
        if !self.enabled {
            return placed_ts;
        }
        let order_lat: i64 = self.sample_order_latency_ns::<N>(seq);
        let delay: i64 = at_least_zero(saturating_sum(order_lat, self.market_data_latency_ns));
        saturating_sum(placed_ts, delay)
    }

    /// When a cancel that is asked for at a time takes effect: never before it is asked for.
    pub fn cancel_effective_ts(&self, placed_ts: i64) -> (r: i64)
        ensures
            r == self@.cancel_time(placed_ts),
            r >= placed_ts,
    {
        if !self.enabled {
            return placed_ts;
        }
        saturating_sum(placed_ts, at_least_zero(self.cancel_latency_ns))
    }
}

/// No order can match before it is placed, and none is delayed where delays are off.
pub proof fn law_activation_never_precedes_placement<N: Analytic>(
    m: LatencyView,
    placed_ts: i64,
    seq: u64,
)
    ensures
        m.activation::<N>(placed_ts, seq) >= placed_ts,
        !m.enabled ==> m.activation::<N>(placed_ts, seq) == placed_ts,
{
}

/// A fixed delay strays from its middle by no more than the jitter, and does not depend on the
/// seed.
pub proof fn law_fixed_delay_is_bounded<N: Analytic>(
    a: LatencyView,
    b: LatencyView,
    placed_ts: i64,
    seq: u64,
)
    requires
        a.dist == LatencyDist::Fixed,
        a.enabled,
        a.jitter_ns >= 0,
        a.order_latency_ns >= a.jitter_ns,
        a.market_data_latency_ns >= 0,
        placed_ts + a.order_latency_ns + a.jitter_ns + a.market_data_latency_ns <= i64::MAX,
        a.order_latency_ns + a.jitter_ns + a.market_data_latency_ns <= i64::MAX,
        b == (LatencyView { rng: b.rng, ..a }),
    ensures
        placed_ts + a.order_latency_ns + a.market_data_latency_ns - a.jitter_ns <= a.activation::<N>(
            placed_ts,
            seq,
        ) <= placed_ts + a.order_latency_ns + a.market_data_latency_ns + a.jitter_ns,
        b.activation::<N>(placed_ts, seq) == a.activation::<N>(placed_ts, seq),
        a.drawn().rng == a.rng,
{
    if a.jitter_ns > 0 {
        let span = 2 * a.jitter_ns + 1;
        let z = scrambled(next_state(seq)) as int;
        assert(0 <= z % span < span) by (nonlinear_arith)
            requires
                span > 0,
        ;
    }
}

proof fn lemma_part_of_one(a: int, d: int)
    requires
        0 <= a < d <= 134217728,
    ensures
        0 <= Fixed::integer(a).quotient(Fixed::integer(d)).units < 1_000_000,
{
    let num = a * 1_000_000 * 1_000_000;
    let den = d * 1_000_000;
    assert(Fixed::integer(a).units == a * 1_000_000);
    assert(Fixed::integer(d).units == den);
    vstd::arithmetic::div_mod::lemma_fundamental_div_mod(num, den);
    vstd::arithmetic::div_mod::lemma_div_pos_is_pos(num, den);
    let q = num / den;
    assert(q < 1_000_000) by (nonlinear_arith)
        requires
            den * q <= num,
            num < den * 1_000_000,
            den > 0,
    ;
    assert(size(num) == num && size(den) == den);
    assert(cut_quotient(num, den) == q);
}

/// With numbers of six decimals, what a draw stands for lies from 0 up to but without 1.
pub proof fn law_unit_is_in_range(draw: u64)
    ensures
        0 <= unit_of::<Fixed>(draw).units < 1_000_000,
{
    assert((draw >> 38) < 0x400_0000 && ((draw >> 11) & 0x7ff_ffff) < 0x800_0000) by (bit_vector);
    lemma_part_of_one((draw >> 38) as int, 67108864);
    let low = ((draw >> 11) & 0x7ff_ffff) as int;
    lemma_part_of_one(low, 134217728);
    let part = Fixed::integer(low).quotient(Fixed::integer(134217728));
    let (a, b) = (part.units * 1_000_000int, 67108864 * 1_000_000int);
    vstd::arithmetic::div_mod::lemma_basic_div(a, b);
    assert(size(a) == a && size(b) == b);
    assert(cut_quotient(a, b) == 0);
    assert(Fixed::integer(67108864).units == b);
    assert(part.quotient(Fixed::integer(67108864)).units == 0);
}

proof fn lemma_cut_product(x: int, y: int)
    requires
        0 <= x < 1_000_000,
        0 <= y,
    ensures
        0 <= cut_quotient(x * y, 1_000_000) <= y,
{
    assert(0 <= x * y <= y * 1_000_000) by (nonlinear_arith)
        requires
            0 <= x < 1_000_000,
            0 <= y,
    ;
    let p = x * y;
    assert(cut_quotient(p, 1_000_000) == p / 1_000_000);
}

proof fn lemma_nearest_between(x: Fixed, lo: int, hi: int)
    requires
        lo * 1_000_000 <= x.units <= hi * 1_000_000,
        Fixed::integer(lo).finite(),
        Fixed::integer(hi).finite(),
    ensures
        lo * 1_000_000 <= x.nearest().units <= hi * 1_000_000,
{
    let m = size(x.units as int);
    let near = (m + 500_000) / 1_000_000;
    if x.units < 0 {
        assert(near <= -lo);
        assert(hi >= 0 || near >= -hi);
    } else {
        assert(near <= hi);
        assert(lo <= 0 || near >= lo);
    }
}

proof fn lemma_spread_between(u: Fixed, lo: i64, hi: i64)
    requires
        0 <= u.units < 1_000_000,
        lo < hi,
        Fixed::integer(lo as int).finite(),
        Fixed::integer(hi as int).finite(),
        Fixed::integer(hi - lo).finite(),
    ensures
        not_below_zero(lo) <= Fixed::integer(lo as int).sum(
            u.product(Fixed::integer(hi.wrapping_sub(lo) as int)),
        ).nearest().greater(Fixed::integer(0)).truncated() <= not_below_zero(hi),
{
    let span = Fixed::integer(hi.wrapping_sub(lo) as int);
    assert(span.units == (hi - lo) * 1_000_000);
    lemma_cut_product(u.units as int, span.units as int);
    let part = u.product(span);
    assert(0 <= part.units <= span.units);
    let at = Fixed::integer(lo as int).sum(part);
    assert(lo * 1_000_000 <= at.units <= hi * 1_000_000);
    lemma_nearest_between(at, lo as int, hi as int);
    let last = at.nearest().greater(Fixed::integer(0));
    assert(last.truncated() == last.units / 1_000_000);
}

/// A delay that is spread evenly lies between its bounds, whichever of them is the larger, and is
/// never below 0. The bounds and their distance must be such that numbers of six decimals hold
/// them.
pub proof fn law_uniform_delay_is_bounded(m: LatencyView, min_ns: i64, max_ns: i64, seq: u64)
    requires
        m.dist == (LatencyDist::Uniform { min_ns, max_ns }),
        Fixed::integer(min_ns as int).finite(),
        Fixed::integer(max_ns as int).finite(),
        Fixed::integer(max_ns - min_ns).finite(),
    ensures
        m.order_delay::<Fixed>(seq) >= 0,
        min_ns <= max_ns ==> not_below_zero(min_ns) <= m.order_delay::<Fixed>(seq)
            <= not_below_zero(max_ns),
        max_ns <= min_ns ==> not_below_zero(max_ns) <= m.order_delay::<Fixed>(seq)
            <= not_below_zero(min_ns),
{
    let lo = if min_ns < max_ns {
        min_ns
    } else {
        max_ns
    };
    let hi = if min_ns < max_ns {
        max_ns
    } else {
        min_ns
    };
    if lo != hi {
        let draw = scrambled(next_state(m.rng.state));
        law_unit_is_in_range(draw);
        lemma_spread_between(unit_of::<Fixed>(draw), lo, hi);
    }
}

/// Whatever its distribution, the delay of an order is not below 0.
pub proof fn law_delay_is_not_below_zero(m: LatencyView, seq: u64)
    ensures
        m.order_delay::<Fixed>(seq) >= 0,
{
    assert(Fixed::integer(0).units == 0);
    assert forall|x: Fixed| #[trigger] x.greater(Fixed::integer(0)).truncated() >= 0 by {
        let y = x.greater(Fixed::integer(0));
        assert(y.units >= 0);
        assert(cut_quotient(y.units as int, 1_000_000) == y.units / 1_000_000);
    }
}

// ---- measured delays ------------------------------------------------------------------------

/// The characters between the numbers of a list of delays.
pub open spec fn is_separator(c: char) -> bool {
    c == ',' || is_space(c)
}

/// The pieces of a text between separators, empty ones left out, and the piece that has begun.
pub open spec fn pieces(s: Seq<char>) -> (Seq<Seq<char>>, Seq<char>)
    decreases s.len(),
{
    if s.len() == 0 {
        (Seq::empty(), Seq::empty())
    } else {
        let (done, begun) = pieces(s.drop_last());
        if !is_separator(s.last()) {
            (done, begun.push(s.last()))
        } else if begun.len() == 0 {
            (done, begun)
        } else {
            (done.push(begun), Seq::empty())
        }
    }
}

/// The delay that a piece writes: an integer, or a finite number cut off to whole.
pub open spec fn sample_of<N: Number>(piece: Seq<char>) -> Option<i64> {
    match int_within(piece, i64::MIN as int, i64::MAX as int) {
        Some(n) => Some(n as i64),
        None => match N::written(piece) {
            Some(x) => if x.finite() {
                Some(x.truncated())
            } else {
                None
            },
            None => None,
        },
    }
}

/// The delays that some pieces write; a piece that writes none is passed over.
pub open spec fn samples_of<N: Number>(parts: Seq<Seq<char>>) -> Seq<i64>
    decreases parts.len(),
{
    if parts.len() == 0 {
        Seq::empty()
    } else {
        let rest = samples_of::<N>(parts.drop_last());
        match sample_of::<N>(parts.last()) {
            Some(n) => rest.push(n),
            None => rest,
        }
    }
}

/// All pieces of a line. An empty line, and one that begins with `#`, has none.
pub open spec fn line_pieces(line: Seq<char>) -> Seq<Seq<char>> {
    let t = trimmed(line);
    if t.len() == 0 || t[0] == '#' {
        Seq::empty()
    } else {
        let (done, begun) = pieces(t);
        if begun.len() == 0 {
            done
        } else {
            done.push(begun)
        }
    }
}

/// The delays that some lines list.
pub open spec fn listed<N: Number>(lines: Seq<Seq<char>>) -> Seq<i64>
    decreases lines.len(),
{
    if lines.len() == 0 {
        Seq::empty()
    } else {
        listed::<N>(lines.drop_last()) + samples_of::<N>(line_pieces(lines.last()))
    }
}

fn read_pieces(line: &str) -> (r: Vec<String>)
    ensures
        texts(r@) == line_pieces(line@),
{
    let t = trim(line);
    let v = chars_of(t.as_str());
    let mut out: Vec<String> = Vec::new();
    if v.len() == 0 || v[0] == '#' {
        assert(texts(out@) =~= line_pieces(line@));
        return out;
    }
    let mut begun = String::new();
    let mut i: usize = 0;
    proof {
        assert(v@.take(0) =~= Seq::<char>::empty());
        assert(texts(out@) =~= Seq::<Seq<char>>::empty());
        assert(begun@ =~= Seq::<char>::empty());
    }
    while i < v.len()
        invariant
            i <= v@.len(),
            pieces(v@.take(i as int)) == (texts(out@), begun@),
        decreases v@.len() - i,
    {
        let c: char = v[i];
        proof {
            assert(v@.take(i + 1).drop_last() =~= v@.take(i as int));
            assert(v@.take(i + 1).last() == c);
        }
        if !(c == ',' || is_whitespace(c)) {
            begun.push(c);
        } else if !begun.as_str().is_empty() {
            let ghost before = out@;
            let ghost piece = begun@;
            out.push(begun);
            begun = String::new();
            assert(texts(out@) =~= texts(before).push(piece));
        }
        i += 1;
    }
    assert(v@.take(v@.len() as int) =~= v@);
    if !begun.as_str().is_empty() {
        let ghost before = out@;
        let ghost piece = begun@;
        out.push(begun);
        assert(texts(out@) =~= texts(before).push(piece));
    }
    out
}

/// Reads a list of measured delays: integers or numbers with commas or white space between them.
/// Lines that begin with `#` are comments.
pub fn parse_samples<N: Number>(text: &str) -> (r: Vec<i64>)
    ensures
        r@ == listed::<N>(split_at_char(text@, '\n')),
{
    let lines = split(text, '\n');
    let ghost all = texts(lines@);
    let mut out: Vec<i64> = Vec::new();
    let mut i: usize = 0;
    while i < lines.len()
        invariant
            i <= lines@.len(),
            all == texts(lines@),
            out@ == listed::<N>(all.take(i as int)),
        decreases lines@.len() - i,
    {
        proof {
            assert(all.take(i + 1).drop_last() =~= all.take(i as int));
            assert(all.take(i + 1).last() == lines@[i as int]@);
        }
        let parts = read_pieces(lines[i].as_str());
        let ghost ps = texts(parts@);
        let ghost before = out@;
        let mut j: usize = 0;
        assert(samples_of::<N>(ps.take(0)) =~= Seq::<i64>::empty());
        assert(out@ =~= before + samples_of::<N>(ps.take(0)));
        while j < parts.len()
            invariant
                j <= parts@.len(),
                ps == texts(parts@),
                out@ == before + samples_of::<N>(ps.take(j as int)),
            decreases parts@.len() - j,
        {
            proof {
                assert(ps.take(j + 1).drop_last() =~= ps.take(j as int));
                assert(ps.take(j + 1).last() == parts@[j as int]@);
            }
            let ghost was = out@;
            match parse_i64(parts[j].as_str()) {
                Some(n) => {
                    out.push(n);
                },
                None => match N::parse(parts[j].as_str()) {
                    Some(x) => {
                        if x.is_finite() {
                            out.push(x.to_int());
                        }
                    },
                    None => {},
                },
            }
            proof {
                match sample_of::<N>(ps[j as int]) {
                    Some(n) => {
                        assert(out@ =~= was.push(n));
                        assert(was.push(n) =~= before + samples_of::<N>(ps.take(j as int)).push(n));
                    },
                    None => {},
                }
            }
            j += 1;
        }
        assert(ps.take(ps.len() as int) =~= ps);
        i += 1;
    }
    assert(all.take(all.len() as int) =~= all);
    out
}

/// A delay that is drawn from a list of measured ones is one of them, where none of them is below 0.
pub proof fn law_measured_delays_are_drawn<N: Analytic>(m: LatencyView, seq: u64)
    requires
        m.dist is Empirical,
        m.empirical.len() > 0,
        forall|i: int| 0 <= i < m.empirical.len() ==> (#[trigger] m.empirical[i]) >= 0,
    ensures
        m.empirical.contains(m.order_delay::<N>(seq)),
        m.drawn().rng.state != m.rng.state,
{
    let n = m.empirical.len() as int;
    let z = scrambled(next_state(m.rng.state)) as int;
    assert(0 <= z % n < n) by (nonlinear_arith)
        requires
            n > 0,
    ;
    assert(m.empirical[z % n] >= 0);
    reveal_with_fuel(state_after, 2);
    law_states_do_not_recur(m.rng.state, 1);
}

proof fn lemma_one_piece(s: Seq<char>)
    requires
        forall|i: int| 0 <= i < s.len() ==> !is_separator(#[trigger] s[i]),
    ensures
        pieces(s) == (Seq::<Seq<char>>::empty(), s),
    decreases s.len(),
{
    if s.len() > 0 {
        let rest = s.drop_last();
        assert forall|i: int| 0 <= i < rest.len() implies !is_separator(#[trigger] rest[i]) by {
            assert(rest[i] == s[i]);
        }
        lemma_one_piece(rest);
        assert(!is_separator(s[s.len() - 1]));
        assert(rest.push(s.last()) =~= s);
    } else {
        assert(s =~= Seq::empty());
    }
}

/// A line with one number lists that delay, behind those of the lines before. An empty line and a
/// remark list none.
pub proof fn law_lines_list_delays<N: Number>(lines: Seq<Seq<char>>, line: Seq<char>, ns: i64)
    ensures
        trimmed(line) == line && line.len() > 0 && line[0] != '#' && (forall|i: int|
            0 <= i < line.len() ==> !is_separator(#[trigger] line[i])) && sample_of::<N>(line)
            == Some(ns) ==> listed::<N>(lines.push(line)) == listed::<N>(lines).push(ns),
        trimmed(line).len() == 0 || trimmed(line)[0] == '#' ==> listed::<N>(lines.push(line))
            == listed::<N>(lines),
        int_value(line) == Some(ns as int) ==> sample_of::<N>(line) == Some(ns),
{
    assert(lines.push(line).drop_last() =~= lines);
    let before = listed::<N>(lines);
    if trimmed(line) == line && line.len() > 0 && line[0] != '#' && (forall|i: int|
        0 <= i < line.len() ==> !is_separator(#[trigger] line[i])) && sample_of::<N>(line) == Some(
        ns,
    ) {
        lemma_one_piece(line);
        let parts = Seq::<Seq<char>>::empty().push(line);
        assert(line_pieces(line) == parts);
        assert(parts.drop_last() =~= Seq::<Seq<char>>::empty());
        assert(samples_of::<N>(parts.drop_last()) =~= Seq::<i64>::empty());
        assert(samples_of::<N>(parts) =~= seq![ns]);
        assert(before + seq![ns] =~= before.push(ns));
    }
    if trimmed(line).len() == 0 || trimmed(line)[0] == '#' {
        assert(samples_of::<N>(line_pieces(line)) =~= Seq::<i64>::empty());
        assert(before + Seq::<i64>::empty() =~= before);
    }
}

proof fn lemma_nearest_time(x: Fixed)
    requires
        0 <= x.units <= 9_000_000_000_000_000_000,
    ensures
        ({
            let t = x.nearest().greater(Fixed::integer(0)).truncated();
            -500_000 <= t * 1_000_000 - x.units <= 500_000
        }),
{
    let k = (x.units + 500_000) / 1_000_000;
    assert(Fixed::integer(0).units == 0);
    assert(x.nearest().units == k * 1_000_000);
    lemma_cut_multiple(k, 1_000_000);
}

/// A uniform delay lies as far between its ends as the draw lies between 0 and one, to the nearest
/// nanosecond.
pub proof fn law_uniform_delays_follow_the_draw(
    m: LatencyView,
    min_ns: i64,
    max_ns: i64,
    seq: u64,
)
    requires
        m.dist == (LatencyDist::Uniform { min_ns, max_ns }),
        0 <= min_ns < max_ns <= 4_000_000_000_000,
    ensures
        ({
            let u = unit_of::<Fixed>(scrambled(next_state(m.rng.state))).units;
            let exact = min_ns * 1_000_000 + u * (max_ns - min_ns);
            -500_000 <= m.order_delay::<Fixed>(seq) * 1_000_000 - exact <= 500_000
        }),
{
    let draw = scrambled(next_state(m.rng.state));
    let u = unit_of::<Fixed>(draw);
    law_unit_is_in_range(draw);
    let d = max_ns - min_ns;
    assert(max_ns.wrapping_sub(min_ns) == d);
    let lo = Fixed::integer(min_ns as int);
    let span = Fixed::integer(d);
    assert(lo.units == min_ns * 1_000_000);
    assert(span.units == d * 1_000_000);
    let v = u.units as int;
    assert(0 <= d * v <= d * 1_000_000) by (nonlinear_arith)
        requires
            0 <= v <= 1_000_000,
            0 <= d,
    ;
    assert(v * d == d * v) by (nonlinear_arith);
    law_whole_products_are_exact(span, u, d);
    let x = lo.sum(u.product(span));
    assert(x.units == min_ns * 1_000_000 + d * v);
    lemma_nearest_time(x);
}

/// An exponential delay is its mean times how far the logarithm of the draw, taken from one, lies
/// below 0, to the nearest nanosecond.
pub proof fn law_exponential_delays_follow_the_draw(m: LatencyView, mean_ns: i64, seq: u64)
    requires
        m.dist == (LatencyDist::Exponential { mean_ns }),
        0 <= mean_ns <= 9_000_000_000_000,
        ({
            let u = Fixed::integer(1).difference(
                unit_of::<Fixed>(scrambled(next_state(m.rng.state))),
            );
            -9_000_000_000_000_000_000 <= mean_ns * u.logarithm().units <= 0
        }),
    ensures
        ({
            let u = Fixed::integer(1).difference(
                unit_of::<Fixed>(scrambled(next_state(m.rng.state))),
            );
            let exact = mean_ns * u.logarithm().units;
            -500_000 <= m.order_delay::<Fixed>(seq) * 1_000_000 + exact <= 500_000
        }),
{
    let u = Fixed::integer(1).difference(unit_of::<Fixed>(scrambled(next_state(m.rng.state))));
    let l = u.logarithm();
    let a = Fixed::integer(mean_ns as int);
    assert(a.units == mean_ns * 1_000_000);
    let k = -(mean_ns as int);
    assert(a.negated().units == k * 1_000_000);
    assert(k * l.units == -(mean_ns * l.units)) by (nonlinear_arith)
        requires
            k == -(mean_ns as int),
    ;
    law_whole_products_are_exact(a.negated(), l, k);
    lemma_nearest_time(a.negated().product(l));
}

/// A normal delay is its mean and its deviation times a number that two draws decide, to the nearest
/// nanosecond, and not below 0.
pub proof fn law_normal_delays_follow_the_draws(
    m: LatencyView,
    mean_ns: i64,
    std_ns: i64,
    seq: u64,
    z: Fixed,
)
    requires
        m.dist == (LatencyDist::Normal { mean_ns, std_ns }),
        0 <= mean_ns <= 4_000_000_000_000,
        0 <= std_ns <= 4_000_000_000_000,
        ({
            let s1 = next_state(m.rng.state);
            let s2 = next_state(s1);
            let u1 = Fixed::integer(1).difference(unit_of::<Fixed>(scrambled(s1)));
            let u2 = unit_of::<Fixed>(scrambled(s2));
            z == Fixed::integer(-2).product(u1.logarithm()).root().product(
                Fixed::full_turn().product(u2).cosine(),
            )
        }),
        -4_000_000_000_000_000_000 <= std_ns * z.units <= 4_000_000_000_000_000_000,
    ensures
        ({
            let exact = mean_ns * 1_000_000 + std_ns * z.units;
            let delay = m.order_delay::<Fixed>(seq) * 1_000_000;
            &&& exact >= 0 ==> -500_000 <= delay - exact <= 500_000
            &&& exact <= 0 ==> delay == 0
        }),
{
    let a = Fixed::integer(mean_ns as int);
    let s = Fixed::integer(std_ns as int);
    assert(a.units == mean_ns * 1_000_000);
    assert(s.units == std_ns * 1_000_000);
    law_whole_products_are_exact(s, z, std_ns as int);
    let x = a.sum(z.product(s));
    assert(x.units == mean_ns * 1_000_000 + std_ns * z.units);
    if x.units >= 0 {
        lemma_nearest_time(x);
    } else {
        assert(Fixed::integer(0).units == 0);
        assert(x.nearest().units <= 0);
        assert(x.nearest().greater(Fixed::integer(0)) == Fixed::integer(0)
            || x.nearest().units == 0);
        lemma_cut_multiple(0, 1_000_000);
    }
}

} // verus!
