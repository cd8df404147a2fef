//! Trading fees.
//!
//! The exchange charges a taker 7% of `C * p * (1 - p)`, rounded up to the cent, for `C` contracts
//! at the price `p`: most at one half, nothing at the ends. A maker pays nothing.
use crate::config::BacktestConfig;
use crate::fixed::{
    cut_quotient, law_whole_products_are_exact, lemma_cut, lemma_cut_multiple, Fixed, LARGEST,
};
use crate::number::{clamp, clamped, fraction_of, ratio, Number};
use vstd::prelude::*;

verus! {

/// The fees of a run.
#[derive(Debug, Clone, Copy, PartialEq)]
pub struct FeeModel<N> {
    pub use_formula: bool,
    pub maker_fee_per_contract: N,
    pub taker_fee_rate: N,
}

/// An amount of money, rounded up to the cent. Less than a billionth of a cent is noise.
pub open spec fn up_to_cent<N: Number>(amount: N) -> N {
    amount.product(N::integer(100)).difference(
        fraction_of::<N>(1, 1_000_000_000),
    ).rounded_up().quotient(N::integer(100))
}

fn round_up_to_cent<N: Number>(amount: N) -> (r: N)
    ensures
        r == up_to_cent(amount),
{
    amount.times(N::from_int(100)).minus(ratio::<N>(1, 1_000_000_000)).ceil().over(
        N::from_int(100),
    )
}

/// The fee of the exchange.
pub open spec fn exchange_fee<N: Number>(price: N, qty: N) -> N {
    let p = clamped(price, N::integer(0), N::integer(1));
    up_to_cent(
        fraction_of::<N>(7, 100).product(qty).product(p).product(N::integer(1).difference(p)),
    )
}

impl<N: Number> FeeModel<N> {
    /// The fees that some settings stand for.
    pub open spec fn of_config(cfg: BacktestConfig<N>) -> FeeModel<N> {
        FeeModel {
            use_formula: cfg.fee_bps_formula,
            maker_fee_per_contract: cfg.maker_fee,
            taker_fee_rate: cfg.taker_fee_rate,
        }
    }

    /// What a taker pays.
    pub open spec fn taker(self, price: N, qty: N) -> N {
        if self.use_formula {
            exchange_fee(price, qty)
        } else {
            up_to_cent(
                clamped(price, N::integer(0), N::integer(1)).product(qty).product(
                    self.taker_fee_rate,
                ),
            )
        }
    }

    /// What a maker pays.
    pub open spec fn maker(self, qty: N) -> N {
        if self.use_formula {
            N::integer(0)
        } else {
            self.maker_fee_per_contract.product(qty)
        }
    }

    /// The fees that some settings stand for.
    pub fn from_config(cfg: &BacktestConfig<N>) -> (r: FeeModel<N>)
        ensures
            r == FeeModel::of_config(*cfg),
    {
        FeeModel {
            use_formula: cfg.fee_bps_formula,
            maker_fee_per_contract: cfg.maker_fee,
            taker_fee_rate: cfg.taker_fee_rate,
        }
    }

    /// The fee of the exchange for contracts at a price in dollars.
    pub fn kalshi_formula(price_dollars: N, qty: N) -> (r: N)
        ensures
            r == exchange_fee(price_dollars, qty),
    {
        let p = clamp(price_dollars, N::from_int(0), N::from_int(1));
        round_up_to_cent(
            ratio::<N>(7, 100).times(qty).times(p).times(N::from_int(1).minus(p)),
        )
    }

    /// What a taker of contracts at a price in dollars pays.
    pub fn taker_fee(&self, price_dollars: N, qty: N) -> (r: N)
        ensures
            r == self.taker(price_dollars, qty),
    {
        if self.use_formula {
            FeeModel::kalshi_formula(price_dollars, qty)
        } else {
            let notional = clamp(price_dollars, N::from_int(0), N::from_int(1)).times(qty);
            round_up_to_cent(notional.times(self.taker_fee_rate))
        }
    }

    /// What a maker of contracts at a price in dollars pays. The price does not matter.
    pub fn maker_fee(&self, _price_dollars: N, qty: N) -> (r: N)
        ensures
            r == self.maker(qty),
    {
        if self.use_formula {
            N::from_int(0)
        } else {
            self.maker_fee_per_contract.times(qty)
        }
    }
}

/// By the formula of the exchange a maker pays no fee.
pub proof fn law_makers_pay_nothing<N: Number>(m: FeeModel<N>, qty: N)
    requires
        m.use_formula,
    ensures
        m.maker(qty) == N::integer(0),
{
}

proof fn lemma_up_to_cent(d: Fixed)
    requires
        0 <= d.units <= 10_000_000_000_000_000,
    ensures
        d.units <= up_to_cent(d).units < d.units + 10_000,
        up_to_cent(d).units % 10_000 == 0,
{
    let hundred = Fixed::integer(100);
    let noise = fraction_of::<Fixed>(1, 1_000_000_000);
    assert(hundred.units == 100_000_000);
    assert(noise.units == 0) by {
        assert(Fixed::integer(1).units == 1_000_000);
        assert(Fixed::integer(1_000_000_000).units == 1_000_000_000_000_000);
        lemma_cut(1_000_000_000_000, 1_000_000_000_000_000);
    }
    law_whole_products_are_exact(hundred, d, 100);
    let x = d.product(hundred).difference(noise);
    assert(x.units == 100 * d.units);
    let k = (x.units + 999_999) / 1_000_000;
    assert(x.rounded_up().units == k * 1_000_000);
    let big = k * 1_000_000 * 1_000_000;
    assert(big == (k * 10_000) * 100_000_000);
    lemma_cut_multiple(k * 10_000, 100_000_000);
    assert(up_to_cent(d).units == k * 10_000);
}

proof fn lemma_thrice_cut(q: int, p: int, w: int, a: int, b: int, d: int)
    requires
        0 <= q,
        0 <= p,
        0 <= w,
        p + w == 1_000_000,
        a * 1_000_000 <= 70_000 * q < a * 1_000_000 + 1_000_000,
        b * 1_000_000 <= a * p < b * 1_000_000 + 1_000_000,
        d * 1_000_000 <= b * w < d * 1_000_000 + 1_000_000,
    ensures
        d * 100_000_000_000_000 <= 7 * q * p * w < (d + 3) * 100_000_000_000_000,
{
    let pw = p * w;
    assert(0 <= pw <= 1_000_000_000_000) by (nonlinear_arith)
        requires
            0 <= p <= 1_000_000,
            0 <= w <= 1_000_000,
            pw == p * w,
    ;
    let apw = a * p * w;
    let bw = b * w;
    assert(b * 1_000_000 * w <= apw) by (nonlinear_arith)
        requires
            b * 1_000_000 <= a * p,
            0 <= w,
            apw == a * p * w,
    ;
    assert(b * 1_000_000 * w == bw * 1_000_000) by (nonlinear_arith)
        requires
            bw == b * w,
    ;
    assert(apw <= (b * 1_000_000 + 1_000_000) * w) by (nonlinear_arith)
        requires
            a * p < b * 1_000_000 + 1_000_000,
            0 <= w,
            apw == a * p * w,
    ;
    assert((b * 1_000_000 + 1_000_000) * w == bw * 1_000_000 + 1_000_000 * w) by (nonlinear_arith)
        requires
            bw == b * w,
    ;
    let x = 70_000 * q * p * w;
    assert(a * 1_000_000 * pw <= 70_000 * q * pw) by (nonlinear_arith)
        requires
            a * 1_000_000 <= 70_000 * q,
            0 <= pw,
    ;
    assert(70_000 * q * pw <= (a * 1_000_000 + 1_000_000) * pw) by (nonlinear_arith)
        requires
            70_000 * q < a * 1_000_000 + 1_000_000,
            0 <= pw,
    ;
    assert(70_000 * q * pw == x && a * 1_000_000 * pw == apw * 1_000_000 && (a * 1_000_000
        + 1_000_000) * pw == apw * 1_000_000 + 1_000_000 * pw) by (nonlinear_arith)
        requires
            pw == p * w,
            x == 70_000 * q * p * w,
            apw == a * p * w,
    ;
    let y = 7 * q * p * w;
    assert(x == 10_000 * y) by (nonlinear_arith)
        requires
            x == 70_000 * q * p * w,
            y == 7 * q * p * w,
    ;
}

/// By the formula of the exchange a taker pays 7% of the contracts times the price times what the
/// price is short of one dollar, in whole cents, rounded up. With numbers of six decimals the fee
/// is a count of cents, less than a cent above that, and not below it by as much as three
/// millionths.
pub proof fn law_takers_pay_the_exchange_fee(m: FeeModel<Fixed>, price: Fixed, qty: Fixed)
    requires
        m.use_formula,
        0 <= price.units <= 1_000_000,
        0 <= qty.units <= 100_000_000_000_000_000,
    ensures
        ({
            let fee = m.taker(price, qty).units;
            let exact = 7 * qty.units * price.units * (1_000_000 - price.units);
            &&& fee % 10_000 == 0
            &&& exact < (fee + 3) * 100_000_000_000_000
            &&& fee * 100_000_000_000_000 < exact + 10_000 * 100_000_000_000_000
        }),
{
    let (q, p, w) = (qty.units as int, price.units as int, 1_000_000 - price.units);
    let seven = fraction_of::<Fixed>(7, 100);
    assert(seven.units == 70_000) by {
        assert(Fixed::integer(7).units == 7_000_000);
        assert(Fixed::integer(100).units == 100_000_000);
        lemma_cut_multiple(70_000, 100_000_000);
    }
    assert(Fixed::integer(0).units == 0 && Fixed::integer(1).units == 1_000_000);
    assert(clamped(price, Fixed::integer(0), Fixed::integer(1)) == price);
    let one = seven.product(qty);
    lemma_cut(70_000 * q, 1_000_000);
    assert(0 <= one.units <= 7_000_000_000_000_000);
    let two = one.product(price);
    let a = one.units as int;
    assert(0 <= a * p <= a * 1_000_000) by (nonlinear_arith)
        requires
            0 <= a,
            0 <= p <= 1_000_000,
    ;
    lemma_cut(a * p, 1_000_000);
    let b = cut_quotient(a * p, 1_000_000);
    assert(0 <= b <= a);
    assert(two.units == b);
    let rest = Fixed::integer(1).difference(price);
    assert(rest.units == w);
    assert(0 <= b * w <= b * 1_000_000) by (nonlinear_arith)
        requires
            0 <= b,
            0 <= w <= 1_000_000,
    ;
    lemma_cut(b * w, 1_000_000);
    let d = two.product(rest);
    assert(d.units == cut_quotient(b * w, 1_000_000));
    assert(0 <= d.units <= b);
    lemma_thrice_cut(q, p, w, a, b, d.units as int);
    lemma_up_to_cent(d);
}

/// A taker of a contract or more, at a price between 0 and one dollar, always pays: by the formula
/// of the exchange the fee is at least a cent.
pub proof fn law_takers_always_pay(m: FeeModel<Fixed>, price: Fixed, qty: Fixed)
    requires
        m.use_formula,
        10_000 <= price.units <= 990_000,
        1_000_000 <= qty.units <= 100_000_000_000_000_000,
    ensures
        m.taker(price, qty).units >= 10_000,
{
    law_takers_pay_the_exchange_fee(m, price, qty);
    let (q, p) = (qty.units as int, price.units as int);
    let w = 1_000_000 - p;
    assert(q * p >= 1_000_000 * 10_000) by (nonlinear_arith)
        requires
            q >= 1_000_000,
            p >= 10_000,
    ;
    assert(7 * q * p * w >= 7 * 1_000_000 * 10_000 * 10_000) by (nonlinear_arith)
        requires
            q * p >= 1_000_000 * 10_000,
            w >= 10_000,
    ;
}

/// Without the formula a taker pays the rate on what the contracts cost, in whole cents, rounded up.
/// With numbers of six decimals the fee is a count of cents, less than a cent above that, and not
/// below it by as much as two millionths.
pub proof fn law_takers_pay_the_rate(m: FeeModel<Fixed>, price: Fixed, qty: Fixed)
    requires
        !m.use_formula,
        0 <= m.taker_fee_rate.units <= 1_000_000,
        0 <= price.units <= 1_000_000,
        0 <= qty.units <= 10_000_000_000_000_000,
    ensures
        ({
            let fee = m.taker(price, qty).units;
            let exact = qty.units * price.units * m.taker_fee_rate.units;
            &&& fee % 10_000 == 0
            &&& exact < (fee + 2) * 1_000_000_000_000
            &&& fee * 1_000_000_000_000 < exact + 10_000 * 1_000_000_000_000
        }),
{
    let (q, p, t) = (qty.units as int, price.units as int, m.taker_fee_rate.units as int);
    assert(Fixed::integer(0).units == 0 && Fixed::integer(1).units == 1_000_000);
    assert(clamped(price, Fixed::integer(0), Fixed::integer(1)) == price);
    assert(0 <= p * q <= q * 1_000_000) by (nonlinear_arith)
        requires
            0 <= q,
            0 <= p <= 1_000_000,
    ;
    lemma_cut(p * q, 1_000_000);
    let n = cut_quotient(p * q, 1_000_000);
    let cost = price.product(qty);
    assert(0 <= n <= q) by (nonlinear_arith)
        requires
            n * 1_000_000 <= p * q <= q * 1_000_000,
            0 <= n,
    ;
    assert(cost.units == n);
    assert(0 <= n * t <= n * 1_000_000) by (nonlinear_arith)
        requires
            0 <= n,
            0 <= t <= 1_000_000,
    ;
    lemma_cut(n * t, 1_000_000);
    let d = cost.product(m.taker_fee_rate);
    let e = cut_quotient(n * t, 1_000_000);
    assert(e <= n) by (nonlinear_arith)
        requires
            e * 1_000_000 <= n * t <= n * 1_000_000,
    ;
    assert(d.units == e);
    lemma_up_to_cent(d);
    let x = p * q;
    let nt = n * t;
    assert(n * 1_000_000 * t <= x * t <= (n * 1_000_000 + 1_000_000) * t) by (nonlinear_arith)
        requires
            n * 1_000_000 <= x < n * 1_000_000 + 1_000_000,
            0 <= t,
    ;
    assert(n * 1_000_000 * t == nt * 1_000_000 && (n * 1_000_000 + 1_000_000) * t == nt * 1_000_000
        + 1_000_000 * t) by (nonlinear_arith)
        requires
            nt == n * t,
    ;
    assert(x * t == q * p * t) by (nonlinear_arith)
        requires
            x == p * q,
    ;
}

/// Without the formula a maker pays so much for each contract; with whole contracts and numbers of
/// six decimals, exactly.
pub proof fn law_makers_pay_for_each_contract(m: FeeModel<Fixed>, qty: Fixed, k: int)
    requires
        !m.use_formula,
        qty.units == k * 1_000_000,
        -LARGEST <= k * m.maker_fee_per_contract.units <= LARGEST,
    ensures
        m.maker(qty).units == k * m.maker_fee_per_contract.units,
{
    law_whole_products_are_exact(qty, m.maker_fee_per_contract, k);
}

} // verus!
