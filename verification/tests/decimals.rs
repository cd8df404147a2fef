use kalshi_backtester::config::{LatencyConfig, LatencyDist};
use kalshi_backtester::execution::{
    execute_market_bounded, match_resting_against_trade, RestingOrder,
};
use kalshi_backtester::fees::FeeModel;
use kalshi_backtester::fit_logistic::fit;
use kalshi_backtester::fixed::Fixed;
use kalshi_backtester::latency::{LatencyModel, SplitMix64};
use kalshi_backtester::number::{ratio, Analytic, Number};
use kalshi_backtester::orderbook::OrderBook;
use kalshi_backtester::portfolio::Portfolio;
use kalshi_backtester::types::{
    Action, BookDelta, Cents, Fill, Liquidity, Side, TradeEvent,
};

fn n(units: i64) -> Fixed {
    Fixed { units }
}

fn near(a: Fixed, b: i64) -> bool {
    (a.units - b).abs() <= 20
}

#[test]
fn decimals_add_and_multiply() {
    let a = Fixed::from_int(3);
    let b: Fixed = ratio(1, 4);
    assert_eq!(a, n(3_000_000));
    assert_eq!(b, n(250_000));
    assert_eq!(a.plus(b), n(3_250_000));
    assert_eq!(a.minus(b).plus(b), a);
    assert_eq!(a.times(b), n(750_000));
    assert_eq!(a.over(b), n(12_000_000));
    assert_eq!(b.neg().abs(), b);
    assert_eq!(a.min(b), b);
    assert_eq!(a.max(b), a);
}

#[test]
fn decimals_round_and_compare() {
    assert_eq!(n(1_250_000).ceil(), n(2_000_000));
    assert_eq!(n(-1_250_000).ceil(), n(-1_000_000));
    assert_eq!(n(1_500_000).round(), n(2_000_000));
    assert_eq!(n(-1_500_000).round(), n(-2_000_000));
    assert_eq!(n(-1_250_000).fract(), n(-250_000));
    assert_eq!(n(-1_250_000).to_int(), -1);
    assert_eq!(n(4_000_000).sqrt(), n(2_000_000));
    assert!(n(1).is_below(n(2)) && n(2).is_at_most(n(2)) && n(2).is_equal(n(2)));
    assert!(n(5).is_finite() && !Fixed::infinity().is_finite());
}

#[test]
fn decimals_are_read_and_written() {
    assert_eq!(n(1_250_000).text(), "1.25");
    assert_eq!(n(-500_000).text(), "-0.5");
    assert_eq!(n(3_000_000).text(), "3");
    assert_eq!(n(1_250_000).fixed(2), "1.25");
    assert_eq!(n(1_250_000).fixed(0), "1");
    assert_eq!(n(1_250_000).fixed(4), "1.2500");
    assert_eq!(Fixed::parse("12"), Some(n(12_000_000)));
    assert_eq!(Fixed::parse("x"), None);
}

#[test]
fn decimals_have_logarithms() {
    assert!(near(n(2_000_000).ln(), 693_147));
    assert!(near(n(1_000_000).exp(), 2_718_281));
    assert!(near(n(0).cos(), 1_000_000));
    assert!(near(Fixed::tau(), 6_283_185));
}

fn filled(side: Side, price: i32, qty: i64, fee: Fixed, ts_ns: i64) -> Fill<Fixed> {
    Fill {
        ts_ns,
        order_id: 1,
        instrument: "X".to_string(),
        side,
        price: Cents(price),
        qty: Fixed::from_int(qty),
        liquidity: Liquidity::Taker,
        fee,
    }
}

#[test]
fn accounts_keep_decimals() {
    let zero = Fixed::from_int(0);
    let mut p = Portfolio::new(Fixed::from_int(1000), "USD".to_string(), 1);
    p.apply_fill(&filled(Side::Bid, 40, 100, zero, 1_000_000_000));
    p.apply_fill(&filled(Side::Ask, 60, 150, n(500_000), 3_000_000_000));
    assert_eq!(p.cash, n(1_049_500_000));
    let pos = p.position("X");
    assert_eq!(pos.net_qty, Fixed::from_int(-50));
    assert_eq!(pos.avg_cost, n(600_000));
    assert_eq!(pos.entry_price, n(600_000));
    assert_eq!(pos.realized_pnl, n(19_500_000));
    assert_eq!(pos.opened_ts, 3_000_000_000);
    let t = &p.round_trips[0];
    assert_eq!((t.entry_ts, t.exit_ts, t.qty), (1_000_000_000, 3_000_000_000, Fixed::from_int(100)));
    assert_eq!((t.entry_price, t.exit_price, t.pnl), (n(400_000), n(600_000), n(19_500_000)));

    assert_eq!(p.settle_position("X", zero, 4_000_000_000), Fixed::from_int(30));
    assert_eq!(p.position("X").net_qty, zero);
    let (cash, fills) = (p.cash, p.fills.len());
    assert_eq!(p.settle_position("X", Fixed::from_int(1), 5_000_000_000), zero);
    assert_eq!((p.cash, p.fills.len()), (cash, fills));
}

#[test]
fn delays_keep_decimals() {
    let mut r = SplitMix64::new(123);
    let mut distinct = std::collections::HashSet::new();
    for _ in 0..1000 {
        let u = r.next_f64::<Fixed>();
        assert!(0 <= u.units && u.units < 1_000_000);
        distinct.insert(u.units);
    }
    assert!(distinct.len() > 900);
    let cfg = LatencyConfig {
        enabled: true,
        dist: LatencyDist::Uniform { min_ns: 100, max_ns: 200 },
        seed: 9,
        ..Default::default()
    };
    let mut m = LatencyModel::from_config(&cfg, Vec::new());
    let delays: Vec<i64> = (0..200).map(|i| m.order_activation_ts::<Fixed>(0, i)).collect();
    assert!(delays.iter().all(|d| (100..=200).contains(d)));
    assert!(delays.iter().any(|d| *d < 120) && delays.iter().any(|d| *d > 180));
}

#[test]
fn takers_take_what_they_can_reach() {
    let mut book: OrderBook<Fixed> = OrderBook::new();
    for (price, size) in [(40, 5), (41, 7), (45, 9)] {
        book.apply(&BookDelta {
            ts_ns: 1,
            instrument: "X".to_string(),
            action: Action::Add,
            side: Side::Ask,
            price: Cents(price),
            size: Fixed::from_int(size),
            sequence: 1,
            is_snapshot: false,
        });
    }
    let fees = FeeModel {
        use_formula: false,
        maker_fee_per_contract: Fixed::from_int(0),
        taker_fee_rate: Fixed::from_int(0),
    };
    let take = |qty: i64, bound: Option<Cents>| -> i64 {
        execute_market_bounded(1, "X", Side::Bid, Fixed::from_int(qty), bound, &book, &fees, 2)
            .iter()
            .map(|f| f.qty.units)
            .sum()
    };
    assert_eq!(take(10, None), 10_000_000);
    assert_eq!(take(50, None), 21_000_000);
    assert_eq!(take(50, Some(Cents(41))), 12_000_000);
    assert_eq!(take(-1, None), 0);
}

#[test]
fn curves_do_not_depend_on_the_order_of_points() {
    let points: Vec<(Fixed, Fixed)> = [(10, 900_000), (20, 700_000), (30, 400_000), (40, 150_000), (50, 50_000)]
        .iter()
        .map(|(k, m)| (Fixed::from_int(*k), n(*m)))
        .collect();
    let mut turned = points.clone();
    turned.reverse();
    turned.insert(2, (Fixed::from_int(35), Fixed::from_int(1)));
    let a = fit(&points).expect("a curve");
    let b = fit(&turned).expect("a curve");
    assert_eq!((a.mu, a.s, a.rmse, a.n_points), (b.mu, b.s, b.rmse, b.n_points));
    assert!(a.rmse.units >= 0);
}

#[test]
fn makers_wait_their_turn() {
    let fees = FeeModel {
        use_formula: false,
        maker_fee_per_contract: Fixed::from_int(0),
        taker_fee_rate: Fixed::from_int(0),
    };
    let mut order = RestingOrder {
        id: 1,
        instrument: "X".to_string(),
        side: Side::Bid,
        price: Cents(40),
        remaining: Fixed::from_int(5),
        queue_ahead: Fixed::from_int(7),
        activation_ts: 0,
    };
    let mut hit = |size: i64| -> (i64, i64, i64) {
        let trade = TradeEvent {
            ts_ns: 1,
            instrument: "X".to_string(),
            aggressor_yes: false,
            price: Cents(40),
            size: Fixed::from_int(size),
            trade_id: String::new(),
        };
        let filled = match_resting_against_trade(&mut order, &trade, &fees);
        (
            filled.map_or(0, |f| f.qty.units / 1_000_000),
            order.remaining.units / 1_000_000,
            order.queue_ahead.units / 1_000_000,
        )
    };
    assert_eq!(hit(4), (0, 5, 3));
    assert_eq!(hit(5), (2, 3, 0));
    assert_eq!(hit(10), (3, 0, 0));
    assert_eq!(hit(10), (0, 0, 0));
}
