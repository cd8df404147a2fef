use kalshi_backtester::config::BacktestConfig;
use kalshi_backtester::execution::{
    execute_market, execute_market_bounded, match_resting_against_trade, RestingOrder,
};
use kalshi_backtester::fees::FeeModel;
use kalshi_backtester::number::{Analytic, Number};
use kalshi_backtester::orderbook::{BookSet, OrderBook};
use kalshi_backtester::slippage::SlippageModel;
use kalshi_backtester::config::SlippageConfig;
use kalshi_backtester::types::{Action, BookDelta, Cents, Liquidity, Side, TradeEvent};

/// Double-precision numbers.
#[derive(Debug, Clone, Copy, PartialEq, PartialOrd)]
struct F(f64);

impl Number for F {
    fn from_int(n: i64) -> F {
        F(n as f64)
    }
    fn infinity() -> F {
        F(f64::INFINITY)
    }
    fn plus(self, other: F) -> F {
        F(self.0 + other.0)
    }
    fn minus(self, other: F) -> F {
        F(self.0 - other.0)
    }
    fn times(self, other: F) -> F {
        F(self.0 * other.0)
    }
    fn over(self, other: F) -> F {
        F(self.0 / other.0)
    }
    fn neg(self) -> F {
        F(-self.0)
    }
    fn abs(self) -> F {
        F(self.0.abs())
    }
    fn min(self, other: F) -> F {
        F(self.0.min(other.0))
    }
    fn max(self, other: F) -> F {
        F(self.0.max(other.0))
    }
    fn ceil(self) -> F {
        F(self.0.ceil())
    }
    fn round(self) -> F {
        F(self.0.round())
    }
    fn fract(self) -> F {
        F(self.0.fract())
    }
    fn sqrt(self) -> F {
        F(self.0.sqrt())
    }
    fn is_below(self, other: F) -> bool {
        self.0 < other.0
    }
    fn is_at_most(self, other: F) -> bool {
        self.0 <= other.0
    }
    fn is_equal(self, other: F) -> bool {
        self.0 == other.0
    }
    fn is_finite(self) -> bool {
        self.0.is_finite()
    }
    fn to_int(self) -> i64 {
        self.0 as i64
    }
    fn parse(s: &str) -> Option<F> {
        s.parse::<f64>().ok().map(F)
    }
    fn text(self) -> String {
        format!("{}", self.0)
    }
    fn fixed(self, decimals: usize) -> String {
        format!("{:.*}", decimals, self.0)
    }
}

impl Analytic for F {
    fn ln(self) -> F {
        F(self.0.ln())
    }
    fn exp(self) -> F {
        F(self.0.exp())
    }
    fn cos(self) -> F {
        F(self.0.cos())
    }
    fn tau() -> F {
        F(std::f64::consts::TAU)
    }
}

fn delta(action: Action, side: Side, price: i32, size: f64, seq: i64, snap: bool) -> BookDelta<F> {
    BookDelta {
        ts_ns: seq * 1_000,
        instrument: "X".to_string(),
        action,
        side,
        price: Cents(price),
        size: F(size),
        sequence: seq,
        is_snapshot: snap,
    }
}

#[test]
fn snapshot_resets() {
    let mut b = OrderBook::new();
    b.apply(&delta(Action::Add, Side::Bid, 40, 100.0, 1, false));
    b.apply(&delta(Action::Add, Side::Ask, 60, 100.0, 2, false));
    assert_eq!(b.best_bid(), Some((Cents(40), F(100.0))));
    b.apply(&delta(Action::Add, Side::Bid, 30, 50.0, 3, true));
    assert_eq!(b.best_bid(), Some((Cents(30), F(50.0))));
    assert_eq!(b.best_ask(), None);
}

#[test]
fn add_update_delete() {
    let mut b = OrderBook::new();
    b.apply(&delta(Action::Add, Side::Bid, 40, 100.0, 1, false));
    b.apply(&delta(Action::Update, Side::Bid, 40, 250.0, 2, false));
    assert_eq!(b.best_bid(), Some((Cents(40), F(250.0))));
    b.apply(&delta(Action::Update, Side::Bid, 40, 0.0, 3, false));
    assert_eq!(b.best_bid(), None);
    b.apply(&delta(Action::Add, Side::Bid, 41, 10.0, 4, false));
    b.apply(&delta(Action::Delete, Side::Bid, 41, 0.0, 5, false));
    assert_eq!(b.best_bid(), None);
}

#[test]
fn gap_detection() {
    let mut b: OrderBook<F> = OrderBook::new();
    assert!(!b.seq_gap(1));
    b.apply(&delta(Action::Add, Side::Bid, 40, 100.0, 1, false));
    assert!(!b.seq_gap(2));
    assert!(b.seq_gap(5));
}

#[test]
fn best_mid_micro() {
    let mut b = OrderBook::new();
    b.apply(&delta(Action::Add, Side::Bid, 40, 300.0, 1, false));
    b.apply(&delta(Action::Add, Side::Ask, 60, 100.0, 2, false));
    assert!((b.mid().unwrap().0 - 0.50).abs() < 1e-9);
    assert!((b.spread().unwrap().0 - 0.20).abs() < 1e-9);
    assert!(b.imbalance().unwrap().0 > 0.0);
    let mp = b.microprice().unwrap().0;
    assert!(mp > 0.50 && mp < 0.60, "got {mp}");
}

#[test]
fn bookset_keys_by_instrument() {
    let mut bs = BookSet::new();
    bs.apply(&delta(Action::Add, Side::Bid, 40, 100.0, 1, false));
    assert_eq!(bs.best_bid("X"), Some((Cents(40), F(100.0))));
    assert_eq!(bs.best_bid("Y"), None);
}

#[test]
fn best_prices_are_the_extremes_of_each_side() {
    let mut b = OrderBook::new();
    b.apply(&delta(Action::Add, Side::Bid, 40, 1.0, 1, false));
    b.apply(&delta(Action::Add, Side::Bid, 42, 2.0, 2, false));
    b.apply(&delta(Action::Add, Side::Bid, 41, 3.0, 3, false));
    b.apply(&delta(Action::Add, Side::Ask, 60, 4.0, 4, false));
    b.apply(&delta(Action::Add, Side::Ask, 58, 5.0, 5, false));
    b.apply(&delta(Action::Add, Side::Ask, 59, 6.0, 6, false));
    assert_eq!(b.best_bid(), Some((Cents(42), F(2.0))));
    assert_eq!(b.best_ask(), Some((Cents(58), F(5.0))));
    assert_eq!(b.size_at(Side::Bid, Cents(41)), F(3.0));
    assert_eq!(b.size_at(Side::Ask, Cents(41)), F(0.0));
    assert_eq!(b.imbalance(), Some(F((2.0 - 5.0) / (2.0 + 5.0))));
}

fn fees() -> FeeModel<F> {
    FeeModel::from_config(&BacktestConfig::default())
}

fn trade_aggr(price: i32, size: f64, aggressor_yes: bool) -> TradeEvent<F> {
    TradeEvent {
        ts_ns: 100,
        instrument: "X".to_string(),
        aggressor_yes,
        price: Cents(price),
        size: F(size),
        trade_id: "t".to_string(),
    }
}

fn sell_trade(price: i32, size: f64) -> TradeEvent<F> {
    trade_aggr(price, size, false)
}

fn buy_trade(price: i32, size: f64) -> TradeEvent<F> {
    trade_aggr(price, size, true)
}

fn resting(id: u64, side: Side, price: i32, queue_ahead: f64) -> RestingOrder<F> {
    RestingOrder {
        id,
        instrument: "X".to_string(),
        side,
        price: Cents(price),
        remaining: F(10.0),
        queue_ahead: F(queue_ahead),
        activation_ts: 0,
    }
}

#[test]
fn buy_limit_fills_when_trade_crosses() {
    let mut o = resting(1, Side::Bid, 40, 0.0);
    let f = match_resting_against_trade(&mut o, &sell_trade(40, 5.0), &fees()).unwrap();
    assert_eq!(f.qty, F(5.0));
    assert_eq!(f.liquidity, Liquidity::Maker);
    assert_eq!(o.remaining, F(5.0));
}

#[test]
fn sell_limit_fills_when_buyer_lifts() {
    let mut o = resting(2, Side::Ask, 60, 0.0);
    let f = match_resting_against_trade(&mut o, &buy_trade(60, 4.0), &fees()).unwrap();
    assert_eq!(f.qty, F(4.0));
    assert_eq!(f.liquidity, Liquidity::Maker);
    assert_eq!(o.remaining, F(6.0));
}

#[test]
fn same_direction_aggressor_does_not_fill() {
    let mut bid = resting(1, Side::Bid, 40, 0.0);
    assert!(match_resting_against_trade(&mut bid, &buy_trade(40, 5.0), &fees()).is_none());
    assert_eq!(bid.remaining, F(10.0));

    let mut ask = resting(2, Side::Ask, 60, 0.0);
    assert!(match_resting_against_trade(&mut ask, &sell_trade(60, 5.0), &fees()).is_none());
    assert_eq!(ask.remaining, F(10.0));
}

#[test]
fn queue_ahead_blocks_then_fills() {
    let mut o = resting(1, Side::Bid, 40, 8.0);
    assert!(match_resting_against_trade(&mut o, &sell_trade(40, 5.0), &fees()).is_none());
    assert_eq!(o.queue_ahead, F(3.0));
    let f = match_resting_against_trade(&mut o, &sell_trade(40, 10.0), &fees()).unwrap();
    assert_eq!(f.qty, F(7.0));
    assert_eq!(o.remaining, F(3.0));
}

#[test]
fn no_fill_when_not_crossing() {
    let mut o = resting(1, Side::Bid, 40, 0.0);
    assert!(match_resting_against_trade(&mut o, &sell_trade(45, 5.0), &fees()).is_none());
}

fn level(side: Side, price: i32, size: f64) -> BookDelta<F> {
    BookDelta {
        ts_ns: 1,
        instrument: "X".to_string(),
        action: Action::Add,
        side,
        price: Cents(price),
        size: F(size),
        sequence: 1,
        is_snapshot: false,
    }
}

#[test]
fn market_walks_book() {
    let mut book = OrderBook::new();
    book.apply(&level(Side::Ask, 60, 5.0));
    book.apply(&level(Side::Ask, 62, 100.0));
    let fills = execute_market(9, "X", Side::Bid, F(8.0), &book, &fees(), 1);
    assert_eq!(fills.len(), 2);
    assert_eq!(fills[0].price, Cents(60));
    assert_eq!(fills[0].qty, F(5.0));
    assert_eq!(fills[1].price, Cents(62));
    assert_eq!(fills[1].qty, F(3.0));
    assert!(fills[0].liquidity == Liquidity::Taker);
}

#[test]
fn bounded_buy_walk_stops_at_limit_price() {
    let mut book = OrderBook::new();
    book.apply(&level(Side::Ask, 60, 5.0));
    book.apply(&level(Side::Ask, 62, 100.0));
    let fills =
        execute_market_bounded(9, "X", Side::Bid, F(50.0), Some(Cents(60)), &book, &fees(), 1);
    assert_eq!(fills.len(), 1);
    assert_eq!(fills[0].price, Cents(60));
    assert_eq!(fills[0].qty, F(5.0));
}

#[test]
fn bounded_sell_walk_stops_at_limit_price() {
    let mut book = OrderBook::new();
    book.apply(&level(Side::Bid, 40, 5.0));
    book.apply(&level(Side::Bid, 38, 100.0));
    let fills =
        execute_market_bounded(9, "X", Side::Ask, F(50.0), Some(Cents(40)), &book, &fees(), 1);
    assert_eq!(fills.len(), 1);
    assert_eq!(fills[0].price, Cents(40));
    assert_eq!(fills[0].qty, F(5.0));
}

#[test]
fn formula_peaks_at_half() {
    let f = FeeModel::kalshi_formula(F(0.50), F(100.0)).0;
    assert!((f - 1.75).abs() < 1e-9, "got {f}");
}

#[test]
fn formula_rounds_up_to_cent() {
    let f = FeeModel::kalshi_formula(F(0.40), F(1.0)).0;
    assert!((f - 0.02).abs() < 1e-9, "got {f}");
}

#[test]
fn extremes_are_cheap() {
    let f = FeeModel::kalshi_formula(F(0.99), F(10.0)).0;
    assert!((f - 0.01).abs() < 1e-9, "got {f}");
}

#[test]
fn maker_free_with_formula() {
    let cfg: BacktestConfig<F> = BacktestConfig::default();
    let m = FeeModel::from_config(&cfg);
    assert_eq!(m.maker_fee(F(0.5), F(100.0)), F(0.0));
    assert!(m.taker_fee(F(0.5), F(100.0)).0 > 0.0);
}

#[test]
fn flat_rates_replace_the_formula() {
    let mut cfg: BacktestConfig<F> = BacktestConfig::default();
    cfg.fee_bps_formula = false;
    cfg.maker_fee = F(0.25);
    cfg.taker_fee_rate = F(0.5);
    let m = FeeModel::from_config(&cfg);
    assert_eq!(m.maker_fee(F(0.5), F(4.0)), F(1.0));
    assert_eq!(m.taker_fee(F(0.5), F(4.0)), F(1.0));
}

#[test]
fn slippage_charges_takers_alone() {
    let m = SlippageModel::from_config(&SlippageConfig {
        enabled: true,
        taker_ticks: 2,
        taker_bps: F(0.0),
        maker_adverse_selection_bps: F(0.0),
    });
    let taken = m.cost(Side::Bid, Cents(50), F(10.0), Liquidity::Taker).0;
    assert!((taken - 0.20).abs() < 1e-12, "got {taken}");
    assert_eq!(m.cost(Side::Bid, Cents(50), F(10.0), Liquidity::Maker), F(0.0));
    let off = SlippageModel::from_config(&SlippageConfig {
        enabled: false,
        taker_ticks: 2,
        taker_bps: F(0.5),
        maker_adverse_selection_bps: F(0.0),
    });
    assert_eq!(off.cost(Side::Bid, Cents(50), F(10.0), Liquidity::Taker), F(0.0));
}

#[test]
fn copies_of_books_stand_alone() {
    let mut bs = BookSet::new();
    bs.apply(&delta(Action::Add, Side::Bid, 40, 10.0, 1, true));
    let copy = bs.clone();
    bs.apply(&delta(Action::Add, Side::Bid, 41, 5.0, 2, false));
    let (a, b) = (bs.books.get("X").unwrap(), copy.books.get("X").unwrap());
    assert_eq!((a.bids.len(), b.bids.len()), (2, 1));
    assert_eq!((b.bids.key_at(0), b.last_seq), (40, 1));
    assert_eq!(*a, a.clone());
}
