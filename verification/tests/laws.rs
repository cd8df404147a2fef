use kalshi_backtester::adapters::{tag_events_with_venue, Instrument, Venue};
use kalshi_backtester::cli::args::ExecFlags;
use kalshi_backtester::cli::resolve::apply_exec_overrides_orch;
use kalshi_backtester::config::{BacktestConfig, ExecutionConfig};
use kalshi_backtester::data::clickhouse_schema::esc;
use kalshi_backtester::data::sort_events;
use kalshi_backtester::engine::Engine;
use kalshi_backtester::intmap::IntMap;
use kalshi_backtester::number::{Analytic, Number};
use kalshi_backtester::optimize::Metric;
use kalshi_backtester::orderbook::OrderBook;
use kalshi_backtester::slippage::SlippageModel;
use kalshi_backtester::strategy::{Ctx, Noop, Strategy};
use kalshi_backtester::strmap::StrMap;
use kalshi_backtester::types::{
    Action, BookDelta, Cents, Liquidity, MarketEvent, Side, TradeEvent,
};

/// Double-precision numbers.
#[derive(Debug, Clone, Copy, PartialEq, PartialOrd)]
struct F(f64);

impl Number for F {
    fn from_int(n: i64) -> F {
        F(n as f64)
    }
    fn infinity() -> F {
        F(f64::INFINITY)
    }
    fn plus(self, other: F) -> F {
        F(self.0 + other.0)
    }
    fn minus(self, other: F) -> F {
        F(self.0 - other.0)
    }
    fn times(self, other: F) -> F {
        F(self.0 * other.0)
    }
    fn over(self, other: F) -> F {
        F(self.0 / other.0)
    }
    fn neg(self) -> F {
        F(-self.0)
    }
    fn abs(self) -> F {
        F(self.0.abs())
    }
    fn min(self, other: F) -> F {
        F(self.0.min(other.0))
    }
    fn max(self, other: F) -> F {
        F(self.0.max(other.0))
    }
    fn ceil(self) -> F {
        F(self.0.ceil())
    }
    fn round(self) -> F {
        F(self.0.round())
    }
    fn fract(self) -> F {
        F(self.0.fract())
    }
    fn sqrt(self) -> F {
        F(self.0.sqrt())
    }
    fn is_below(self, other: F) -> bool {
        self.0 < other.0
    }
    fn is_at_most(self, other: F) -> bool {
        self.0 <= other.0
    }
    fn is_equal(self, other: F) -> bool {
        self.0 == other.0
    }
    fn is_finite(self) -> bool {
        self.0.is_finite()
    }
    fn to_int(self) -> i64 {
        self.0 as i64
    }
    fn parse(s: &str) -> Option<F> {
        s.parse::<f64>().ok().map(F)
    }
    fn text(self) -> String {
        format!("{}", self.0)
    }
    fn fixed(self, decimals: usize) -> String {
        format!("{:.*}", decimals, self.0)
    }
}

impl Analytic for F {
    fn ln(self) -> F {
        F(self.0.ln())
    }
    fn exp(self) -> F {
        F(self.0.exp())
    }
    fn cos(self) -> F {
        F(self.0.cos())
    }
    fn tau() -> F {
        F(std::f64::consts::TAU)
    }
}

fn level(ts_ns: i64, side: Side, price: i32, size: f64, is_snapshot: bool) -> BookDelta<F> {
    BookDelta {
        ts_ns,
        instrument: "X".into(),
        action: Action::Add,
        side,
        price: Cents(price),
        size: F(size),
        sequence: ts_ns,
        is_snapshot,
    }
}

fn print(ts_ns: i64, price: i32) -> MarketEvent<F> {
    MarketEvent::Trade(TradeEvent {
        ts_ns,
        instrument: "X".into(),
        aggressor_yes: true,
        price: Cents(price),
        size: F(5.0),
        trade_id: format!("t{ts_ns}"),
    })
}

fn tape() -> Vec<MarketEvent<F>> {
    vec![
        MarketEvent::Delta(level(1, Side::Bid, 40, 100.0, true)),
        MarketEvent::Delta(level(2, Side::Ask, 44, 100.0, false)),
        print(3, 44),
        MarketEvent::Delta(level(4, Side::Bid, 41, 50.0, false)),
        print(5, 41),
    ]
}

/// Buys once, and sells what it holds at the next event.
struct InAndOut {
    step: usize,
}

impl Strategy<F> for InAndOut {
    fn name(&self) -> String {
        "in_and_out".to_string()
    }
    fn on_event(&mut self, _ev: &MarketEvent<F>, ctx: &mut Ctx<F>) {
        self.step += 1;
        if self.step == 3 {
            ctx.place_market("X", Side::Bid, F(10.0));
        } else if self.step == 4 {
            ctx.place_market("X", Side::Ask, F(10.0));
        }
    }
    fn on_finish(&mut self, _ctx: &mut Ctx<F>) {}
}

#[test]
fn idle_runs_trade_nothing() {
    let cfg: BacktestConfig<F> = BacktestConfig::default();
    let out = Engine::new(&cfg).run_collecting(&tape(), &mut Noop, &cfg);
    assert_eq!(out.portfolio.fills.len(), 0);
    assert_eq!(out.portfolio.total_orders, 0);
    assert_eq!(out.report.summary.ending_balance, F(1000.0));
    assert_eq!(out.observed_trades.len(), 2);
}

#[test]
fn runs_can_be_fed_piece_by_piece() {
    let cfg: BacktestConfig<F> = BacktestConfig::default();
    let events = tape();
    let whole = Engine::new(&cfg).run_collecting(&events, &mut InAndOut { step: 0 }, &cfg);
    let mut strat = InAndOut { step: 0 };
    let mut engine = Engine::new(&cfg);
    for ev in &events {
        engine.step(ev, &mut strat);
        let now = engine.now_ns();
        engine.snapshot_maybe(now);
    }
    engine.finalize(&mut strat, cfg.flatten_at_end);
    let pieces = engine.into_report("in_and_out", &cfg);
    assert_eq!(format!("{:?}", whole.report), format!("{:?}", pieces.report));
    assert_eq!(whole.portfolio.fills.len(), 2);
}

#[test]
fn runs_are_reproducible() {
    let cfg: BacktestConfig<F> = BacktestConfig::default();
    let a = Engine::new(&cfg).run(&tape(), &mut InAndOut { step: 0 }, &cfg);
    let b = Engine::new(&cfg).run(&tape(), &mut InAndOut { step: 0 }, &cfg);
    assert_eq!(format!("{a:?}"), format!("{b:?}"));
}

#[test]
fn orders_leave_books() {
    let cfg: BacktestConfig<F> = BacktestConfig::default();
    let mut engine = Engine::new(&cfg);
    let mut strat = InAndOut { step: 0 };
    for ev in &tape()[..3] {
        engine.step(ev, &mut strat);
    }
    assert_eq!(engine.portfolio().fills.len(), 1);
    assert_eq!(engine.books().best_ask("X"), Some((Cents(44), F(100.0))));
    assert_eq!(engine.portfolio().total_orders, 1);
}

#[test]
fn snapshots_forget_what_was_there() {
    let mut book: OrderBook<F> = OrderBook::new();
    book.apply(&level(1, Side::Bid, 30, 5.0, false));
    book.apply(&level(2, Side::Ask, 60, 5.0, false));
    book.apply(&level(3, Side::Bid, 20, 7.0, true));
    assert_eq!(book.best_bid(), Some((Cents(20), F(7.0))));
    assert_eq!(book.best_ask(), None);
}

#[test]
fn maps_give_back_what_was_put_in() {
    let mut m: StrMap<i64> = StrMap::new();
    m.insert("b".into(), 1);
    m.insert("a".into(), 2);
    m.insert("b".into(), 3);
    assert_eq!(m.get("b"), Some(&3));
    assert_eq!(m.get("a"), Some(&2));
    assert_eq!(m.get("c"), None);
    assert_eq!(m.key_at(0), "a");
    let mut n: IntMap<i64> = IntMap::new();
    n.insert(5, 50);
    n.insert(-5, 10);
    n.insert(5, 51);
    assert_eq!(n.get(5), Some(&51));
    assert!(n.remove(5) && !n.remove(5));
    assert_eq!(n.get(5), None);
    assert_eq!(n.key_at(0), -5);
}

#[test]
fn ids_and_tags_read_back() {
    let i = Instrument::new(Venue::Polymarket, "ABC:1");
    let back = Instrument::parse(&i.id());
    assert_eq!(back.symbol, "ABC:1");
    assert!(back.venue.same(&Venue::Polymarket));
    let mut events = tape();
    tag_events_with_venue(&mut events, &Venue::Cme);
    let once: Vec<String> = events.iter().map(|e| e.instrument().to_string()).collect();
    tag_events_with_venue(&mut events, &Venue::Cme);
    let twice: Vec<String> = events.iter().map(|e| e.instrument().to_string()).collect();
    assert_eq!(once, twice);
    assert_eq!(once[0], "CME:X");
}

#[test]
fn sorted_events_stay_as_they_are() {
    let sorted = sort_events(vec![print(3, 1), print(1, 2), print(3, 4), print(2, 3)]);
    let times: Vec<i64> = sorted.iter().map(|e| e.ts_ns()).collect();
    assert_eq!(times, vec![1, 2, 3, 3]);
    let again = sort_events(sorted.clone());
    assert_eq!(format!("{sorted:?}"), format!("{again:?}"));
}

#[test]
fn escaped_text_reads_back() {
    for s in ["", "plain", "it's", "''", "a'b'c"] {
        assert_eq!(esc(s).replace("''", "'"), s);
    }
}

#[test]
fn metric_names_read_back() {
    for name in [
        "pnl_total",
        "sharpe",
        "sortino",
        "calmar_ratio",
        "win_rate",
        "profit_factor",
        "ending_balance",
        "expectancy",
    ] {
        assert_eq!(Metric::parse(name).unwrap().name(), name);
    }
}

#[test]
fn flags_apply_once() {
    let f = ExecFlags {
        no_fees: true,
        rewards: true,
        reward_per_period: Some(F(5.0)),
        reward_period_secs: Some(60),
        min_resting_size: None,
        max_spread_cents: Some(4),
        latency_ns: Some(10),
        cancel_latency_ns: None,
        md_latency_ns: None,
        jitter_ns: None,
        slippage_ticks: Some(1),
        slippage_bps: None,
        queue_model: None,
        settlements: Some("s.csv".into()),
        max_order_qty: Some(F(1.0)),
        max_position: None,
        max_gross: None,
        equity_floor: None,
        max_drawdown_pct: None,
    };
    let mut once: ExecutionConfig<F> = ExecutionConfig::default();
    apply_exec_overrides_orch(&mut once, &f);
    let mut twice = once.copy();
    apply_exec_overrides_orch(&mut twice, &f);
    assert_eq!(format!("{once:?}"), format!("{twice:?}"));
    assert!(!once.include_fees && once.rewards.enabled && once.slippage.enabled);
}

#[test]
fn slippage_is_charged_where_it_is_enabled() {
    let mut m = SlippageModel {
        enabled: false,
        taker_ticks: 2,
        taker_bps: F(0.01),
        maker_adverse_selection_bps: F(0.02),
    };
    assert_eq!(m.cost(Side::Bid, Cents(50), F(10.0), Liquidity::Taker), F(0.0));
    m.enabled = true;
    let taker = m.cost(Side::Bid, Cents(50), F(10.0), Liquidity::Taker).0;
    assert!((taker - 0.25).abs() < 1e-12, "{taker}");
    let maker = m.cost(Side::Ask, Cents(50), F(10.0), Liquidity::Maker).0;
    assert!((maker - 0.1).abs() < 1e-12, "{maker}");
    assert_eq!(m.cost(Side::Bid, Cents(50), F(10.0), Liquidity::Settle), F(0.0));
}

#[test]
fn tagged_instruments_read_as_the_venue() {
    for venue in [Venue::Kalshi, Venue::Polymarket, Venue::Cme, Venue::Generic("XYZ".to_string())] {
        for symbol in ["X", "xyz:X", "poly:X", "CME:X", "other:X", ":X", ""] {
            let mut e = print(1, 40);
            if let MarketEvent::Trade(t) = &mut e {
                t.instrument = symbol.to_string();
            }
            let mut events = vec![e];
            tag_events_with_venue(&mut events, &venue);
            assert_eq!(Instrument::parse(events[0].instrument()).venue, venue, "{symbol}");
            let read: Instrument = events[0].instrument().parse().unwrap();
            assert_eq!(read.venue, venue);
        }
        assert_eq!(venue.tag().to_lowercase().parse::<Venue>().unwrap(), venue);
    }
}

#[test]
fn tags_of_any_venue_are_written_once() {
    let mut events = vec![print(1, 40)];
    let named = Venue::Generic("xyz".to_string());
    tag_events_with_venue(&mut events, &named);
    let once = events[0].instrument().to_string();
    tag_events_with_venue(&mut events, &named);
    assert_eq!(events[0].instrument(), once);
    assert_eq!(once, "XYZ:X");
}

#[test]
fn quotes_stand_in_pairs() {
    for (a, b) in [("it's", "a 'test'"), ("'", "''"), ("", "'x'")] {
        let whole = format!("{a}{b}");
        assert_eq!(esc(&whole), format!("{}{}", esc(a), esc(b)));
        let quotes = whole.matches('\'').count();
        assert_eq!(esc(&whole).len(), whole.len() + quotes);
        for run in esc(&whole).split(|c| c != '\'') {
            assert_eq!(run.len() % 2, 0);
        }
    }
}

#[test]
fn trades_are_observed_in_order() {
    let cfg: BacktestConfig<F> = BacktestConfig::default();
    let events = tape();
    let out = Engine::new(&cfg).run_collecting(&events, &mut Noop, &cfg);
    let due: Vec<String> = events
        .iter()
        .filter_map(|e| match e {
            MarketEvent::Trade(t) => Some(t.trade_id.clone()),
            MarketEvent::Delta(_) => None,
        })
        .collect();
    let seen: Vec<String> = out.observed_trades.iter().map(|t| t.trade_id.clone()).collect();
    assert_eq!(seen, due);
    assert!(!seen.is_empty());
}
