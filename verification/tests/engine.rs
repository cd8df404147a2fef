use kalshi_backtester::config::{
    BacktestConfig, LatencyDist, QueueConfig, QueueModel, RiskConfig,
};
use kalshi_backtester::engine::Engine;
use kalshi_backtester::number::{Analytic, Number};
use kalshi_backtester::settlement::{Outcome, SettlementMap};
use kalshi_backtester::strategy::{Ctx, Noop, Strategy};
use kalshi_backtester::types::{
    Action, BookDelta, Cents, Liquidity, MarketEvent, Side, Tif, TradeEvent,
};

/// Double-precision numbers.
#[derive(Debug, Clone, Copy, PartialEq, PartialOrd)]
struct F(f64);

impl Number for F {
    fn from_int(n: i64) -> F {
        F(n as f64)
    }
    fn infinity() -> F {
        F(f64::INFINITY)
    }
    fn plus(self, other: F) -> F {
        F(self.0 + other.0)
    }
    fn minus(self, other: F) -> F {
        F(self.0 - other.0)
    }
    fn times(self, other: F) -> F {
        F(self.0 * other.0)
    }
    fn over(self, other: F) -> F {
        F(self.0 / other.0)
    }
    fn neg(self) -> F {
        F(-self.0)
    }
    fn abs(self) -> F {
        F(self.0.abs())
    }
    fn min(self, other: F) -> F {
        F(self.0.min(other.0))
    }
    fn max(self, other: F) -> F {
        F(self.0.max(other.0))
    }
    fn ceil(self) -> F {
        F(self.0.ceil())
    }
    fn round(self) -> F {
        F(self.0.round())
    }
    fn fract(self) -> F {
        F(self.0.fract())
    }
    fn sqrt(self) -> F {
        F(self.0.sqrt())
    }
    fn is_below(self, other: F) -> bool {
        self.0 < other.0
    }
    fn is_at_most(self, other: F) -> bool {
        self.0 <= other.0
    }
    fn is_equal(self, other: F) -> bool {
        self.0 == other.0
    }
    fn is_finite(self) -> bool {
        self.0.is_finite()
    }
    fn to_int(self) -> i64 {
        self.0 as i64
    }
    fn parse(s: &str) -> Option<F> {
        s.parse::<f64>().ok().map(F)
    }
    fn text(self) -> String {
        format!("{}", self.0)
    }
    fn fixed(self, decimals: usize) -> String {
        format!("{:.*}", decimals, self.0)
    }
}

impl Analytic for F {
    fn ln(self) -> F {
        F(self.0.ln())
    }
    fn exp(self) -> F {
        F(self.0.exp())
    }
    fn cos(self) -> F {
        F(self.0.cos())
    }
    fn tau() -> F {
        F(std::f64::consts::TAU)
    }
}

fn outcomes(instrument: &str, outcome: Outcome) -> SettlementMap {
    let mut map = SettlementMap::new();
    map.insert(instrument, outcome);
    map
}

fn copied(cfg: &BacktestConfig<F>) -> BacktestConfig<F> {
    let mut c: BacktestConfig<F> = BacktestConfig::default();
    c.starting_balance = cfg.starting_balance;
    c.flatten_at_end = cfg.flatten_at_end;
    c.execution = cfg.execution.copy();
    c
}

fn delta(ts: i64, side: Side, price: i32, size: f64) -> MarketEvent<F> {
    MarketEvent::Delta(BookDelta {
        ts_ns: ts,
        instrument: "X".into(),
        action: Action::Add,
        side,
        price: Cents(price),
        size: F(size),
        sequence: ts,
        is_snapshot: false,
    })
}

struct OpenThenFlatten { opened: bool, flattened: bool }
impl Strategy<F> for OpenThenFlatten {
    fn name(&self) -> String {
        "open_then_flatten".to_string()
    }
    fn on_finish(&mut self, _ctx: &mut Ctx<F>) {}
    fn on_event(&mut self, _ev: &MarketEvent<F>, ctx: &mut Ctx<F>) {
        if ctx.best_bid("X").is_none() || ctx.best_ask("X").is_none() {
            return;
        }
        if !self.opened {
            ctx.place_market("X", Side::Bid, F(30.0));
            self.opened = true;
        } else if !self.flattened {
            ctx.place_market("X", Side::Ask, F(30.0));
            self.flattened = true;
        }
    }
}

struct TwoInst { step: i32 }
impl Strategy<F> for TwoInst {
    fn name(&self) -> String {
        "two_inst".to_string()
    }
    fn on_finish(&mut self, _ctx: &mut Ctx<F>) {}
    fn on_event(&mut self, ev: &MarketEvent<F>, ctx: &mut Ctx<F>) {
        if ev.instrument() == "A" && self.step == 0 {
            ctx.place_market("A", Side::Bid, F(40.0));
            self.step = 1;
        } else if ev.instrument() == "B" && self.step == 1 {
            ctx.place_market("B", Side::Bid, F(40.0));
            self.step = 2;
        }
    }
}

struct BuyOnce { done: bool }
impl Strategy<F> for BuyOnce {
    fn name(&self) -> String {
        "buy_once".to_string()
    }
    fn on_finish(&mut self, _ctx: &mut Ctx<F>) {}
    fn on_event(&mut self, _ev: &MarketEvent<F>, ctx: &mut Ctx<F>) {
        if !self.done {
            if ctx.best_ask("X").is_some() {
                ctx.place_market("X", Side::Bid, F(100.0));
                self.done = true;
            }
        }
    }
}

#[test]
fn ctx_exposes_sane_mu_on_ladder() {
    let cfg: BacktestConfig<F> = BacktestConfig::default();
    let mut eng = Engine::new(&cfg);
    let mut s = Noop;
    let (mu, scale) = (3.0_f64, 0.075_f64);
    let event = "KXNATGASD-26JUN1517";
    let mut seq = 1i64;
    let mut sample_inst = String::new();
    for i in 0..28 {
        let k = 2.7 + 0.6 * i as f64 / 27.0;
        let fair = 1.0 / (1.0 + ((k - mu) / scale).exp());
        let mid_c = (fair.clamp(0.02, 0.98) * 100.0).round() as i32;
        let inst = format!("{event}-T{k:.3}");
        if i == 14 {
            sample_inst = inst.clone();
        }
        let bid = (mid_c - 1).clamp(1, 98);
        let ask = (mid_c + 1).clamp(2, 99);
        let bd = |side: Side, px: i32, seq: i64, snap: bool| {
            MarketEvent::Delta(BookDelta {
                ts_ns: 1_000 + seq,
                instrument: inst.clone(),
                action: Action::Add,
                side,
                price: Cents(px),
                size: F(100.0),
                sequence: seq,
                is_snapshot: snap,
            })
        };
        eng.step(&bd(Side::Bid, bid, seq, true), &mut s);
        seq += 1;
        eng.step(&bd(Side::Ask, ask, seq, false), &mut s);
        seq += 1;
    }
    let fv = eng.ctx.implied_fair_value(&sample_inst).expect("fair value should be available").0;
    assert!((fv - mu).abs() < 0.03, "implied fair value off: {fv}");
    let iv = eng.ctx.implied_vol(&sample_inst).expect("implied vol available").0;
    assert!((iv - scale * std::f64::consts::PI / 3.0f64.sqrt()).abs() < 0.02, "iv off: {iv}");
    let fp = eng.ctx.fitted_price(&sample_inst).expect("fitted price available").0;
    assert!(fp > 0.0 && fp < 1.0);
    assert!(eng.ctx.fit_quality(&sample_inst).unwrap().0 < 0.02);
    assert!(eng.ctx.implied_fair_value("NOT-A-LADDER").is_none());
}

#[test]
fn empty_run_produces_flat_report() {
    let cfg: BacktestConfig<F> = BacktestConfig::default();
    let eng = Engine::new(&cfg);
    let mut s = Noop;
    let r = eng.run(&[], &mut s, &cfg);
    assert_eq!(r.summary.starting_balance, F(1000.0));
    assert!((r.summary.ending_balance.0 - 1000.0).abs() < 1e-9);
}

fn trade(ts: i64, price: i32, size: f64) -> MarketEvent<F> {
    MarketEvent::Trade(TradeEvent {
        ts_ns: ts,
        instrument: "X".into(),
        aggressor_yes: false,
        price: Cents(price),
        size: F(size),
        trade_id: "t".into(),
    })
}

fn buy_trade(ts: i64, price: i32, size: f64) -> MarketEvent<F> {
    MarketEvent::Trade(TradeEvent {
        ts_ns: ts,
        instrument: "X".into(),
        aggressor_yes: true,
        price: Cents(price),
        size: F(size),
        trade_id: "t".into(),
    })
}

struct PlaceOnce {
    placed: bool,
}
impl Strategy<F> for PlaceOnce {
    fn name(&self) -> String {
        "place_once".to_string()
    }
    fn on_finish(&mut self, _ctx: &mut Ctx<F>) {}
    fn on_event(&mut self, _ev: &MarketEvent<F>, ctx: &mut Ctx<F>) {
        if !self.placed {
            ctx.place_limit("X", Side::Bid, Cents(45), F(10.0));
            self.placed = true;
        }
    }
}

#[test]
fn latency_gates_fill_until_activation() {
    let mut cfg: BacktestConfig<F> = BacktestConfig::default();
    cfg.flatten_at_end = false;
    cfg.execution.latency.enabled = true;
    cfg.execution.latency.order_latency_ns = 1_000_000_000;

    let evs = vec![
        delta(1_000_000_000, Side::Bid, 40, 100.0),
        delta(1_000_000_000, Side::Ask, 60, 100.0),
        trade(1_500_000_000, 40, 10.0),
        trade(2_500_000_000, 40, 10.0),
    ];
    let eng = Engine::new(&cfg);
    let mut s = PlaceOnce { placed: false };
    let r = eng.run(&evs, &mut s, &cfg);
    assert_eq!(r.summary.num_fills, 1, "should fill once, after activation");

    let mut cfg2: BacktestConfig<F> = BacktestConfig::default();
    cfg2.flatten_at_end = false;
    let evs2 = vec![
        delta(1_000_000_000, Side::Bid, 40, 100.0),
        delta(1_000_000_000, Side::Ask, 60, 100.0),
        trade(1_500_000_000, 40, 10.0),
    ];
    let eng2 = Engine::new(&cfg2);
    let mut s2 = PlaceOnce { placed: false };
    let r2 = eng2.run(&evs2, &mut s2, &cfg2);
    assert_eq!(r2.summary.num_fills, 1, "no-latency fills on first crossing trade");
}

struct Requoter {
    bid: Option<u64>,
    ask: Option<u64>,
}
impl Strategy<F> for Requoter {
    fn name(&self) -> String {
        "requoter".to_string()
    }
    fn on_finish(&mut self, _ctx: &mut Ctx<F>) {}
    fn on_event(&mut self, _ev: &MarketEvent<F>, ctx: &mut Ctx<F>) {
        if let Some(mid) = ctx.mid("X") {
            let mid_c = (mid.0 * 100.0).round() as i32;
            if let Some(id) = self.bid.take() {
                ctx.cancel(id);
            }
            if let Some(id) = self.ask.take() {
                ctx.cancel(id);
            }
            ctx.place_limit("X", Side::Bid, Cents(mid_c - 2), F(5.0));
            ctx.place_limit("X", Side::Ask, Cents(mid_c + 2), F(5.0));
        }
    }
}

fn busy_stream() -> Vec<MarketEvent<F>> {
    let s = 1_000_000_000i64;
    let mut evs = vec![
        delta(s, Side::Bid, 40, 100.0),
        delta(s, Side::Ask, 60, 100.0),
    ];
    for k in 0..40i64 {
        let ts = (2 + k) * s;
        let px = if k % 2 == 0 { 40 } else { 60 };
        evs.push(trade(ts, px, 5.0));
    }
    evs
}

#[test]
fn fixed_dist_is_byte_for_byte_default_and_seed_independent() {
    let mut base: BacktestConfig<F> = BacktestConfig::default();
    base.flatten_at_end = false;
    base.execution.latency.enabled = true;
    base.execution.latency.order_latency_ns = 500_000_000;
    base.execution.latency.jitter_ns = 100_000_000;

    let report_for = |cfg: &BacktestConfig<F>| {
        let eng = Engine::new(cfg);
        let mut s = Requoter { bid: None, ask: None };
        let r = eng.run(&busy_stream(), &mut s, cfg);
        format!("{r:?}")
    };

    let mut explicit = copied(&base);
    explicit.execution.latency.dist = LatencyDist::Fixed;
    assert_eq!(
        report_for(&base),
        report_for(&explicit),
        "explicit Fixed must equal the implicit default"
    );

    let mut seeded = copied(&base);
    seeded.execution.latency.seed = 999_999;
    assert_eq!(
        report_for(&base),
        report_for(&seeded),
        "Fixed dist must be seed-independent (byte-for-byte stable)"
    );
}

#[test]
fn uniform_dist_is_seed_reproducible_and_differs_from_fixed() {
    let mk = |dist: LatencyDist, seed: u64| {
        let mut cfg: BacktestConfig<F> = BacktestConfig::default();
        cfg.flatten_at_end = false;
        cfg.execution.latency.enabled = true;
        cfg.execution.latency.order_latency_ns = 500_000_000;
        cfg.execution.latency.dist = dist;
        cfg.execution.latency.seed = seed;
        let eng = Engine::new(&cfg);
        let mut s = Requoter { bid: None, ask: None };
        let r = eng.run(&busy_stream(), &mut s, &cfg);
        format!("{r:?}")
    };

    let uni = || LatencyDist::Uniform {
        min_ns: 0,
        max_ns: 5_000_000_000,
    };

    assert_eq!(mk(uni(), 1), mk(uni(), 1), "same seed must reproduce");
    assert_ne!(mk(uni(), 1), mk(uni(), 2), "different seeds must differ");
    let fixed = mk(LatencyDist::Fixed, 1);
    assert_ne!(fixed, mk(uni(), 1), "Uniform must differ from Fixed");
}

struct QuoteBoth {
    quoted: bool,
}
impl Strategy<F> for QuoteBoth {
    fn name(&self) -> String {
        "quote_both".to_string()
    }
    fn on_finish(&mut self, _ctx: &mut Ctx<F>) {}
    fn on_event(&mut self, ev: &MarketEvent<F>, ctx: &mut Ctx<F>) {
        if self.quoted {
            return;
        }
        if let Some(mid) = ctx.mid("X") {
            let mid_c = (mid.0 * 100.0).round() as i32;
            ctx.place_limit("X", Side::Bid, Cents(mid_c - 2), F(20.0));
            ctx.place_limit("X", Side::Ask, Cents(mid_c + 2), F(20.0));
            self.quoted = true;
            let _ = ev;
        }
    }
}

#[test]
fn incremental_core_matches_batch_run() {
    let evs = || {
        vec![
            delta(1_000_000_000, Side::Bid, 40, 100.0),
            delta(1_000_000_000, Side::Ask, 60, 100.0),
            trade(1_200_000_000, 60, 5.0),
            delta(1_300_000_000, Side::Bid, 48, 50.0),
            delta(1_300_000_000, Side::Ask, 52, 50.0),
            trade(1_400_000_000, 46, 10.0),
            buy_trade(2_000_000_000, 54, 8.0),
            delta(2_500_000_000, Side::Bid, 50, 30.0),
        ]
    };

    let cfg: BacktestConfig<F> = BacktestConfig::default();

    let eng_a = Engine::new(&cfg);
    let mut s_a = QuoteBoth { quoted: false };
    let batch = eng_a.run_collecting(&evs(), &mut s_a, &cfg);

    let mut eng_b = Engine::new(&cfg);
    let mut s_b = QuoteBoth { quoted: false };
    for ev in evs() {
        eng_b.step(&ev, &mut s_b);
        let now = eng_b.now_ns();
        eng_b.snapshot_maybe(now);
    }
    eng_b.finalize(&mut s_b, cfg.flatten_at_end);
    let incr = eng_b.into_report(&s_b.name(), &cfg);

    let ja = format!("{:?}", batch.report);
    let jb = format!("{:?}", incr.report);
    assert_eq!(ja, jb, "incremental core report != batch run report");

    assert_eq!(batch.portfolio.fills.len(), incr.portfolio.fills.len());
    assert_eq!(
        batch.portfolio.round_trips.len(),
        incr.portfolio.round_trips.len()
    );
    assert_eq!(batch.observed_trades.len(), incr.observed_trades.len());
    assert!((batch.portfolio.cash.0 - incr.portfolio.cash.0).abs() < 1e-12);
}

struct MarketOnce {
    sent: bool,
    side: Side,
    qty: f64,
}
impl Strategy<F> for MarketOnce {
    fn name(&self) -> String {
        "market_once".to_string()
    }
    fn on_finish(&mut self, _ctx: &mut Ctx<F>) {}
    fn on_event(&mut self, _ev: &MarketEvent<F>, ctx: &mut Ctx<F>) {
        if !self.sent {
            ctx.place_market("X", self.side, F(self.qty));
            self.sent = true;
        }
    }
}

#[test]
fn market_order_defers_until_activation_under_latency() {
    let mut cfg: BacktestConfig<F> = BacktestConfig::default();
    cfg.flatten_at_end = false;
    cfg.execution.latency.enabled = true;
    cfg.execution.latency.order_latency_ns = 1_000_000_000;

    let evs = vec![
        delta(1_000_000_000, Side::Ask, 60, 100.0),
        delta(1_500_000_000, Side::Bid, 50, 10.0),
        MarketEvent::Delta(BookDelta {
            ts_ns: 1_600_000_000,
            instrument: "X".into(),
            action: Action::Update,
            side: Side::Ask,
            price: Cents(60),
            size: F(0.0),
            sequence: 99,
            is_snapshot: false,
        }),
        delta(1_700_000_000, Side::Ask, 70, 100.0),
        delta(2_500_000_000, Side::Bid, 55, 5.0),
    ];
    let eng = Engine::new(&cfg);
    let mut s = MarketOnce {
        sent: false,
        side: Side::Bid,
        qty: 10.0,
    };
    let out = eng.run_collecting(&evs, &mut s, &cfg);
    assert_eq!(out.report.summary.num_fills, 1, "one taker fill after activation");
    let fill = &out.portfolio.fills[0];
    assert_eq!(fill.liquidity, Liquidity::Taker);
    assert_eq!(fill.qty, F(10.0));
    assert_eq!(fill.ts_ns, 2_500_000_000, "fill stamped at the activating event ts");
    assert_eq!(fill.price, Cents(70), "walked the latency-delayed book");
}

#[test]
fn market_order_fills_immediately_at_zero_latency() {
    let cfg: BacktestConfig<F> = BacktestConfig::default();
    assert!(!cfg.execution.latency.enabled);

    let evs = vec![delta(1_000_000_000, Side::Ask, 60, 100.0)];
    let eng = Engine::new(&cfg);
    let mut s = MarketOnce {
        sent: false,
        side: Side::Bid,
        qty: 10.0,
    };
    let out = eng.run_collecting(&evs, &mut s, &cfg);
    assert_eq!(out.report.summary.num_fills, 1, "immediate taker fill at zero latency");
    let fill = &out.portfolio.fills[0];
    assert_eq!(fill.liquidity, Liquidity::Taker);
    assert_eq!(fill.price, Cents(60));
    assert_eq!(fill.ts_ns, 1_000_000_000, "filled during the placing event");
}

#[test]
fn resting_limit_not_hit_before_activation() {
    let mut cfg: BacktestConfig<F> = BacktestConfig::default();
    cfg.flatten_at_end = false;
    cfg.execution.latency.enabled = true;
    cfg.execution.latency.order_latency_ns = 1_000_000_000;

    let evs = vec![
        delta(1_000_000_000, Side::Bid, 40, 100.0),
        delta(1_000_000_000, Side::Ask, 60, 100.0),
        trade(1_500_000_000, 40, 10.0),
    ];
    let eng = Engine::new(&cfg);
    let mut s = PlaceOnce { placed: false };
    let r = eng.run(&evs, &mut s, &cfg);
    assert_eq!(r.summary.num_fills, 0, "resting order must not fill before activation");
}

struct MarketEvery {
    side: Side,
    qty: f64,
    instrument: String,
}
impl Strategy<F> for MarketEvery {
    fn name(&self) -> String {
        "market_every".to_string()
    }
    fn on_finish(&mut self, _ctx: &mut Ctx<F>) {}
    fn on_event(&mut self, _ev: &MarketEvent<F>, ctx: &mut Ctx<F>) {
        ctx.place_market(&self.instrument, self.side, F(self.qty));
    }
}

fn delta_inst(inst: &str, ts: i64, side: Side, price: i32, size: f64) -> MarketEvent<F> {
    MarketEvent::Delta(BookDelta {
        ts_ns: ts,
        instrument: inst.into(),
        action: Action::Add,
        side,
        price: Cents(price),
        size: F(size),
        sequence: ts,
        is_snapshot: false,
    })
}

#[test]
fn max_position_clamps_open_but_not_flatten() {
    let mut cfg: BacktestConfig<F> = BacktestConfig::default();
    cfg.flatten_at_end = false;
    cfg.execution.risk.max_position_per_instrument = Some(F(30.0));

    let evs = vec![
        delta(1_000_000_000, Side::Ask, 60, 1000.0),
        delta(1_100_000_000, Side::Ask, 60, 1000.0),
        delta(1_200_000_000, Side::Ask, 60, 1000.0),
    ];
    let eng = Engine::new(&cfg);
    let mut s = MarketEvery {
        side: Side::Bid,
        qty: 100.0,
        instrument: "X".into(),
    };
    let out = eng.run_collecting(&evs, &mut s, &cfg);
    assert!((out.portfolio.positions.get("X").unwrap().net_qty.0 - 30.0).abs() < 1e-9,
        "net should be clamped to 30, got {}", out.portfolio.positions.get("X").unwrap().net_qty.0);
    assert!(out.report.summary.risk_rejections >= 1);

    let mut cfg2: BacktestConfig<F> = BacktestConfig::default();
    cfg2.flatten_at_end = false;
    cfg2.execution.risk.max_position_per_instrument = Some(F(30.0));
    let evs2 = vec![
        delta(1_000_000_000, Side::Bid, 40, 1000.0),
        delta(1_000_000_000, Side::Ask, 60, 1000.0),
        delta(1_100_000_000, Side::Bid, 40, 1000.0),
        delta(1_200_000_000, Side::Bid, 40, 1000.0),
    ];
    let eng2 = Engine::new(&cfg2);
    let mut s2 = OpenThenFlatten { opened: false, flattened: false };
    let out2 = eng2.run_collecting(&evs2, &mut s2, &cfg2);
    let net = out2.portfolio.positions.get("X").map(|p| p.net_qty.0).unwrap_or(0.0);
    assert!(net.abs() < 1e-9, "flattening order must fully close the position, net={net}");
}

#[test]
fn max_gross_caps_total_across_instruments() {
    let mut cfg: BacktestConfig<F> = BacktestConfig::default();
    cfg.flatten_at_end = false;
    cfg.execution.risk.max_gross_position = Some(F(50.0));

    let evs = vec![
        delta_inst("A", 1_000_000_000, Side::Ask, 60, 1000.0),
        delta_inst("B", 1_100_000_000, Side::Ask, 60, 1000.0),
    ];
    let eng = Engine::new(&cfg);
    let mut s = TwoInst { step: 0 };
    let out = eng.run_collecting(&evs, &mut s, &cfg);
    let a = out.portfolio.positions.get("A").unwrap().net_qty.0;
    let b = out.portfolio.positions.get("B").unwrap().net_qty.0;
    assert!((a - 40.0).abs() < 1e-9, "A net {a}");
    assert!((b - 10.0).abs() < 1e-9, "B clamped to gross headroom, net {b}");
    assert!((a.abs() + b.abs() - 50.0).abs() < 1e-9, "gross must equal cap");
}

#[test]
fn equity_floor_halts_and_flattens() {
    let mut cfg: BacktestConfig<F> = BacktestConfig::default();
    cfg.starting_balance = F(100.0);
    cfg.flatten_at_end = true;
    cfg.execution.risk.equity_floor = Some(F(50.0));

    let evs = vec![
        delta(1_000_000_000, Side::Bid, 58, 1000.0),
        delta(1_000_000_000, Side::Ask, 60, 1000.0),
        delta(1_900_000_000, Side::Bid, 4, 1000.0),
        delta(1_900_000_000, Side::Ask, 6, 1000.0),
        MarketEvent::Delta(BookDelta {
            ts_ns: 2_000_000_000, instrument: "X".into(), action: Action::Update,
            side: Side::Bid, price: Cents(58), size: F(0.0), sequence: 10, is_snapshot: false,
        }),
        MarketEvent::Delta(BookDelta {
            ts_ns: 2_000_000_000, instrument: "X".into(), action: Action::Update,
            side: Side::Ask, price: Cents(60), size: F(0.0), sequence: 11, is_snapshot: false,
        }),
        delta(3_000_000_000, Side::Ask, 6, 1000.0),
    ];
    let eng = Engine::new(&cfg);
    let mut s = BuyOnce { done: false };
    let out = eng.run_collecting(&evs, &mut s, &cfg);
    assert!(out.report.summary.halted, "run should have halted");
    assert!(out.report.summary.halt_reason.contains("equity_floor"), "{}", out.report.summary.halt_reason);
    let net = out.portfolio.positions.get("X").map(|p| p.net_qty.0).unwrap_or(0.0);
    assert!(net.abs() < 1e-9, "must be flat after halt, net={net}");
    let halt_ts = 2_000_000_000;
    let fills_after: Vec<_> = out.portfolio.fills.iter().filter(|f| f.ts_ns > halt_ts).collect();
    assert!(fills_after.is_empty(), "no fills after the halt ts, got {}", fills_after.len());
    assert_eq!(out.portfolio.fills.len(), 2, "open + flatten only");
}

#[test]
fn max_drawdown_pct_halts() {
    let mut cfg: BacktestConfig<F> = BacktestConfig::default();
    cfg.starting_balance = F(100.0);
    cfg.flatten_at_end = true;
    cfg.execution.risk.max_drawdown_pct = Some(F(40.0));

    let evs = vec![
        delta(1_000_000_000, Side::Bid, 58, 1000.0),
        delta(1_000_000_000, Side::Ask, 60, 1000.0),
        delta(1_900_000_000, Side::Bid, 4, 1000.0),
        delta(1_900_000_000, Side::Ask, 6, 1000.0),
        MarketEvent::Delta(BookDelta {
            ts_ns: 2_000_000_000, instrument: "X".into(), action: Action::Update,
            side: Side::Bid, price: Cents(58), size: F(0.0), sequence: 10, is_snapshot: false,
        }),
        MarketEvent::Delta(BookDelta {
            ts_ns: 2_000_000_000, instrument: "X".into(), action: Action::Update,
            side: Side::Ask, price: Cents(60), size: F(0.0), sequence: 11, is_snapshot: false,
        }),
    ];
    let eng = Engine::new(&cfg);
    let mut s = BuyOnce { done: false };
    let mut s = BuyOnce { done: false };
    let out = eng.run_collecting(&evs, &mut s, &cfg);
    assert!(out.report.summary.halted, "drawdown should halt");
    assert!(out.report.summary.halt_reason.contains("drawdown"), "{}", out.report.summary.halt_reason);
    let net = out.portfolio.positions.get("X").map(|p| p.net_qty.0).unwrap_or(0.0);
    assert!(net.abs() < 1e-9, "flat after halt");
}

#[test]
fn risk_defaults_reproduce_report_byte_for_byte() {
    let evs = || {
        vec![
            delta(1_000_000_000, Side::Bid, 40, 100.0),
            delta(1_000_000_000, Side::Ask, 60, 100.0),
            trade(1_200_000_000, 60, 5.0),
            delta(1_300_000_000, Side::Bid, 48, 50.0),
            delta(1_300_000_000, Side::Ask, 52, 50.0),
            trade(1_400_000_000, 46, 10.0),
            buy_trade(2_000_000_000, 54, 8.0),
            delta(2_500_000_000, Side::Bid, 50, 30.0),
        ]
    };

    let cfg_base: BacktestConfig<F> = BacktestConfig::default();
    let eng_a = Engine::new(&cfg_base);
    let mut s_a = QuoteBoth { quoted: false };
    let base = eng_a.run_collecting(&evs(), &mut s_a, &cfg_base);

    let mut cfg_risk: BacktestConfig<F> = BacktestConfig::default();
    cfg_risk.execution.risk = RiskConfig::default();
    let eng_b = Engine::new(&cfg_risk);
    let mut s_b = QuoteBoth { quoted: false };
    let risk = eng_b.run_collecting(&evs(), &mut s_b, &cfg_risk);

    let ja = format!("{:?}", base.report);
    let jb = format!("{:?}", risk.report);
    assert_eq!(ja, jb, "risk-default report must be byte-identical to the no-risk baseline");
    assert!(!risk.report.summary.halted);
    assert!(risk.report.summary.halt_reason.is_empty());
    assert_eq!(risk.report.summary.risk_rejections, 0);
}

#[test]
fn noop_does_not_trade() {
    let cfg: BacktestConfig<F> = BacktestConfig::default();
    let eng = Engine::new(&cfg);
    let mut s = Noop;
    let evs = vec![
        delta(1_000_000_000, Side::Bid, 40, 100.0),
        delta(1_000_000_000, Side::Ask, 60, 100.0),
    ];
    let r = eng.run(&evs, &mut s, &cfg);
    assert_eq!(r.summary.total_orders, 0);
    assert!((r.summary.ending_balance.0 - 1000.0).abs() < 1e-9);
}

struct LimitExOnce {
    placed: bool,
    side: Side,
    price: Cents,
    qty: f64,
    tif: Tif,
    post_only: bool,
}
impl Strategy<F> for LimitExOnce {
    fn name(&self) -> String {
        "limit_ex_once".to_string()
    }
    fn on_finish(&mut self, _ctx: &mut Ctx<F>) {}
    fn on_event(&mut self, _ev: &MarketEvent<F>, ctx: &mut Ctx<F>) {
        if self.placed {
            return;
        }
        let ready = match self.side {
            Side::Bid => ctx.best_ask("X").is_some(),
            Side::Ask => ctx.best_bid("X").is_some(),
        };
        if ready {
            ctx.place_limit_ex("X", self.side, self.price, F(self.qty), self.tif, self.post_only);
            self.placed = true;
        }
    }
}

#[test]
fn post_only_marketable_is_rejected_and_counted() {
    let mut cfg: BacktestConfig<F> = BacktestConfig::default();
    cfg.flatten_at_end = false;
    let evs = vec![
        delta(1_000_000_000, Side::Bid, 40, 100.0),
        delta(1_000_000_000, Side::Ask, 60, 100.0),
    ];
    let mut eng2 = Engine::new(&cfg);
    let mut s2 = LimitExOnce {
        placed: false,
        side: Side::Bid,
        price: Cents(60),
        qty: 10.0,
        tif: Tif::Gtc,
        post_only: true,
    };
    for ev in &evs {
        eng2.step(ev, &mut s2);
    }
    assert!(eng2.resting_orders().is_empty(), "post-only marketable must not rest");
    assert_eq!(eng2.portfolio().post_only_rejects, 1, "must count the rejection");
    assert_eq!(eng2.portfolio().total_fills, 0, "post-only marketable must not fill");
    assert!(eng2.portfolio().positions.get("X").map(|p| p.net_qty.0).unwrap_or(0.0).abs() < 1e-9);
}

#[test]
fn post_only_non_marketable_rests_and_fills_as_maker() {
    let mut cfg: BacktestConfig<F> = BacktestConfig::default();
    cfg.flatten_at_end = false;
    let evs = vec![
        delta(1_000_000_000, Side::Bid, 40, 100.0),
        delta(1_000_000_000, Side::Ask, 60, 100.0),
        trade(1_500_000_000, 45, 10.0),
    ];
    let eng = Engine::new(&cfg);
    let mut s = LimitExOnce {
        placed: false,
        side: Side::Bid,
        price: Cents(45),
        qty: 10.0,
        tif: Tif::Gtc,
        post_only: true,
    };
    let out = eng.run_collecting(&evs, &mut s, &cfg);
    assert_eq!(out.report.summary.post_only_rejects, 0, "non-marketable: no rejection");
    assert_eq!(out.report.summary.num_fills, 1, "should rest then fill as maker");
    assert_eq!(out.portfolio.fills[0].liquidity, Liquidity::Maker);
    assert_eq!(out.portfolio.fills[0].price, Cents(45));
}

#[test]
fn ioc_fills_crossable_part_and_does_not_rest() {
    let mut cfg: BacktestConfig<F> = BacktestConfig::default();
    cfg.flatten_at_end = false;
    let evs = vec![
        delta(1_000_000_000, Side::Ask, 60, 5.0),
        delta(1_000_000_000, Side::Ask, 62, 100.0),
    ];
    let mut eng = Engine::new(&cfg);
    let mut s = LimitExOnce {
        placed: false,
        side: Side::Bid,
        price: Cents(60),
        qty: 50.0,
        tif: Tif::Ioc,
        post_only: false,
    };
    for ev in &evs {
        eng.step(ev, &mut s);
    }
    let pf = eng.portfolio();
    assert_eq!(pf.total_fills, 1, "one taker fill of the crossable part");
    assert_eq!(pf.fills[0].liquidity, Liquidity::Taker);
    assert_eq!(pf.fills[0].qty, F(5.0), "bounded by liquidity inside the limit price");
    assert_eq!(pf.fills[0].price, Cents(60));
    assert!((pf.positions.get("X").unwrap().net_qty.0 - 5.0).abs() < 1e-9);
    assert!(eng.resting_orders().is_empty(), "IOC must not rest the remainder");
}

#[test]
fn gtc_marketable_takes_then_rests_remainder() {
    let mut cfg: BacktestConfig<F> = BacktestConfig::default();
    cfg.flatten_at_end = false;
    let evs = vec![
        delta(1_000_000_000, Side::Bid, 40, 100.0),
        delta(1_000_000_000, Side::Ask, 60, 5.0),
        trade(1_500_000_000, 60, 15.0),
    ];
    let eng = Engine::new(&cfg);
    let mut s = LimitExOnce {
        placed: false,
        side: Side::Bid,
        price: Cents(60),
        qty: 20.0,
        tif: Tif::Gtc,
        post_only: false,
    };
    let out = eng.run_collecting(&evs, &mut s, &cfg);
    assert_eq!(out.report.summary.num_fills, 2);
    assert_eq!(out.portfolio.fills[0].liquidity, Liquidity::Taker);
    assert_eq!(out.portfolio.fills[0].qty, F(5.0));
    assert_eq!(out.portfolio.fills[1].liquidity, Liquidity::Maker);
    assert_eq!(out.portfolio.fills[1].qty, F(15.0));
    assert_eq!(out.report.summary.total_orders, 1);
}

#[test]
fn latency_defers_marketable_limit_take() {
    let mut cfg: BacktestConfig<F> = BacktestConfig::default();
    cfg.flatten_at_end = false;
    cfg.execution.latency.enabled = true;
    cfg.execution.latency.order_latency_ns = 1_000_000_000;

    let evs = vec![
        delta(1_000_000_000, Side::Ask, 60, 100.0),
        MarketEvent::Delta(BookDelta {
            ts_ns: 1_500_000_000,
            instrument: "X".into(),
            action: Action::Update,
            side: Side::Ask,
            price: Cents(60),
            size: F(0.0),
            sequence: 50,
            is_snapshot: false,
        }),
        delta(1_600_000_000, Side::Ask, 70, 100.0),
        delta(2_500_000_000, Side::Bid, 55, 5.0),
    ];
    let mut eng = Engine::new(&cfg);
    let mut s = LimitExOnce {
        placed: false,
        side: Side::Bid,
        price: Cents(60),
        qty: 10.0,
        tif: Tif::Gtc,
        post_only: false,
    };
    for ev in &evs {
        eng.step(ev, &mut s);
    }
    assert_eq!(eng.portfolio().total_fills, 0, "no take: marketability judged at activation");
    assert_eq!(eng.resting_orders().len(), 1, "non-marketable-at-activation order should rest");
}

struct RestBidOnce {
    placed: bool,
    price: Cents,
    qty: f64,
}
impl Strategy<F> for RestBidOnce {
    fn name(&self) -> String {
        "rest_bid_once".to_string()
    }
    fn on_finish(&mut self, _ctx: &mut Ctx<F>) {}
    fn on_event(&mut self, _ev: &MarketEvent<F>, ctx: &mut Ctx<F>) {
        if !self.placed {
            ctx.place_limit("X", Side::Bid, self.price, F(self.qty));
            self.placed = true;
        }
    }
}

fn queue_test_events() -> Vec<MarketEvent<F>> {
    vec![
        delta(1_000_000_000, Side::Bid, 45, 100.0),
        delta(1_000_000_000, Side::Ask, 60, 100.0),
        MarketEvent::Delta(BookDelta {
            ts_ns: 1_500_000_000,
            instrument: "X".into(),
            action: Action::Update,
            side: Side::Bid,
            price: Cents(45),
            size: F(30.0),
            sequence: 10,
            is_snapshot: false,
        }),
        trade(2_000_000_000, 45, 50.0),
    ]
}

#[test]
fn pessimistic_queue_does_not_advance_on_cancel() {
    let mut cfg: BacktestConfig<F> = BacktestConfig::default();
    cfg.flatten_at_end = false;
    assert_eq!(cfg.execution.queue.model, QueueModel::Pessimistic);
    let eng = Engine::new(&cfg);
    let mut s = RestBidOnce { placed: false, price: Cents(45), qty: 10.0 };
    let out = eng.run_collecting(&queue_test_events(), &mut s, &cfg);
    assert_eq!(out.report.summary.num_fills, 0, "pessimistic: trade only burns queue, no fill");
}

#[test]
fn optimistic_queue_advances_on_cancel_and_fills_sooner() {
    let mut cfg: BacktestConfig<F> = BacktestConfig::default();
    cfg.flatten_at_end = false;
    cfg.execution.queue.model = QueueModel::Optimistic;
    let eng = Engine::new(&cfg);
    let mut s = RestBidOnce { placed: false, price: Cents(45), qty: 10.0 };
    let out = eng.run_collecting(&queue_test_events(), &mut s, &cfg);
    assert_eq!(out.report.summary.num_fills, 1, "optimistic: cancel advances queue -> fill");
    assert_eq!(out.portfolio.fills[0].liquidity, Liquidity::Maker);
    assert_eq!(out.portfolio.fills[0].qty, F(10.0));
}

#[test]
fn queue_default_reproduces_report_byte_for_byte() {
    let evs = || {
        vec![
            delta(1_000_000_000, Side::Bid, 40, 100.0),
            delta(1_000_000_000, Side::Ask, 60, 100.0),
            trade(1_200_000_000, 60, 5.0),
            delta(1_300_000_000, Side::Bid, 48, 50.0),
            delta(1_300_000_000, Side::Ask, 52, 50.0),
            trade(1_400_000_000, 46, 10.0),
            buy_trade(2_000_000_000, 54, 8.0),
            delta(2_500_000_000, Side::Bid, 50, 30.0),
        ]
    };
    let cfg_a: BacktestConfig<F> = BacktestConfig::default();
    let eng_a = Engine::new(&cfg_a);
    let mut s_a = QuoteBoth { quoted: false };
    let a = eng_a.run_collecting(&evs(), &mut s_a, &cfg_a);

    let mut cfg_b: BacktestConfig<F> = BacktestConfig::default();
    cfg_b.execution.queue = QueueConfig::default();
    let eng_b = Engine::new(&cfg_b);
    let mut s_b = QuoteBoth { quoted: false };
    let b = eng_b.run_collecting(&evs(), &mut s_b, &cfg_b);

    let ja = format!("{:?}", a.report);
    let jb = format!("{:?}", b.report);
    assert_eq!(ja, jb, "pessimistic (default) must reproduce the baseline byte-for-byte");
    assert_eq!(a.report.summary.post_only_rejects, 0);
}

struct BuyAndHold {
    done: bool,
    side: Side,
    qty: f64,
}
impl Strategy<F> for BuyAndHold {
    fn name(&self) -> String {
        "buy_and_hold".to_string()
    }
    fn on_finish(&mut self, _ctx: &mut Ctx<F>) {}
    fn on_event(&mut self, _ev: &MarketEvent<F>, ctx: &mut Ctx<F>) {
        if !self.done && ctx.best_bid("X").is_some() && ctx.best_ask("X").is_some() {
            ctx.place_market("X", self.side, F(self.qty));
            self.done = true;
        }
    }
}

#[test]
fn long_settles_to_one_on_yes() {
    let mut cfg: BacktestConfig<F> = BacktestConfig::default();
    cfg.flatten_at_end = true;
    cfg.execution.include_fees = false;
    let evs = vec![
        delta(1_000_000_000, Side::Bid, 5, 1000.0),
        delta(1_000_000_000, Side::Ask, 7, 1000.0),
        delta(2_000_000_000, Side::Bid, 5, 1000.0),
    ];
    let mut eng = Engine::new(&cfg);
    eng.set_settlement_map(outcomes("X", Outcome::Yes));
    let mut s = BuyAndHold {
        done: false,
        side: Side::Bid,
        qty: 100.0,
    };
    let out = eng.run_collecting(&evs, &mut s, &cfg);
    assert!((out.report.summary.settled_pnl.0 - 93.0).abs() < 1e-9, "settled_pnl {}", out.report.summary.settled_pnl.0);
    assert_eq!(out.report.summary.num_settled, 1);
    assert!((out.portfolio.cash.0 - 1093.0).abs() < 1e-9, "cash {}", out.portfolio.cash.0);
    assert!((out.report.summary.ending_balance.0 - 1093.0).abs() < 1e-6,
        "ending balance should reflect $1 payoff, got {}", out.report.summary.ending_balance.0);
    assert!(out.portfolio.positions.get("X").unwrap().net_qty.0.abs() < 1e-9);
    let last = out.portfolio.fills.last().unwrap();
    assert_eq!(last.liquidity, Liquidity::Settle);
    assert_eq!(last.fee, F(0.0));
    assert_eq!(out.report.summary.total_fees, F(0.0), "settlement charges no fee");
}

#[test]
fn short_settles_to_zero_on_no() {
    let mut cfg: BacktestConfig<F> = BacktestConfig::default();
    cfg.flatten_at_end = true;
    cfg.execution.include_fees = false;
    let evs = vec![
        delta(1_000_000_000, Side::Bid, 93, 1000.0),
        delta(1_000_000_000, Side::Ask, 95, 1000.0),
        delta(2_000_000_000, Side::Bid, 93, 1000.0),
    ];
    let mut eng = Engine::new(&cfg);
    eng.set_settlement_map(outcomes("X", Outcome::No));
    let mut s = BuyAndHold {
        done: false,
        side: Side::Ask,
        qty: 100.0,
    };
    let out = eng.run_collecting(&evs, &mut s, &cfg);
    assert!((out.report.summary.settled_pnl.0 - 93.0).abs() < 1e-9, "settled_pnl {}", out.report.summary.settled_pnl.0);
    assert_eq!(out.report.summary.num_settled, 1);
    assert!((out.portfolio.cash.0 - 1093.0).abs() < 1e-9, "cash {}", out.portfolio.cash.0);
    assert!((out.report.summary.ending_balance.0 - 1093.0).abs() < 1e-6, "ending {}", out.report.summary.ending_balance.0);
    assert!(out.portfolio.positions.get("X").unwrap().net_qty.0.abs() < 1e-9);
    let last = out.portfolio.fills.last().unwrap();
    assert_eq!(last.liquidity, Liquidity::Settle);
    assert_eq!(last.price, Cents(0));
}

#[test]
fn unknown_instrument_still_flattens_at_mid() {
    let mut cfg: BacktestConfig<F> = BacktestConfig::default();
    cfg.flatten_at_end = true;
    let evs = vec![
        delta(1_000_000_000, Side::Bid, 40, 1000.0),
        delta(1_000_000_000, Side::Ask, 60, 1000.0),
        delta(2_000_000_000, Side::Bid, 40, 1000.0),
    ];
    let mut eng = Engine::new(&cfg);
    eng.set_settlement_map(outcomes("OTHER", Outcome::Yes));
    let mut s = BuyAndHold {
        done: false,
        side: Side::Bid,
        qty: 100.0,
    };
    let out = eng.run_collecting(&evs, &mut s, &cfg);
    assert_eq!(out.report.summary.num_settled, 0, "unknown instrument must not settle");
    assert!((out.report.summary.settled_pnl.0).abs() < 1e-12);
    assert!(out.portfolio.positions.get("X").unwrap().net_qty.0.abs() < 1e-9, "flattened to zero");
    let last = out.portfolio.fills.last().unwrap();
    assert_ne!(last.liquidity, Liquidity::Settle, "should be a flatten (Taker), not a Settle");
}

#[test]
fn no_settlements_reproduce_report_byte_for_byte() {
    let evs = || {
        vec![
            delta(1_000_000_000, Side::Bid, 40, 100.0),
            delta(1_000_000_000, Side::Ask, 60, 100.0),
            trade(1_200_000_000, 60, 5.0),
            delta(1_300_000_000, Side::Bid, 48, 50.0),
            delta(1_300_000_000, Side::Ask, 52, 50.0),
            trade(1_400_000_000, 46, 10.0),
            buy_trade(2_000_000_000, 54, 8.0),
            delta(2_500_000_000, Side::Bid, 50, 30.0),
        ]
    };
    let cfg: BacktestConfig<F> = BacktestConfig::default();
    let eng_a = Engine::new(&cfg);
    let mut s_a = QuoteBoth { quoted: false };
    let base = eng_a.run_collecting(&evs(), &mut s_a, &cfg);

    let mut eng_b = Engine::new(&cfg);
    eng_b.set_settlement_map(SettlementMap::new());
    let mut s_b = QuoteBoth { quoted: false };
    let empty = eng_b.run_collecting(&evs(), &mut s_b, &cfg);

    let ja = format!("{:?}", base.report);
    let jb = format!("{:?}", empty.report);
    assert_eq!(ja, jb, "no-settlement report must be byte-identical to the baseline");
    assert_eq!(base.report.summary.num_settled, 0);
    assert!((base.report.summary.settled_pnl.0).abs() < 1e-12);
}

struct BuyEachInstrument {
    bought: std::collections::BTreeSet<String>,
}
impl Strategy<F> for BuyEachInstrument {
    fn name(&self) -> String {
        "buy_each".to_string()
    }
    fn on_finish(&mut self, _ctx: &mut Ctx<F>) {}
    fn on_event(&mut self, ev: &MarketEvent<F>, ctx: &mut Ctx<F>) {
        let inst = ev.instrument().to_string();
        if !self.bought.contains(&inst) && ctx.best_ask(&inst).is_some() {
            ctx.place_market(&inst, Side::Bid, F(7.0));
            self.bought.insert(inst);
        }
    }
}

fn multi_instrument_stream() -> Vec<MarketEvent<F>> {
    let d = |ts: i64, inst: &str, side: Side, price: i32, size: f64| {
        MarketEvent::Delta(BookDelta {
            ts_ns: ts,
            instrument: inst.into(),
            action: Action::Add,
            side,
            price: Cents(price),
            size: F(size),
            sequence: ts,
            is_snapshot: false,
        })
    };
    vec![
        d(1_000_000_000, "AAA", Side::Bid, 40, 100.0),
        d(1_000_000_000, "AAA", Side::Ask, 60, 100.0),
        d(1_000_000_000, "BBB", Side::Bid, 30, 100.0),
        d(1_000_000_000, "BBB", Side::Ask, 70, 100.0),
        d(2_000_000_000, "AAA", Side::Bid, 41, 50.0),
        d(2_000_000_000, "BBB", Side::Bid, 31, 50.0),
        d(3_000_000_000, "AAA", Side::Ask, 59, 50.0),
        d(3_000_000_000, "BBB", Side::Ask, 69, 50.0),
        d(4_000_000_000, "AAA", Side::Bid, 42, 25.0),
        d(4_000_000_000, "BBB", Side::Ask, 68, 25.0),
    ]
}

#[test]
fn multi_instrument_run_is_byte_for_byte_deterministic() {
    let cfg: BacktestConfig<F> = BacktestConfig::default();

    let run = || {
        let eng = Engine::new(&cfg);
        let mut s = BuyEachInstrument {
            bought: std::collections::BTreeSet::new(),
        };
        let out = eng.run_collecting(&multi_instrument_stream(), &mut s, &cfg);
        out
    };

    let a = run();
    let b = run();

    assert!(a.report.summary.total_positions >= 2, "expected two instruments held");

    let ja = format!("{:?}", a.report);
    let jb = format!("{:?}", b.report);
    assert_eq!(
        ja, jb,
        "multi-instrument report must be byte-for-byte identical across runs"
    );

    let keys: Vec<String> = (0..a.portfolio.positions.len())
        .map(|i| a.portfolio.positions.key_at(i).clone())
        .collect();
    let mut sorted = keys.clone();
    sorted.sort();
    assert_eq!(keys, sorted, "positions must iterate in sorted (deterministic) key order");
    assert!(keys.len() >= 2, "expected at least 2 instruments in the positions map");
}

struct Reverse {
    step: usize,
}
impl Strategy<F> for Reverse {
    fn name(&self) -> String {
        "reverse".to_string()
    }
    fn on_event(&mut self, _ev: &MarketEvent<F>, ctx: &mut Ctx<F>) {
        if self.step == 1 {
            ctx.place_market("X", Side::Bid, F(50.0));
        } else if self.step == 2 {
            ctx.place_market("X", Side::Ask, F(100.0));
        }
        self.step += 1;
    }
    fn on_finish(&mut self, _ctx: &mut Ctx<F>) {}
}

#[test]
fn caps_hold_orders_that_reverse_a_position() {
    let evs = vec![
        delta(1_000_000_000, Side::Bid, 40, 1000.0),
        delta(1_100_000_000, Side::Ask, 60, 1000.0),
        delta(1_200_000_000, Side::Bid, 39, 1000.0),
    ];
    for gross in [false, true] {
        let mut cfg: BacktestConfig<F> = BacktestConfig::default();
        cfg.flatten_at_end = false;
        if gross {
            cfg.execution.risk.max_gross_position = Some(F(10.0));
        } else {
            cfg.execution.risk.max_position_per_instrument = Some(F(10.0));
        }
        let out = Engine::new(&cfg).run_collecting(&evs, &mut Reverse { step: 0 }, &cfg);
        let qtys: Vec<f64> = out.portfolio.fills.iter().map(|f| f.qty.0).collect();
        assert_eq!(qtys, vec![10.0, 20.0]);
        assert_eq!(out.portfolio.positions.get("X").unwrap().net_qty, F(-10.0));
    }
}

struct Nothing;
impl Strategy<F> for Nothing {
    fn name(&self) -> String {
        "nothing".to_string()
    }
    fn on_event(&mut self, _ev: &MarketEvent<F>, ctx: &mut Ctx<F>) {
        ctx.place_market("X", Side::Bid, F(0.0));
    }
    fn on_finish(&mut self, _ctx: &mut Ctx<F>) {}
}

#[test]
fn dropped_orders_are_rejections() {
    let evs = vec![delta(1_000_000_000, Side::Bid, 40, 1000.0)];
    let mut cfg: BacktestConfig<F> = BacktestConfig::default();
    cfg.execution.risk.max_order_qty = Some(F(10.0));
    let out = Engine::new(&cfg).run_collecting(&evs, &mut Nothing, &cfg);
    assert_eq!(out.report.summary.risk_rejections, 1);
    let free: BacktestConfig<F> = BacktestConfig::default();
    let out = Engine::new(&free).run_collecting(&evs, &mut Nothing, &free);
    assert_eq!(out.report.summary.risk_rejections, 0);
}
