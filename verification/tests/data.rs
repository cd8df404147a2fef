use kalshi_backtester::adapters::{
    tag_events_with_venue, AdapterRegistry, Instrument, Venue,
};
use kalshi_backtester::data::clickhouse_schema::ClickHouseSchema;
use kalshi_backtester::data::glob_match;
use kalshi_backtester::data::summary::summarize;
use kalshi_backtester::latency::SplitMix64;
use kalshi_backtester::number::{Analytic, Number};
use kalshi_backtester::types::{Action, BookDelta, Cents, MarketEvent, Side, TradeEvent};

/// Double-precision numbers.
#[derive(Debug, Clone, Copy, PartialEq, PartialOrd)]
struct F(f64);

impl Number for F {
    fn from_int(n: i64) -> F {
        F(n as f64)
    }
    fn infinity() -> F {
        F(f64::INFINITY)
    }
    fn plus(self, other: F) -> F {
        F(self.0 + other.0)
    }
    fn minus(self, other: F) -> F {
        F(self.0 - other.0)
    }
    fn times(self, other: F) -> F {
        F(self.0 * other.0)
    }
    fn over(self, other: F) -> F {
        F(self.0 / other.0)
    }
    fn neg(self) -> F {
        F(-self.0)
    }
    fn abs(self) -> F {
        F(self.0.abs())
    }
    fn min(self, other: F) -> F {
        F(self.0.min(other.0))
    }
    fn max(self, other: F) -> F {
        F(self.0.max(other.0))
    }
    fn ceil(self) -> F {
        F(self.0.ceil())
    }
    fn round(self) -> F {
        F(self.0.round())
    }
    fn fract(self) -> F {
        F(self.0.fract())
    }
    fn sqrt(self) -> F {
        F(self.0.sqrt())
    }
    fn is_below(self, other: F) -> bool {
        self.0 < other.0
    }
    fn is_at_most(self, other: F) -> bool {
        self.0 <= other.0
    }
    fn is_equal(self, other: F) -> bool {
        self.0 == other.0
    }
    fn is_finite(self) -> bool {
        self.0.is_finite()
    }
    fn to_int(self) -> i64 {
        self.0 as i64
    }
    fn parse(s: &str) -> Option<F> {
        s.parse::<f64>().ok().map(F)
    }
    fn text(self) -> String {
        format!("{}", self.0)
    }
    fn fixed(self, decimals: usize) -> String {
        format!("{:.*}", decimals, self.0)
    }
}

impl Analytic for F {
    fn ln(self) -> F {
        F(self.0.ln())
    }
    fn exp(self) -> F {
        F(self.0.exp())
    }
    fn cos(self) -> F {
        F(self.0.cos())
    }
    fn tau() -> F {
        F(std::f64::consts::TAU)
    }
}

#[test]
fn instrument_parse_display_roundtrip() {
    let cases = [
        ("KALSHI:KXNATGASD-26JUN0417-T2.700", Venue::Kalshi, "KXNATGASD-26JUN0417-T2.700"),
        ("POLYMARKET:0xabc123", Venue::Polymarket, "0xabc123"),
        ("HYPERLIQUID:BTC-PERP", Venue::Hyperliquid, "BTC-PERP"),
        ("CME:ESZ5", Venue::Cme, "ESZ5"),
        ("FOO:bar", Venue::Generic("FOO".into()), "bar"),
    ];
    for (id, venue, sym) in cases {
        let inst = Instrument::parse(id);
        assert_eq!(inst.venue, venue, "venue for {id}");
        assert_eq!(inst.symbol, sym, "symbol for {id}");
        assert_eq!(inst.id(), id);
        assert_eq!(inst.to_text(), id);
        let viafs: Instrument = id.parse().unwrap();
        assert_eq!(viafs, inst);
    }
}

#[test]
fn bare_id_defaults_to_kalshi_and_keeps_colons_in_symbol() {
    let inst = Instrument::parse("KXNATGASD-X");
    assert_eq!(inst.venue, Venue::Kalshi);
    assert_eq!(inst.symbol, "KXNATGASD-X");
    let inst2 = Instrument::parse("POLYMARKET:cond:0xdead");
    assert_eq!(inst2.venue, Venue::Polymarket);
    assert_eq!(inst2.symbol, "cond:0xdead");
    assert_eq!(inst2.id(), "POLYMARKET:cond:0xdead");
}

#[test]
fn venue_tag_roundtrip_and_aliases() {
    assert_eq!(Venue::from_tag("poly"), Venue::Polymarket);
    assert_eq!(Venue::from_tag("HL"), Venue::Hyperliquid);
    assert_eq!(Venue::Generic("xyz".into()).tag(), "XYZ");
    assert_eq!(Venue::Kalshi.to_text(), "KALSHI");
}

#[test]
fn tag_events_stamps_and_is_idempotent() {
    let mut evs = vec![MarketEvent::Delta(BookDelta {
        ts_ns: 1,
        instrument: "SYMA".into(),
        action: Action::Add,
        side: Side::Bid,
        price: Cents(40),
        size: F(10.0),
        sequence: 1,
        is_snapshot: false,
    })];
    tag_events_with_venue(&mut evs, &Venue::Polymarket);
    assert_eq!(evs[0].instrument(), "POLYMARKET:SYMA");
    tag_events_with_venue(&mut evs, &Venue::Polymarket);
    assert_eq!(evs[0].instrument(), "POLYMARKET:SYMA");
}

#[test]
fn registry_resolution() {
    let reg = AdapterRegistry::with_builtins();
    for name in ["kalshi_ndjson", "generic_ndjson", "generic_csv", "polymarket", "hyperliquid"] {
        assert!(reg.get(name).is_some(), "adapter {name} should resolve");
    }
    assert!(reg.get("does_not_exist").is_none());
    assert!(reg.names().contains(&"generic_csv".to_string()));
}

#[test]
fn id_is_venue_helper() {
    assert!(Instrument::id_is_venue("KALSHI:X", &Venue::Kalshi));
    assert!(!Instrument::id_is_venue("KALSHI:X", &Venue::Polymarket));
    assert!(Instrument::id_is_venue("X", &Venue::Kalshi));
}

#[test]
fn default_sql_uses_infra_names() {
    let s = ClickHouseSchema::default();
    let sql = s.deltas_sql("KX%", "2026-01-01", "2026-01-02");
    assert!(sql.contains("FROM kalshi.orderbook_deltas"));
    assert!(sql.contains("instrument_id LIKE 'KX%'"));
    assert!(sql.contains("toUnixTimestamp64Nano(timestamp)"));
    let tsql = s.trades_sql("KX%", "2026-01-01", "2026-01-02");
    assert!(tsql.contains("FROM kalshi.trades"));
    assert!(tsql.contains("aggressor_side AS aggressor_side"));
}

#[test]
fn glob_prefix_and_exact() {
    assert!(glob_match("KXNATGASD-%", "KXNATGASD-26JUN0417-T2.700"));
    assert!(glob_match("KXNATGASD-*", "KXNATGASD-X"));
    assert!(glob_match("KXNATGASD-26JUN0417-T2.700", "KXNATGASD-26JUN0417-T2.700"));
    assert!(!glob_match("KXNATGASD-26JUN0417-T2.700", "KXNATGASD-26JUN0417-T2.701"));
    assert!(!glob_match("ABC-%", "XYZ-1"));
}

fn snap(inst: &str, ts: i64) -> MarketEvent<F> {
    MarketEvent::Delta(BookDelta {
        ts_ns: ts,
        instrument: inst.into(),
        action: Action::Add,
        side: Side::Bid,
        price: Cents(40),
        size: F(10.0),
        sequence: 1,
        is_snapshot: true,
    })
}

fn print(inst: &str, ts: i64) -> MarketEvent<F> {
    MarketEvent::Trade(TradeEvent {
        ts_ns: ts,
        instrument: inst.into(),
        aggressor_yes: true,
        price: Cents(50),
        size: F(1.0),
        trade_id: "t".into(),
    })
}

#[test]
fn summarize_counts_and_spans() {
    let evs = vec![snap("A", 100), print("A", 150), snap("B", 200), snap("A", 300)];
    let s = summarize(&evs);
    assert_eq!(s.total_events, 4);
    assert_eq!(s.total_snapshots, 3);
    assert_eq!(s.total_trades, 1);
    assert_eq!(s.first_ns, 100);
    assert_eq!(s.last_ns, 300);
    assert_eq!(s.instruments.len(), 2);
    assert_eq!(s.instruments[0].instrument, "A");
    assert_eq!(s.instruments[0].events, 3);
    assert_eq!(s.instruments[0].trades, 1);
    assert_eq!(s.instruments[0].first_ns, 100);
    assert_eq!(s.instruments[0].last_ns, 300);
    assert_eq!(s.instruments[1].instrument, "B");
    assert_eq!(s.instruments[1].events, 1);
}

#[test]
fn summarize_empty_is_zeroed() {
    let none: [MarketEvent<F>; 0] = [];
    let s = summarize(&none);
    assert_eq!(s.total_events, 0);
    assert_eq!(s.first_ns, 0);
    assert_eq!(s.last_ns, 0);
    assert!(s.instruments.is_empty());
}

#[test]
fn splitmix64_same_seed_same_stream_diff_seed_differs() {
    let mut a = SplitMix64::new(1);
    let mut b = SplitMix64::new(1);
    let mut c = SplitMix64::new(2);
    let sa: Vec<u64> = (0..16).map(|_| a.next_u64()).collect();
    let sb: Vec<u64> = (0..16).map(|_| b.next_u64()).collect();
    let sc: Vec<u64> = (0..16).map(|_| c.next_u64()).collect();
    assert_eq!(sa, sb, "same seed must reproduce the stream");
    assert_ne!(sa, sc, "different seed must differ");
}

#[test]
fn summaries_do_not_depend_on_the_order() {
    let evs = vec![snap("A", 100), print("A", 150), snap("B", 200), snap("A", 300)];
    let mut turned = evs.clone();
    turned.reverse();
    let (a, b) = (summarize(&evs), summarize(&turned));
    assert_eq!(format!("{a:?}"), format!("{b:?}"));
    assert_eq!(a.total_events, a.instruments.iter().map(|i| i.events).sum::<u64>());
    assert_eq!(a.total_trades, a.instruments.iter().map(|i| i.trades).sum::<u64>());
    for i in &a.instruments {
        assert_eq!(i.events, i.snapshots + i.deltas + i.trades);
    }
    assert_eq!(a.total_events, a.total_snapshots + a.total_deltas + a.total_trades);
}
