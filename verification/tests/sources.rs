use kalshi_backtester::adapters::generic_csv::GenericCsvAdapter;
use kalshi_backtester::adapters::generic_ndjson::GenericNdjsonAdapter;
use kalshi_backtester::adapters::hyperliquid::HyperliquidAdapter;
use kalshi_backtester::adapters::kalshi::KalshiNdjsonAdapter;
use kalshi_backtester::adapters::polymarket::PolymarketAdapter;
use kalshi_backtester::adapters::profile::{AdapterProfile, Extra};
use kalshi_backtester::adapters::template::TemplateAdapter;
use kalshi_backtester::adapters::{
    date_to_ns, AdapterLoad, AdapterRegistry, AdapterSpec, DataAdapter,
};
use kalshi_backtester::config::{ExecutionConfig, QueueConfig, QueueModel, RiskConfig};
use kalshi_backtester::data::clickhouse;
use kalshi_backtester::data::clickhouse_schema::{
    aggressor_is_yes, esc, parse_action, parse_side, parse_ts_ns, ClickHouseSchema,
};
use kalshi_backtester::data::ndjson;
use kalshi_backtester::data::{is_packed, unpack, until_break};
use kalshi_backtester::error::{Error, ErrorKind};
use kalshi_backtester::foreign::{Json, JsonNumber};
use kalshi_backtester::number::{Analytic, Number};
use kalshi_backtester::strmap::StrMap;
use kalshi_backtester::types::{Action, BookDelta, Cents, MarketEvent, Side, TradeEvent};

/// Double-precision numbers.
#[derive(Debug, Clone, Copy, PartialEq, PartialOrd)]
struct F(f64);

impl Number for F {
    fn from_int(n: i64) -> F {
        F(n as f64)
    }
    fn infinity() -> F {
        F(f64::INFINITY)
    }
    fn plus(self, other: F) -> F {
        F(self.0 + other.0)
    }
    fn minus(self, other: F) -> F {
        F(self.0 - other.0)
    }
    fn times(self, other: F) -> F {
        F(self.0 * other.0)
    }
    fn over(self, other: F) -> F {
        F(self.0 / other.0)
    }
    fn neg(self) -> F {
        F(-self.0)
    }
    fn abs(self) -> F {
        F(self.0.abs())
    }
    fn min(self, other: F) -> F {
        F(self.0.min(other.0))
    }
    fn max(self, other: F) -> F {
        F(self.0.max(other.0))
    }
    fn ceil(self) -> F {
        F(self.0.ceil())
    }
    fn round(self) -> F {
        F(self.0.round())
    }
    fn fract(self) -> F {
        F(self.0.fract())
    }
    fn sqrt(self) -> F {
        F(self.0.sqrt())
    }
    fn is_below(self, other: F) -> bool {
        self.0 < other.0
    }
    fn is_at_most(self, other: F) -> bool {
        self.0 <= other.0
    }
    fn is_equal(self, other: F) -> bool {
        self.0 == other.0
    }
    fn is_finite(self) -> bool {
        self.0.is_finite()
    }
    fn to_int(self) -> i64 {
        self.0 as i64
    }
    fn parse(s: &str) -> Option<F> {
        s.parse::<f64>().ok().map(F)
    }
    fn text(self) -> String {
        format!("{}", self.0)
    }
    fn fixed(self, decimals: usize) -> String {
        format!("{:.*}", decimals, self.0)
    }
}

impl Analytic for F {
    fn ln(self) -> F {
        F(self.0.ln())
    }
    fn exp(self) -> F {
        F(self.0.exp())
    }
    fn cos(self) -> F {
        F(self.0.cos())
    }
    fn tau() -> F {
        F(std::f64::consts::TAU)
    }
}

fn settings(pairs: &[(&str, &str)]) -> StrMap<String> {
    let mut m = StrMap::new();
    for (k, v) in pairs {
        m.insert(k.to_string(), v.to_string());
    }
    m
}

fn source(adapter: &str, venue: &str, pairs: &[(&str, &str)]) -> AdapterSpec {
    AdapterSpec {
        adapter: adapter.into(),
        venue: venue.into(),
        path: "data".into(),
        mapping: settings(pairs),
        ..Default::default()
    }
}

fn read<A: AdapterLoad<F>>(
    adapter: A,
    spec: &AdapterSpec,
    text: &str,
) -> Result<Vec<MarketEvent<F>>, Error> {
    adapter.load(spec, text.as_bytes())
}

fn read_bytes<A: AdapterLoad<F>>(
    adapter: A,
    spec: &AdapterSpec,
    data: &[u8],
) -> Result<Vec<MarketEvent<F>>, Error> {
    adapter.load(spec, data)
}

fn delta_in(ev: &MarketEvent<F>) -> &BookDelta<F> {
    match ev {
        MarketEvent::Delta(d) => d,
        MarketEvent::Trade(_) => panic!("expected a delta"),
    }
}

fn trade_in(ev: &MarketEvent<F>) -> &TradeEvent<F> {
    match ev {
        MarketEvent::Trade(t) => t,
        MarketEvent::Delta(_) => panic!("expected a trade"),
    }
}

#[test]
fn loads_venue_tagged_events_default_columns() {
    let csv = "kind,ts_ns,instrument,action,side,price,size,sequence,is_snapshot,aggressor_side,trade_id\n\
               delta,1000,ETH-PERP,ADD,BUY,0.40,100,1,1,,\n\
               trade,2000,ETH-PERP,,,0.55,3,,,,t1\n";
    let spec = source("generic_csv", "HYPERLIQUID", &[]);
    let evs = read(GenericCsvAdapter::new(), &spec, csv).unwrap();
    assert_eq!(evs.len(), 2);
    assert!(evs.iter().all(|e| e.instrument() == "HYPERLIQUID:ETH-PERP"));
    let trades = evs.iter().filter(|e| matches!(e, MarketEvent::Trade(_))).count();
    assert_eq!(trades, 1);
}

#[test]
fn price_scale_bps_and_prob() {
    let csv = "ts_ns,instrument,side,price,size\n\
               1,S,BUY,4200,1\n";
    let spec = source("generic_csv", "", &[("price_scale", "bps")]);
    let evs = read(GenericCsvAdapter::new(), &spec, csv).unwrap();
    assert_eq!(delta_in(&evs[0]).price, Cents(42));
}

#[test]
fn side_from_sign_csv() {
    let csv = "ts_ns,instrument,price,signed_qty\n\
               1,S,0.40,8\n\
               2,S,0.60,-3\n";
    let spec = source("generic_csv", "", &[("side_from_sign", "signed_qty")]);
    let evs = read(GenericCsvAdapter::new(), &spec, csv).unwrap();
    assert_eq!(evs.len(), 2);
    let (a, b) = (delta_in(&evs[0]), delta_in(&evs[1]));
    assert_eq!(a.side, Side::Bid);
    assert_eq!(a.size, F(8.0));
    assert_eq!(b.side, Side::Ask);
    assert_eq!(b.size, F(3.0));
}

#[test]
fn honors_mapping_and_ts_unit_seconds() {
    let csv = "t,sym,s,px,q\n\
               1780478100,SYMC,BUY,0.30,5\n";
    let spec = source(
        "generic_csv",
        "POLYMARKET",
        &[
            ("ts_ns", "t"),
            ("instrument", "sym"),
            ("side", "s"),
            ("price", "px"),
            ("size", "q"),
            ("ts_unit", "s"),
        ],
    );
    let evs = read(GenericCsvAdapter::new(), &spec, csv).unwrap();
    assert_eq!(evs.len(), 1);
    assert_eq!(evs[0].instrument(), "POLYMARKET:SYMC");
    assert_eq!(evs[0].ts_ns(), 1780478100i64 * 1_000_000_000);
}

#[test]
fn csv_needs_its_columns() {
    let spec = source("generic_csv", "", &[]);
    let e = read(GenericCsvAdapter::new(), &spec, "a,b\n1,2\n").unwrap_err();
    assert_eq!(e.kind, ErrorKind::MissingColumn);
    let bad = source("generic_csv", "", &[("price_scale", "furlongs")]);
    let e = read(GenericCsvAdapter::new(), &bad, "ts_ns,instrument,price\n").unwrap_err();
    assert_eq!(e.kind, ErrorKind::BadPriceScale);
}

#[test]
fn loads_venue_tagged_events_default_schema() {
    let text = "{\"kind\":\"delta\",\"ts_ns\":1000,\"instrument\":\"BTC-PERP\",\"action\":\"ADD\",\"side\":\"BUY\",\"price\":0.42,\"size\":100,\"sequence\":1,\"is_snapshot\":1}\n\
         {\"kind\":\"trade\",\"ts_ns\":2000,\"instrument\":\"BTC-PERP\",\"price\":0.55,\"size\":3,\"aggressor_side\":\"no\",\"trade_id\":\"t1\"}\n";
    let spec = source("generic_ndjson", "HYPERLIQUID", &[]);
    let evs = read(GenericNdjsonAdapter::new(), &spec, text).unwrap();
    assert_eq!(evs.len(), 2);
    assert_eq!(evs[0].instrument(), "HYPERLIQUID:BTC-PERP");
    let d = delta_in(&evs[0]);
    assert_eq!(d.price, Cents(42));
    assert_eq!(d.side, Side::Bid);
    assert!(d.is_snapshot);
    let t = trade_in(&evs[1]);
    assert!(!t.aggressor_yes);
    assert_eq!(t.trade_id, "t1");
}

#[test]
fn price_scale_variants() {
    for (scale, raw, want) in [("bps", "4200", 42), ("prob", "0.42", 42), ("cents", "55", 55)] {
        let text = format!(
            "{{\"kind\":\"delta\",\"ts_ns\":1,\"instrument\":\"S\",\"side\":\"BUY\",\"price\":{raw},\"size\":1}}\n"
        );
        let spec = source("generic_ndjson", "", &[("price_scale", scale)]);
        let evs = read(GenericNdjsonAdapter::new(), &spec, &text).unwrap();
        assert_eq!(delta_in(&evs[0]).price, Cents(want), "scale {scale}");
    }
}

#[test]
fn side_from_sign_derives_side_and_abs_size() {
    let text = "{\"ts_ns\":1,\"instrument\":\"S\",\"price\":0.40,\"signed_qty\":7}\n\
         {\"ts_ns\":2,\"instrument\":\"S\",\"price\":0.60,\"signed_qty\":-5}\n";
    let spec = source("generic_ndjson", "", &[("side_from_sign", "signed_qty")]);
    let evs = read(GenericNdjsonAdapter::new(), &spec, text).unwrap();
    assert_eq!(evs.len(), 2);
    let (a, b) = (delta_in(&evs[0]), delta_in(&evs[1]));
    assert_eq!(a.side, Side::Bid);
    assert_eq!(a.size, F(7.0));
    assert_eq!(b.side, Side::Ask);
    assert_eq!(b.size, F(5.0));
}

#[test]
fn dotted_key_paths_read_nested_json() {
    let text = "{\"meta\":{\"sym\":\"NEST\"},\"t\":9,\"data\":{\"px\":0.33},\"side\":\"SELL\",\"size\":2}\n";
    let spec = source(
        "generic_ndjson",
        "POLYMARKET",
        &[("instrument", "meta.sym"), ("ts_ns", "t"), ("price", "data.px")],
    );
    let evs = read(GenericNdjsonAdapter::new(), &spec, text).unwrap();
    assert_eq!(evs.len(), 1);
    assert_eq!(evs[0].instrument(), "POLYMARKET:NEST");
    let d = delta_in(&evs[0]);
    assert_eq!(d.price, Cents(33));
    assert_eq!(d.side, Side::Ask);
}

#[test]
fn price_is_cents_alias_still_works() {
    let text = "{\"ts_ns\":1,\"instrument\":\"S\",\"side\":\"BUY\",\"price\":55,\"size\":1}\n";
    let spec = source("generic_ndjson", "", &[("price_is_cents", "true")]);
    let evs = read(GenericNdjsonAdapter::new(), &spec, text).unwrap();
    assert_eq!(delta_in(&evs[0]).price, Cents(55));
}

#[test]
fn honors_field_mapping_and_cents() {
    let text = "{\"k\":\"delta\",\"t\":5000,\"sym\":\"SYMB\",\"act\":\"ADD\",\"s\":\"SELL\",\"px\":55,\"qty\":7,\"seq\":9}\n";
    let spec = source(
        "generic_ndjson",
        "POLYMARKET",
        &[
            ("kind", "k"),
            ("ts_ns", "t"),
            ("instrument", "sym"),
            ("action", "act"),
            ("side", "s"),
            ("price", "px"),
            ("size", "qty"),
            ("sequence", "seq"),
            ("price_is_cents", "true"),
        ],
    );
    let evs = read(GenericNdjsonAdapter::new(), &spec, text).unwrap();
    assert_eq!(evs.len(), 1);
    assert_eq!(evs[0].instrument(), "POLYMARKET:SYMB");
    let d = delta_in(&evs[0]);
    assert_eq!(d.price, Cents(55));
    assert_eq!(d.side, Side::Ask);
}

#[test]
fn hyperliquid_stub_loads_generic_ndjson_tagged() {
    let text = "{\"kind\":\"delta\",\"ts_ns\":1000,\"instrument\":\"BTC-PERP\",\"action\":\"ADD\",\"side\":\"SELL\",\"price\":55,\"size\":2,\"sequence\":1,\"is_snapshot\":1,\"price_is_cents\":1}\n";
    let spec = source("hyperliquid", "", &[("price_is_cents", "true")]);
    let evs = read(HyperliquidAdapter::new(), &spec, text).unwrap();
    assert_eq!(evs.len(), 1);
    assert_eq!(evs[0].instrument(), "HYPERLIQUID:BTC-PERP");
}

#[test]
fn ndjson_adapter_tags_venue() {
    let text = "{\"kind\":\"delta\",\"ts_ns\":1000,\"instrument\":\"KXX\",\"action\":\"ADD\",\"side\":\"BUY\",\"price\":0.40,\"size\":10,\"sequence\":1,\"is_snapshot\":1}\n";
    let spec = source("kalshi_ndjson", "", &[]);
    let evs = read(KalshiNdjsonAdapter::new(), &spec, text).unwrap();
    assert_eq!(evs.len(), 1);
    assert_eq!(evs[0].instrument(), "KALSHI:KXX");
}

#[test]
fn polymarket_stub_loads_generic_ndjson_tagged() {
    let text = "{\"kind\":\"delta\",\"ts_ns\":1000,\"instrument\":\"0xtoken\",\"action\":\"ADD\",\"side\":\"BUY\",\"price\":0.42,\"size\":50,\"sequence\":1,\"is_snapshot\":1}\n";
    let spec = source("polymarket", "", &[]);
    let evs = read(PolymarketAdapter::new(), &spec, text).unwrap();
    assert_eq!(evs.len(), 1);
    assert_eq!(evs[0].instrument(), "POLYMARKET:0xtoken");
}

#[test]
fn template_adapter_tags_and_sorts() {
    let spec = source("template", "TEMPLATE", &[]);
    let evs = read(TemplateAdapter::new(), &spec, "ignored").unwrap();
    assert_eq!(evs.len(), 2);
    assert!(evs.iter().all(|e| e.instrument() == "TEMPLATE:DEMO"));
    assert!(evs[0].ts_ns() <= evs[1].ts_ns());
}

#[test]
fn cross_venue_merge_is_time_ordered_and_multi_venue() {
    let a = "{\"kind\":\"delta\",\"ts_ns\":1000,\"instrument\":\"SYMA\",\"action\":\"ADD\",\"side\":\"BUY\",\"price\":0.40,\"size\":10,\"sequence\":1,\"is_snapshot\":1}\n\
         {\"kind\":\"delta\",\"ts_ns\":3000,\"instrument\":\"SYMA\",\"action\":\"ADD\",\"side\":\"ASK\",\"price\":0.60,\"size\":10,\"sequence\":2}\n";
    let b = "{\"kind\":\"delta\",\"ts_ns\":2000,\"instrument\":\"SYMB\",\"action\":\"ADD\",\"side\":\"BUY\",\"price\":0.45,\"size\":10,\"sequence\":1,\"is_snapshot\":1}\n\
         {\"kind\":\"delta\",\"ts_ns\":4000,\"instrument\":\"SYMB\",\"action\":\"ADD\",\"side\":\"ASK\",\"price\":0.55,\"size\":10,\"sequence\":2}\n";
    let reg = AdapterRegistry::with_builtins();
    let specs =
        vec![source("generic_ndjson", "KALSHI", &[]), source("generic_ndjson", "POLYMARKET", &[])];
    let datas = vec![a.as_bytes().to_vec(), b.as_bytes().to_vec()];
    let merged: Vec<MarketEvent<F>> = reg.load_merged(&specs, &datas).unwrap();
    assert_eq!(merged.len(), 4);
    let ts: Vec<i64> = merged.iter().map(|e| e.ts_ns()).collect();
    assert_eq!(ts, vec![1000, 2000, 3000, 4000], "merged stream must be time-ordered");
    let venues: Vec<&str> =
        merged.iter().map(|e| e.instrument().split_once(':').unwrap().0).collect();
    assert_eq!(venues, vec!["KALSHI", "POLYMARKET", "KALSHI", "POLYMARKET"]);
}

#[test]
fn unknown_adapters_are_told_from_known_ones() {
    let reg = AdapterRegistry::with_builtins();
    let e = reg.load_spec::<F>(&source("nope", "", &[]), b"").unwrap_err();
    assert_eq!(e.kind, ErrorKind::UnknownAdapter);
    assert_eq!(
        e.message,
        "unknown adapter 'nope' — known adapters: kalshi_ndjson, generic_ndjson, generic_csv, polymarket, hyperliquid"
    );
    assert!(reg.get("polymarket").is_some());
}

fn profile(pairs: &[(&str, &str)]) -> AdapterProfile {
    AdapterProfile {
        adapter: None,
        venue: None,
        instrument: None,
        mapping: settings(pairs),
        ts_unit: None,
        price_scale: None,
        extra: StrMap::new(),
    }
}

fn setting_of(spec: &AdapterSpec, key: &str) -> Option<String> {
    spec.mapping.get(key).cloned()
}

#[test]
fn json_profile_loads_and_applies() {
    let mut prof = profile(&[
        ("ts_ns", "ts_ms"),
        ("ts_unit", "ms"),
        ("price", "px"),
        ("price_scale", "cents"),
    ]);
    prof.adapter = Some("generic_csv".into());
    prof.venue = Some("POLYMARKET".into());
    prof.instrument = Some("0x%".into());
    prof.fold_convenience_keys().unwrap();
    let mut spec = AdapterSpec::default();
    prof.apply_to(&mut spec);
    assert_eq!(spec.adapter, "generic_csv");
    assert_eq!(spec.venue, "POLYMARKET");
    assert_eq!(spec.instrument.as_deref(), Some("0x%"));
    assert_eq!(setting_of(&spec, "ts_ns").as_deref(), Some("ts_ms"));
    assert_eq!(setting_of(&spec, "price_scale").as_deref(), Some("cents"));
}

#[test]
fn toml_profile_and_convenience_col_keys() {
    let mut prof = profile(&[]);
    prof.adapter = Some("generic_ndjson".into());
    prof.ts_unit = Some("s".into());
    prof.price_scale = Some("prob".into());
    prof.extra.insert("price_col".into(), Extra::Text("px".into()));
    prof.fold_convenience_keys().unwrap();
    let mut spec = AdapterSpec::default();
    prof.apply_to(&mut spec);
    assert_eq!(spec.adapter, "generic_ndjson");
    assert_eq!(setting_of(&spec, "price").as_deref(), Some("px"));
    assert_eq!(setting_of(&spec, "ts_unit").as_deref(), Some("s"));
    assert_eq!(setting_of(&spec, "price_scale").as_deref(), Some("prob"));
}

#[test]
fn cli_values_win_over_profile() {
    let mut prof = profile(&[]);
    prof.adapter = Some("generic_csv".into());
    prof.venue = Some("GENERIC".into());
    let mut spec = source("generic_ndjson", "KALSHI", &[]);
    prof.apply_to(&mut spec);
    assert_eq!(spec.adapter, "generic_ndjson");
    assert_eq!(spec.venue, "KALSHI");
}

#[test]
fn unknown_key_is_rejected() {
    let mut prof = profile(&[]);
    prof.extra.insert("prce".into(), Extra::Text("px".into()));
    let err = prof.fold_convenience_keys().unwrap_err();
    assert_eq!(err.kind, ErrorKind::BadProfile);
    assert!(err.message.contains("unknown profile key"), "got: {}", err.message);
}

#[test]
fn default_execution_is_a_noop() {
    let e: ExecutionConfig<F> = ExecutionConfig::default();
    assert!(e.include_fees);
    assert!(!e.include_rewards);
    assert!(!e.latency.enabled);
    assert!(!e.slippage.enabled);
    assert!(!e.rewards.enabled);
    assert!(!e.risk.any_enabled());
    assert_eq!(e.queue.model, QueueModel::Pessimistic);
    assert!(!e.settlement.is_enabled());
    assert!(e.settlement.path.is_none());
    assert_eq!(QueueConfig::default().model, QueueModel::Pessimistic);
}

#[test]
fn default_risk_is_all_none_and_disabled() {
    let mut r: RiskConfig<F> = RiskConfig::default();
    assert!(r.max_order_qty.is_none());
    assert!(r.max_position_per_instrument.is_none());
    assert!(r.max_gross_position.is_none());
    assert!(r.equity_floor.is_none());
    assert!(r.max_drawdown_pct.is_none());
    assert!(!r.any_enabled());
    r.equity_floor = Some(F(0.0));
    assert!(r.any_enabled());
}

#[test]
fn custom_schema_json_changes_sql() {
    let mut s = ClickHouseSchema::default();
    s.database = "md".into();
    s.deltas_table = "book_deltas".into();
    s.trades_table = "prints".into();
    s.deltas.timestamp = "event_time".into();
    s.deltas.instrument_id = "ticker".into();
    s.deltas.sequence = "seq_no".into();
    s.trades.ts_event = "exec_time".into();
    s.trades.instrument_id = "ticker".into();
    s.trades.aggressor_side = "taker_side".into();
    let sql = s.deltas_sql("ABC%", "2026-01-01", "2026-01-02");
    assert!(sql.contains("FROM md.book_deltas"), "sql: {sql}");
    assert!(sql.contains("toUnixTimestamp64Nano(event_time)"), "sql: {sql}");
    assert!(sql.contains("ticker AS instrument_id"), "sql: {sql}");
    assert!(sql.contains("seq_no AS sequence"), "sql: {sql}");
    assert!(sql.contains("action AS action"), "sql: {sql}");

    let tsql = s.trades_sql("ABC%", "2026-01-01", "2026-01-02");
    assert!(tsql.contains("FROM md.prints"), "tsql: {tsql}");
    assert!(tsql.contains("toUnixTimestamp64Nano(exec_time)"), "tsql: {tsql}");
    assert!(tsql.contains("taker_side AS aggressor_side"), "tsql: {tsql}");
}

fn word(s: &str) -> Json {
    Json::Text(s.to_string())
}

fn whole(n: i64) -> Json {
    Json::Number(JsonNumber { int: Some(n), text: n.to_string() })
}

#[test]
fn action_parsing_tolerant() {
    assert_eq!(parse_action(&word("ADD")), Some(Action::Add));
    assert_eq!(parse_action(&word("update")), Some(Action::Update));
    assert_eq!(parse_action(&whole(3)), Some(Action::Delete));
    assert_eq!(parse_action(&word("1")), Some(Action::Add));
    assert_eq!(parse_action(&word("bogus")), None);
}

#[test]
fn side_parsing_tolerant() {
    assert_eq!(parse_side(&word("BUY")), Some(Side::Bid));
    assert_eq!(parse_side(&word("sell")), Some(Side::Ask));
    assert_eq!(parse_side(&word("bid")), Some(Side::Bid));
    assert_eq!(parse_side(&whole(2)), Some(Side::Ask));
    assert_eq!(parse_side(&word("YES")), Some(Side::Bid));
}

#[test]
fn timestamp_parsing_tolerant() {
    let ts = |v: &Json| parse_ts_ns::<F>(v);
    assert_eq!(ts(&whole(1_700_000_000_000_000_000)), Some(1_700_000_000_000_000_000));
    assert_eq!(ts(&word("1700000000000000000")), Some(1_700_000_000_000_000_000));
    let a = ts(&word("2026-06-04T12:00:00Z")).unwrap();
    let b = ts(&word("2026-06-04 12:00:00")).unwrap();
    assert_eq!(a, b);
    assert!(ts(&word("2026-06-04 12:00:00.500")).unwrap() > b);
}

#[test]
fn aggressor_parsing() {
    assert!(aggressor_is_yes(&word("yes")));
    assert!(aggressor_is_yes(&word("BUY")));
    assert!(!aggressor_is_yes(&word("no")));
    assert!(aggressor_is_yes(&whole(1)));
    assert!(!aggressor_is_yes(&whole(2)));
}

#[test]
fn quoted_text_is_escaped_for_queries() {
    assert_eq!(esc("a'b\\c"), "a''b\\c");
    let s = ClickHouseSchema::default();
    assert!(s.deltas_sql("K'X%", "a", "b").contains("LIKE 'K''X%'"));
}

#[test]
fn parse_delta_and_trade() {
    let evs: Vec<MarketEvent<F>> = ndjson::load(
        br#"{"kind":"delta","ts_ns":1000,"instrument":"X","action":"ADD","side":"BUY","price":0.42,"size":100.0,"sequence":1,"is_snapshot":1}"#,
        None,
        None,
        None,
    )
    .unwrap();
    let d = delta_in(&evs[0]);
    assert_eq!(d.price, Cents(42));
    assert_eq!(d.side, Side::Bid);
    assert!(d.is_snapshot);

    let evs: Vec<MarketEvent<F>> = ndjson::load(
        br#"{"kind":"trade","ts_ns":2000,"instrument":"X","aggressor_side":"no","price":0.55,"size":3.0,"trade_id":"t1"}"#,
        None,
        None,
        None,
    )
    .unwrap();
    let t = trade_in(&evs[0]);
    assert_eq!(t.price, Cents(55));
    assert!(!t.aggressor_yes);
}

const CAPTURE: &str = "{\"kind\":\"trade\",\"ts_ns\":30,\"instrument\":\"KXA\",\"price\":0.5,\"size\":1}\n\n\
    {\"kind\":\"trade\",\"ts_ns\":10,\"instrument\":\"KXB\",\"price\":0.5,\"size\":1}\n\
    {\"kind\":\"trade\",\"ts_ns\":20,\"instrument\":\"OTHER\",\"price\":0.5,\"size\":1}\n";

#[test]
fn captures_are_filtered_and_sorted() {
    let all: Vec<MarketEvent<F>> =
        ndjson::load(CAPTURE.as_bytes(), None, None, None).unwrap();
    assert_eq!(all.iter().map(|e| e.ts_ns()).collect::<Vec<_>>(), vec![10, 20, 30]);
    let some: Vec<MarketEvent<F>> =
        ndjson::load(CAPTURE.as_bytes(), Some("KX%"), Some(10), Some(30)).unwrap();
    assert_eq!(some.len(), 1);
    assert_eq!(some[0].instrument(), "KXB");
}

#[test]
fn captures_fail_on_what_they_cannot_be() {
    let load = |s: &[u8]| ndjson::load::<F>(s, None, None, None).unwrap_err();
    assert_eq!(load(b"not json").kind, ErrorKind::BadJson);
    let e = load(br#"{"kind":"quote"}"#);
    assert_eq!((e.kind, e.message.as_str()), (ErrorKind::BadRow, "unknown kind: quote"));
    assert_eq!(load(br#"{"kind":"delta"}"#).kind, ErrorKind::BadRow);
    assert_eq!(load(&[0xff, 0xfe]).kind, ErrorKind::NotText);
}

fn packed(text: &str) -> Vec<u8> {
    let mut out = Vec::new();
    let mut enc = flate2::read::GzEncoder::new(text.as_bytes(), flate2::Compression::fast());
    std::io::Read::read_to_end(&mut enc, &mut out).unwrap();
    out
}

#[test]
fn packed_files_are_unpacked_by_name() {
    let raw = packed(CAPTURE);
    assert!(is_packed("cap.ndjson.gz"));
    assert!(!is_packed("cap.ndjson"));
    assert!(!is_packed("dir/.gz"));
    let (bytes, broken) = unpack(&raw);
    assert_eq!(bytes, CAPTURE.as_bytes().to_vec());
    assert_eq!(broken, None);

    let load = |path: &str, raw: &[u8]| ndjson::load_file::<F>(path, raw, None, None, None);
    assert_eq!(load("cap.gz", &raw).unwrap().len(), 3);
    assert_eq!(load("cap.ndjson", CAPTURE.as_bytes()).unwrap().len(), 3);
    assert_eq!(load("cap.ndjson", &raw).unwrap_err().kind, ErrorKind::NotText);
    assert_eq!(load("cap.gz", b"plain").unwrap_err().kind, ErrorKind::BadArchive);

    let reg = AdapterRegistry::with_builtins();
    let mut spec = source("kalshi_ndjson", "", &[]);
    spec.path = "cap.gz".into();
    assert_eq!(reg.load_spec::<F>(&spec, &raw).unwrap().len(), 3);
    spec.path = "cap.ndjson".into();
    assert_eq!(reg.load_spec::<F>(&spec, CAPTURE.as_bytes()).unwrap().len(), 3);
    let mut table = source("generic_csv", "", &[]);
    table.path = "table.csv.gz".into();
    let text = "ts,instrument,side,price,size\n1000,A,BUY,0.4,5\n";
    assert!(reg.load_spec::<F>(&table, &packed(text)).is_err());
}

#[test]
fn files_that_break_off_are_read_up_to_the_break() {
    let line = "{\"kind\":\"trade\",\"ts_ns\":30,\"instrument\":\"KXA\",\"price\":0.5,\"size\":1}\n";
    let good: String = line.repeat(400);
    let whole = packed(&good);
    let (bytes, broken) = unpack(&whole[..whole.len() - 9]);
    assert!(bytes.len() <= good.len() && bytes.len() % line.len() == 0);
    assert_eq!(broken.clone().unwrap().kind, ErrorKind::BadArchive);
    let e = ndjson::load_file::<F>("cap.gz", &whole[..whole.len() - 9], None, None, None).unwrap_err();
    assert_eq!(e, broken.unwrap());

    let bad: String = format!("not json\n{good}");
    let cut = packed(&bad);
    let cut = &cut[..cut.len() - 4];
    let e = ndjson::load_file::<F>("cap.gz", cut, None, None, None).unwrap_err();
    assert_eq!(e.kind, ErrorKind::BadJson);
    let reg = AdapterRegistry::with_builtins();
    let mut spec = source("generic_ndjson", "", &[]);
    spec.path = "cap.gz".into();
    assert_eq!(reg.load_spec::<F>(&spec, cut).unwrap_err().kind, ErrorKind::BadJson);
    let cut = &whole[..whole.len() - 4];
    assert_eq!(reg.load_spec::<F>(&spec, cut).unwrap_err().kind, ErrorKind::BadArchive);

    let unfinished = packed(&format!("{line}not json"));
    let cut = &unfinished[..unfinished.len() - 4];
    assert_eq!(unpack(cut).0, line.as_bytes().to_vec());
    let e = ndjson::load_file::<F>("cap.gz", cut, None, None, None).unwrap_err();
    assert_eq!(e.kind, ErrorKind::BadArchive);
}

#[test]
fn a_break_comes_after_what_was_read() {
    let cut = Error::new(ErrorKind::BadArchive, "cut".to_string());
    let bad = Error::new(ErrorKind::BadRow, "bad".to_string());
    assert_eq!(until_break(Ok(1), None), Ok(1));
    assert_eq!(until_break(Ok(1), Some(cut.clone())), Err(cut.clone()));
    assert_eq!(until_break::<i32>(Err(bad.clone()), Some(cut)), Err(bad.clone()));
    assert_eq!(until_break::<i32>(Err(bad.clone()), None), Err(bad));
}

#[test]
fn database_rows_may_end_with_a_carriage_return() {
    let e = clickhouse::load::<F>("{\"action\":\"X\"}\r\n", "").unwrap_err();
    assert_eq!(e.message, "bad/unknown action in row: {\"action\":\"X\"}");
    let e = clickhouse::load::<F>("{\"action\":\"X\"}\r\r\n", "").unwrap_err();
    assert_eq!(e.message, "bad/unknown action in row: {\"action\":\"X\"}\r");
    let e = clickhouse::load::<F>("{\"action\":\"X\"}\r", "").unwrap_err();
    assert_eq!(e.message, "bad/unknown action in row: {\"action\":\"X\"}\r");
    let rows = clickhouse::list_instruments::<F>("{\"instrument_id\":\"A\"}\r\n{\"instrument_id\":\"B\"}\r\n").unwrap();
    assert_eq!(rows.len(), 2);
    let a = clickhouse::list_instruments::<F>("{\r\n").unwrap_err();
    let b = clickhouse::list_instruments::<F>("{\n").unwrap_err();
    assert_eq!(a.message, b.message);
}

#[test]
fn failed_folds_keep_what_was_folded() {
    let mut prof = profile(&[("size", "qty")]);
    prof.ts_unit = Some("ms".into());
    prof.extra.insert("price_col".into(), Extra::Text("px".into()));
    prof.extra.insert("size_col".into(), Extra::Other);
    prof.extra.insert("time_col".into(), Extra::Text("t".into()));
    let err = prof.fold_convenience_keys().unwrap_err();
    assert_eq!(err.message, "profile key 'size_col' must be a string column name");
    assert_eq!(prof.mapping.get("ts_unit").map(|s| s.as_str()), Some("ms"));
    assert_eq!(prof.mapping.get("price").map(|s| s.as_str()), Some("px"));
    assert_eq!(prof.mapping.get("size").map(|s| s.as_str()), Some("qty"));
    assert!(prof.mapping.get("time").is_none());
    assert_eq!(prof.ts_unit, None);
    assert_eq!(prof.extra.len(), 0);
}

#[test]
fn database_rows_become_events() {
    let deltas = "{\"ts_ns\":\"2000\",\"instrument_id\":\"KXA\",\"action\":\"ADD\",\"side\":\"BUY\",\"price\":\"0.40\",\"size\":\"10\",\"sequence\":\"2\",\"is_snapshot\":1}\n";
    let trades = "{\"ts_ns\":\"1000\",\"instrument_id\":\"KXA\",\"aggressor_side\":\"yes\",\"price\":0.41,\"size\":3,\"trade_id\":\"t9\"}\n";
    let evs: Vec<MarketEvent<F>> = clickhouse::load(deltas, trades).unwrap();
    assert_eq!(evs.len(), 2);
    let t = trade_in(&evs[0]);
    assert_eq!((t.ts_ns, t.price, t.aggressor_yes), (1000, Cents(41), true));
    let d = delta_in(&evs[1]);
    assert_eq!((d.ts_ns, d.price, d.size, d.is_snapshot), (2000, Cents(40), F(10.0), true));
}

#[test]
fn database_lists_its_instruments() {
    let body = "{\"instrument_id\":\"KXA\",\"rows\":\"12\",\"first_ns\":\"5\",\"last_ns\":\"9\"}\n";
    let rows = clickhouse::list_instruments::<F>(body).unwrap();
    assert_eq!(rows.len(), 1);
    assert_eq!(rows[0].instrument, "KXA");
    assert_eq!((rows[0].rows, rows[0].first_ns, rows[0].last_ns), (12, 5, 9));
}

#[test]
fn date_to_ns_parses_and_rejects() {
    assert!(date_to_ns("2026-06-04").is_ok());
    assert!(date_to_ns("not-a-date").is_err());
    assert!(date_to_ns("2026/06/04").is_err());
    assert_eq!(date_to_ns("1970-01-02").unwrap(), 86_400_000_000_000);
    assert_eq!(date_to_ns("nope").unwrap_err().kind, ErrorKind::BadDate);
}

#[test]
fn list_adapters_registry_has_descriptions_and_mapping_keys() {
    let reg = AdapterRegistry::with_builtins();
    let infos = reg.infos();
    assert!(infos.iter().all(|i| !i.description.is_empty()));
    let gen = infos.iter().find(|i| i.name == "generic_csv").unwrap();
    assert!(gen.mapping_keys.iter().any(|k| k.key == "price_scale"));
    assert!(gen.mapping_keys.iter().any(|k| k.key == "side_from_sign"));
    let kalshi = infos.iter().find(|i| i.name == "kalshi_ndjson").unwrap();
    assert!(kalshi.mapping_keys.is_empty());
    assert_eq!(DataAdapter::name(&GenericCsvAdapter::new()), "generic_csv");
}

#[test]
fn bad_dates_say_why() {
    let e = date_to_ns("2026-99-01").unwrap_err();
    assert!(e.message.starts_with("bad date '2026-99-01' (expected YYYY-MM-DD): "), "{}", e.message);
    assert!(e.message.len() > "bad date '2026-99-01' (expected YYYY-MM-DD): ".len());
}

#[test]
fn failures_say_what_they_came_from() {
    let load = |s: &[u8]| ndjson::load::<F>(s, None, None, None).unwrap_err().message;
    let m = load(b"not json");
    assert!(m.starts_with("bad json line: not json\n  caused by: "), "{m}");
    assert!(m.contains("expected ident at line 1"), "{m}");
    let spec = source("generic_ndjson", "", &[]);
    let e = read_bytes(GenericNdjsonAdapter::new(), &spec, b"{").unwrap_err();
    assert!(e.message.starts_with("bad json line: {\n  caused by: EOF"), "{}", e.message);
    let spec = source("generic_csv", "", &[]);
    let e = read_bytes(GenericCsvAdapter::new(), &spec, &[0xff, b'\n', b'a', b'\n']).unwrap_err();
    assert_eq!(e.kind, ErrorKind::BadTable);
    assert!(e.message.starts_with("reading CSV header\n  caused by: "), "{}", e.message);
    assert!(e.message.contains("invalid utf-8"), "{}", e.message);
    let bad = source("generic_csv", "", &[("price_scale", "furlongs")]);
    let e = read_bytes(GenericCsvAdapter::new(), &bad, b"").unwrap_err();
    assert!(
        e.message.starts_with(
            "invalid price_scale for adapter 'generic_csv'\n  caused by: unknown price_scale 'furlongs'"
        ),
        "{}",
        e.message
    );
    let e = clickhouse::list_instruments::<F>("{").unwrap_err();
    assert!(e.message.starts_with("EOF while parsing"), "{}", e.message);
}

#[test]
fn lines_are_decoded_one_by_one() {
    let mut data = b"{\"kind\":\"quote\"}\n".to_vec();
    data.extend_from_slice(&[0xff, b'\n']);
    let e = ndjson::load::<F>(&data, None, None, None).unwrap_err();
    assert_eq!(e.message, "unknown kind: quote");
    let mut data = CAPTURE.as_bytes().to_vec();
    data.extend_from_slice(&[0xff, b'\n']);
    data.extend_from_slice(b"not json");
    let e = ndjson::load::<F>(&data, None, None, None).unwrap_err();
    assert_eq!((e.kind, e.message.as_str()), (ErrorKind::NotText, "stream did not contain valid UTF-8"));
    let spec = source("generic_ndjson", "", &[]);
    let e = read_bytes(GenericNdjsonAdapter::new(), &spec, &data).unwrap_err();
    assert_eq!((e.kind, e.message.as_str()), (ErrorKind::NotText, "stream did not contain valid UTF-8"));
    let mut text = "{\"kind\":\"trade\",\"ts_ns\":1,\"instrument\":\"K\u{e9}\",\"price\":0.5}".as_bytes().to_vec();
    text.extend_from_slice(b"\r\n");
    let evs = ndjson::load::<F>(&text, None, None, None).unwrap();
    assert_eq!(evs[0].instrument(), "K\u{e9}");
}

#[test]
fn sizes_that_are_no_numbers_are_read_alike() {
    let data = "{\"kind\":\"trade\",\"ts_ns\":1,\"instrument\":\"KXA\",\"price\":0.5,\"size\":\"0\"}\n\
        {\"kind\":\"trade\",\"ts_ns\":2,\"instrument\":\"KXA\",\"price\":0.5,\"size\":\"many\"}\n";
    let capture = ndjson::load::<F>(data.as_bytes(), None, None, None).unwrap();
    let spec = source("generic_ndjson", "KALSHI", &[]);
    let generic = read_bytes(GenericNdjsonAdapter::new(), &spec, data.as_bytes()).unwrap();
    for (a, b) in capture.iter().zip(&generic) {
        assert_eq!((trade_in(a).size, trade_in(b).size), (F(0.0), F(0.0)));
    }
}

#[test]
fn captures_are_read_by_the_generic_adapter() {
    let data = "{\"kind\":\"trade\",\"ts_ns\":1,\"instrument\":\"KXA\",\"price\":0.5,\"size\":1,\"aggressor_side\":\"YES\",\"trade_id\":\"t\"}\n\
        {\"kind\":\"delta\",\"ts_ns\":1,\"instrument\":\"KXA\",\"action\":\"UPDATE\",\"side\":\"SELL\",\"price\":0.6,\"size\":4,\"sequence\":9,\"is_snapshot\":1}\n\
        {\"kind\":\"delta\",\"ts_ns\":0,\"instrument\":\"KXB\",\"action\":\"DELETE\",\"side\":\"BUY\",\"price\":0.4,\"sequence\":3}\n";
    let capture = ndjson::load::<F>(data.as_bytes(), None, None, None).unwrap();
    let spec = source("generic_ndjson", "KALSHI", &[]);
    let generic = read_bytes(GenericNdjsonAdapter::new(), &spec, data.as_bytes()).unwrap();
    assert_eq!(capture.len(), 3);
    assert_eq!(generic.len(), 3);
    let (t, d) = (trade_in(&capture[1]), delta_in(&capture[2]));
    let (u, e) = (trade_in(&generic[2]), delta_in(&generic[1]));
    assert_eq!((u.ts_ns, u.price, u.size, u.aggressor_yes, u.trade_id.as_str()), (t.ts_ns, t.price, t.size, t.aggressor_yes, t.trade_id.as_str()));
    assert_eq!((e.ts_ns, e.price, e.size, e.side, e.action, e.sequence, e.is_snapshot), (d.ts_ns, d.price, d.size, d.side, d.action, d.sequence, d.is_snapshot));
    assert_eq!(u.instrument, format!("KALSHI:{}", t.instrument));
    assert_eq!(generic[0].instrument(), "KALSHI:KXB");
}
