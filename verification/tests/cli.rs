use kalshi_backtester::adapters::profile::AdapterProfile;
use kalshi_backtester::adapters::AdapterSpec;
use kalshi_backtester::cli::args::{
    verbosity, BacktestArgs, DataSourceArgs, ExecFlags, LatencyDistArg, LatencyFlags,
    OrchCommonArgs, RunSpec, SourceFlags, Verbosity,
};
use kalshi_backtester::cli::checks::{
    check_validated, ensure_file_exists, names_address, validate_data_source, validate_resolved,
};
use kalshi_backtester::cli::lists::{list_strategies, StrategyInfo};
use kalshi_backtester::cli::loading::{
    plan_look_load, plan_run_load, plan_validated_load, LoadPlan,
};
use kalshi_backtester::cli::plan::{
    local_paths, merge_run, orch_base_cfg, resolve_orch, resolve_run, source_label,
    validate_backtest_hint, validate_source_label,
};
use kalshi_backtester::cli::quality::data_quality_warnings;
use kalshi_backtester::cli::resolve::{
    apply_exec_overrides_orch, apply_execution_flag_overrides, build_adapter_spec_from_cli,
    parse_extra_source, parse_strategy_param, sources_from_cli,
};
use kalshi_backtester::cli::show::{
    fmt_count, fmt_csv, fmt_int, fmt_metric, fmt_ts, fmt_ts_full, money, signed, trim_f, truncate,
};
use kalshi_backtester::cli::tables::{
    describe_clickhouse, describe_data, list_instruments, list_instruments_clickhouse,
    validation_report, venue_tags,
};
use kalshi_backtester::config::{ExecutionConfig, Format, LatencyDist, QueueModel};
use kalshi_backtester::data::clickhouse::ChInstrumentRow;
use kalshi_backtester::data::summary::summarize;
use kalshi_backtester::error::{Error, ErrorKind};
use kalshi_backtester::number::{Analytic, Number};
use kalshi_backtester::optimize::{expand_grid, Metric};
use kalshi_backtester::strmap::StrMap;
use kalshi_backtester::types::{Action, BookDelta, Cents, MarketEvent, Side, TradeEvent};

/// Double-precision numbers.
#[derive(Debug, Clone, Copy, PartialEq, PartialOrd)]
struct F(f64);

impl Number for F {
    fn from_int(n: i64) -> F {
        F(n as f64)
    }
    fn infinity() -> F {
        F(f64::INFINITY)
    }
    fn plus(self, other: F) -> F {
        F(self.0 + other.0)
    }
    fn minus(self, other: F) -> F {
        F(self.0 - other.0)
    }
    fn times(self, other: F) -> F {
        F(self.0 * other.0)
    }
    fn over(self, other: F) -> F {
        F(self.0 / other.0)
    }
    fn neg(self) -> F {
        F(-self.0)
    }
    fn abs(self) -> F {
        F(self.0.abs())
    }
    fn min(self, other: F) -> F {
        F(self.0.min(other.0))
    }
    fn max(self, other: F) -> F {
        F(self.0.max(other.0))
    }
    fn ceil(self) -> F {
        F(self.0.ceil())
    }
    fn round(self) -> F {
        F(self.0.round())
    }
    fn fract(self) -> F {
        F(self.0.fract())
    }
    fn sqrt(self) -> F {
        F(self.0.sqrt())
    }
    fn is_below(self, other: F) -> bool {
        self.0 < other.0
    }
    fn is_at_most(self, other: F) -> bool {
        self.0 <= other.0
    }
    fn is_equal(self, other: F) -> bool {
        self.0 == other.0
    }
    fn is_finite(self) -> bool {
        self.0.is_finite()
    }
    fn to_int(self) -> i64 {
        self.0 as i64
    }
    fn parse(s: &str) -> Option<F> {
        s.parse::<f64>().ok().map(F)
    }
    fn text(self) -> String {
        format!("{}", self.0)
    }
    fn fixed(self, decimals: usize) -> String {
        format!("{:.*}", decimals, self.0)
    }
}

impl Analytic for F {
    fn ln(self) -> F {
        F(self.0.ln())
    }
    fn exp(self) -> F {
        F(self.0.exp())
    }
    fn cos(self) -> F {
        F(self.0.cos())
    }
    fn tau() -> F {
        F(std::f64::consts::TAU)
    }
}

const TICKS: &str = "ticks.ndjson";

fn known() -> Vec<String> {
    vec!["market_maker".to_string(), "momentum".to_string()]
}

fn none() -> Vec<String> {
    Vec::new()
}

fn there() -> Vec<String> {
    vec![TICKS.to_string()]
}

fn base_exec_flags() -> ExecFlags<F> {
    ExecFlags {
        no_fees: false,
        rewards: false,
        reward_per_period: None,
        reward_period_secs: None,
        min_resting_size: None,
        max_spread_cents: None,
        latency_ns: None,
        cancel_latency_ns: None,
        md_latency_ns: None,
        jitter_ns: None,
        slippage_ticks: None,
        slippage_bps: None,
        queue_model: None,
        settlements: None,
        max_order_qty: None,
        max_position: None,
        max_gross: None,
        equity_floor: None,
        max_drawdown_pct: None,
    }
}

fn base_latency() -> LatencyFlags {
    LatencyFlags {
        dist: None,
        min_ns: None,
        max_ns: None,
        std_ns: None,
        mean_ns: None,
        empirical: None,
        seed: None,
    }
}

fn base_source() -> SourceFlags {
    SourceFlags {
        adapter: None,
        venue: None,
        adapter_path: None,
        ndjson: None,
        clickhouse: None,
        ch_config: None,
        instrument: None,
        start: None,
        end: None,
        extra_source: Vec::new(),
    }
}

fn base_args() -> BacktestArgs<F> {
    BacktestArgs {
        source: None,
        from: base_source(),
        strategy: None,
        strategy_param: Vec::new(),
        starting_balance: None,
        tearsheet: None,
        emit_tearsheet_b64: false,
        out_dir: None,
        execution: base_exec_flags(),
        latency: base_latency(),
    }
}

fn base_common(path: &str, strategy: &str, params: Vec<String>, metric: &str) -> OrchCommonArgs<F> {
    let mut from = base_source();
    from.ndjson = Some(path.to_string());
    OrchCommonArgs {
        source: "ndjson".into(),
        from,
        strategy: strategy.into(),
        param: params,
        metric: metric.into(),
        starting_balance: F(1000.0),
        threads: Some(2),
        out_dir: None,
        execution: base_exec_flags(),
    }
}

#[test]
fn fmt_int_thousands() {
    assert_eq!(fmt_int(0), "0");
    assert_eq!(fmt_int(999), "999");
    assert_eq!(fmt_int(1000), "1,000");
    assert_eq!(fmt_int(1234567), "1,234,567");
    assert_eq!(fmt_int(-12345), "-12,345");
    assert_eq!(fmt_int(i64::MIN), "-9,223,372,036,854,775,808");
    assert_eq!(fmt_count(1_000_000), "1,000,000");
}

#[test]
fn money_formats_two_dp() {
    assert_eq!(money(F(0.0)), "0.00");
    assert_eq!(money(F(12.5)), "12.50");
    assert_eq!(money(F(-3.1)), "-3.10");
}

#[test]
fn other_numbers_are_written_plainly() {
    assert_eq!(signed(F(2.5)), "+2.50");
    assert_eq!(signed(F(-2.5)), "-2.50");
    assert_eq!(fmt_metric(F(f64::INFINITY)), "n/a");
    assert_eq!(fmt_metric(F(3.0)), "3");
    assert_eq!(fmt_csv(F(0.25)), "0.25");
    assert_eq!(fmt_csv(F(f64::NAN)), "");
    assert_eq!(trim_f(F(7.0)), "7");
    assert_eq!(trim_f(F(0.5)), "0.5");
    assert_eq!(truncate("abcdef", 10), "abcdef");
    assert_eq!(truncate("abcdef", 4).chars().count(), 4);
}

#[test]
fn times_are_written_in_utc() {
    assert_eq!(fmt_ts(1_780_531_200_000_000_000), "2026-06-04 00:00");
    assert_eq!(fmt_ts_full(1_780_531_200_000_000_000), "2026-06-04 00:00:00");
    assert_eq!(fmt_ts(-1), "-1");
}

#[test]
fn quiet_wins() {
    assert_eq!(verbosity(true, 3), Verbosity::Quiet);
    assert_eq!(verbosity(false, 1), Verbosity::Verbose);
    assert_eq!(verbosity(false, 0), Verbosity::Normal);
}

#[test]
fn missing_source_is_a_clear_error() {
    let mut a = base_args();
    a.strategy = Some("market_maker".into());
    let err = resolve_run(&a, None, &None, None, &none(), &known()).unwrap_err();
    assert!(err.message.contains("data source"), "got: {}", err.message);
    assert_eq!(
        err.message,
        "no data source — pass the flag (--source ndjson|clickhouse|adapter)"
    );
}

#[test]
fn unknown_strategy_in_config_is_rejected() {
    let mut spec: RunSpec<F> = RunSpec::default();
    spec.source = "ndjson".into();
    spec.ndjson = Some("/definitely/missing.ndjson.gz".into());
    spec.strategy = "no_such_strategy".into();
    let err = validate_resolved(&spec, true, &none(), &known()).unwrap_err();
    assert!(err.message.contains("unknown strategy"), "got: {}", err.message);
}

#[test]
fn missing_ndjson_file_is_a_clear_error() {
    let mut spec: RunSpec<F> = RunSpec::default();
    spec.source = "ndjson".into();
    spec.ndjson = Some("/definitely/missing-file-xyz.ndjson.gz".into());
    spec.strategy = "market_maker".into();
    let err = validate_resolved(&spec, false, &none(), &known()).unwrap_err();
    assert!(err.message.contains("not found"), "got: {}", err.message);
}

#[test]
fn runs_are_refused_for_what_they_lack() {
    let refused = |change: fn(&mut RunSpec<F>)| {
        let mut spec: RunSpec<F> = RunSpec::default();
        spec.ndjson = Some(TICKS.into());
        change(&mut spec);
        validate_resolved(&spec, false, &there(), &known()).unwrap_err().message
    };
    let mut fine: RunSpec<F> = RunSpec::default();
    fine.ndjson = Some(TICKS.into());
    assert!(validate_resolved(&fine, false, &there(), &known()).is_ok());
    assert!(refused(|s| s.strategy = String::new()).starts_with("no strategy — pass the flag"));
    assert!(refused(|s| s.ndjson = None).contains("--ndjson <path> required"));
    assert!(refused(|s| s.source = "csv".into())
        .starts_with("unknown source 'csv' — expected ndjson, clickhouse, or adapter"));
    assert!(refused(|s| s.source = "clickhouse".into()).contains("--clickhouse <url> required"));
    assert!(refused(|s| s.start = Some("yesterday".into())).starts_with("invalid --start date"));
    assert!(refused(|s| s.end = Some("2026-13-01".into())).starts_with("invalid --end date"));
    assert!(refused(|s| s.sources = vec![plain_source("csvish", TICKS)])
        .starts_with("unknown adapter 'csvish' in sources — known: kalshi_ndjson,"));
    assert!(refused(|s| s.sources = vec![plain_source("generic_csv", "gone.csv")])
        .starts_with("adapter 'generic_csv' file not found: gone.csv"));
}

fn plain_source(adapter: &str, path: &str) -> AdapterSpec {
    AdapterSpec {
        adapter: adapter.into(),
        venue: String::new(),
        path: path.into(),
        instrument: None,
        start: None,
        end: None,
        mapping: StrMap::new(),
    }
}

#[test]
fn files_and_addresses_are_told_apart() {
    assert!(names_address("http://localhost:8123"));
    assert!(!names_address("data/ticks.ndjson"));
    assert!(ensure_file_exists(TICKS, "ndjson", &there()).is_ok());
    let err = ensure_file_exists("x", "ndjson", &there()).unwrap_err();
    assert_eq!(
        err.message,
        "ndjson file not found: x — check the path (it is resolved relative to the current directory)"
    );
    assert!(matches!(err.kind, ErrorKind::NotFound));
}

#[test]
fn cli_flags_override_config_values() {
    let mut a = base_args();
    a.source = Some("ndjson".into());
    a.strategy = Some("momentum".into());
    a.starting_balance = Some(F(5000.0));
    a.from.ndjson = Some("/missing.ndjson.gz".into());
    let spec = merge_run(&a, RunSpec::default(), &None, None).unwrap();
    assert_eq!(spec.strategy, "momentum");
    assert_eq!(spec.starting_balance, F(5000.0));
    assert_eq!(spec.ndjson.as_deref(), Some("/missing.ndjson.gz"));
    assert_eq!(local_paths(&spec), vec!["/missing.ndjson.gz".to_string()]);
}

#[test]
fn presets_are_taken_before_flags() {
    let mut a = base_args();
    a.source = Some("ndjson".into());
    a.strategy = Some("momentum".into());
    a.from.ndjson = Some(TICKS.into());
    a.execution.no_fees = true;
    a.strategy_param = vec!["a=1".into(), "a=2".into()];
    let mut preset: ExecutionConfig<F> = ExecutionConfig::default();
    preset.latency.enabled = true;
    let run = resolve_run(&a, None, &None, Some(Ok(preset)), &there(), &known()).unwrap();
    assert!(run.spec.execution.latency.enabled);
    assert!(!run.spec.execution.include_fees);
    assert_eq!(run.spec.strategy_params.get("a"), Some(&F(2.0)));
    assert_eq!(run.tearsheet, "../figures/tearsheet.html");
    let cfg = orch_base_cfg(&run);
    assert_eq!(cfg.starting_balance, F(1000.0));
    let bad = Err(Error { kind: ErrorKind::NotFound, message: "gone".into() });
    let err = resolve_run(&a, None, &None, Some(bad), &there(), &known()).unwrap_err();
    assert!(err.message.contains("gone"), "{}", err.message);
}

#[test]
fn execution_flag_overrides_enable_models() {
    let mut f = base_exec_flags();
    f.rewards = true;
    f.slippage_ticks = Some(2);
    f.latency_ns = Some(1000);
    let mut e = ExecutionConfig::default();
    apply_execution_flag_overrides(&mut e, &f, &base_latency());
    assert!(e.include_rewards && e.rewards.enabled);
    assert!(e.slippage.enabled && e.slippage.taker_ticks == 2);
    assert!(e.latency.enabled && e.latency.order_latency_ns == 1000);
    assert!(e.include_fees);
}

#[test]
fn nothing_asked_enables_nothing() {
    let mut f = base_exec_flags();
    f.slippage_ticks = Some(0);
    f.latency_ns = Some(0);
    let mut e = ExecutionConfig::default();
    apply_exec_overrides_orch(&mut e, &f);
    assert!(!e.slippage.enabled && !e.latency.enabled);
    f.queue_model = Some(QueueModel::Pessimistic);
    f.max_order_qty = Some(F(5.0));
    f.jitter_ns = Some(3);
    apply_exec_overrides_orch(&mut e, &f);
    assert_eq!(e.queue.model, QueueModel::Pessimistic);
    assert_eq!(e.risk.max_order_qty, Some(F(5.0)));
    assert!(e.latency.enabled && e.latency.jitter_ns == 3);
}

#[test]
fn strategy_param_parses_and_rejects() {
    assert_eq!(parse_strategy_param("up_ticks=2").unwrap(), ("up_ticks".to_string(), F(2.0)));
    assert_eq!(parse_strategy_param("  gamma = 0.5 ").unwrap(), ("gamma".to_string(), F(0.5)));
    assert!(parse_strategy_param::<F>("just_a_key").is_err());
    assert!(parse_strategy_param::<F>("=3").is_err());
    let err = parse_strategy_param::<F>("size=abc").unwrap_err();
    assert!(err.message.contains("not a number"), "got: {}", err.message);
}

#[test]
fn latency_dist_flags_build_distribution_and_seed() {
    let mut f = base_exec_flags();
    let mut l = base_latency();
    l.dist = Some(LatencyDistArg::Normal);
    f.latency_ns = Some(500);
    l.std_ns = Some(300);
    l.seed = Some(7);
    let mut e = ExecutionConfig::default();
    apply_execution_flag_overrides(&mut e, &f, &l);
    assert!(e.latency.enabled, "choosing a dist enables the latency model");
    assert_eq!(e.latency.dist, LatencyDist::Normal { mean_ns: 500, std_ns: 300 });
    assert_eq!(e.latency.seed, 7);

    let mut l = base_latency();
    l.dist = Some(LatencyDistArg::Uniform);
    l.min_ns = Some(100);
    l.max_ns = Some(900);
    let mut e: ExecutionConfig<F> = ExecutionConfig::default();
    apply_execution_flag_overrides(&mut e, &base_exec_flags(), &l);
    assert_eq!(e.latency.dist, LatencyDist::Uniform { min_ns: 100, max_ns: 900 });

    let mut f = base_exec_flags();
    let mut l = base_latency();
    l.dist = Some(LatencyDistArg::Exponential);
    f.latency_ns = Some(1234);
    let mut e = ExecutionConfig::default();
    apply_execution_flag_overrides(&mut e, &f, &l);
    assert_eq!(e.latency.dist, LatencyDist::Exponential { mean_ns: 1234 });

    let mut l = base_latency();
    l.dist = Some(LatencyDistArg::Empirical);
    l.empirical = Some("delays.txt".into());
    let mut e: ExecutionConfig<F> = ExecutionConfig::default();
    apply_execution_flag_overrides(&mut e, &base_exec_flags(), &l);
    assert_eq!(e.latency.dist, LatencyDist::Empirical { path: "delays.txt".into() });
}

#[test]
fn latency_seed_alone_overrides_without_changing_dist() {
    let mut l = base_latency();
    l.seed = Some(98765);
    let mut e: ExecutionConfig<F> = ExecutionConfig::default();
    apply_execution_flag_overrides(&mut e, &base_exec_flags(), &l);
    assert_eq!(e.latency.seed, 98765);
    assert_eq!(e.latency.dist, LatencyDist::Fixed);
}

#[test]
fn no_flags_leaves_execution_default() {
    let mut e: ExecutionConfig<F> = ExecutionConfig::default();
    apply_execution_flag_overrides(&mut e, &base_exec_flags(), &base_latency());
    assert!(e.include_fees);
    assert!(!e.include_rewards);
    assert!(!e.latency.enabled);
    assert!(!e.slippage.enabled);
}

#[test]
fn exec_flags_orch_enable_models_like_backtest() {
    let mut f = base_exec_flags();
    f.rewards = true;
    f.slippage_ticks = Some(2);
    f.latency_ns = Some(1000);
    let mut e = ExecutionConfig::default();
    apply_exec_overrides_orch(&mut e, &f);
    assert!(e.include_rewards && e.rewards.enabled);
    assert!(e.slippage.enabled && e.slippage.taker_ticks == 2);
    assert!(e.latency.enabled && e.latency.order_latency_ns == 1000);
    assert!(e.include_fees);
}

#[test]
fn resolve_orch_parses_grid_metric_and_threads() {
    let common = base_common(
        TICKS,
        "market_maker",
        vec!["half_spread_cents=1,2,3".into(), "quote_size=5,10".into()],
        "sharpe",
    );
    let plan = resolve_orch(&common, &None, &there(), &known(), 8).expect("resolve");
    assert_eq!(plan.axes.len(), 2);
    assert_eq!(plan.axes[0].name, "half_spread_cents");
    assert_eq!(plan.axes[0].values, vec![F(1.0), F(2.0), F(3.0)]);
    assert_eq!(plan.metric, Metric::Sharpe);
    assert!(plan.threads >= 1);
    let combos = expand_grid(&plan.axes).unwrap();
    assert_eq!(combos.len(), 6);
}

#[test]
fn resolve_orch_rejects_bad_metric_and_missing_file() {
    let mut common =
        base_common(TICKS, "market_maker", vec!["quote_size=5,10".into()], "not_a_metric");
    assert!(resolve_orch(&common, &None, &there(), &known(), 8).is_err());
    common.metric = "pnl_total".into();
    common.from.ndjson = Some("/definitely/missing-xyz.ndjson.gz".into());
    let err = match resolve_orch(&common, &None, &there(), &known(), 8) {
        Ok(_) => panic!("expected an error for a missing data file"),
        Err(e) => e,
    };
    assert!(err.message.contains("not found"), "got: {}", err.message);
}

#[test]
fn sweeps_need_axes() {
    let common = base_common(TICKS, "market_maker", Vec::new(), "pnl_total");
    let plan = resolve_orch(&common, &None, &there(), &known(), 8).unwrap();
    assert!(expand_grid(&plan.axes).is_err());
    let mut common = base_common(TICKS, "market_maker", vec!["a=1".into()], "pnl_total");
    common.threads = None;
    let plan = resolve_orch(&common, &None, &there(), &known(), 8).unwrap();
    assert_eq!(plan.threads, 8);
}

fn quote(ts_ns: i64, side: Side, price: i32, size: f64, sequence: i64) -> MarketEvent<F> {
    MarketEvent::Delta(BookDelta {
        ts_ns,
        instrument: "X".into(),
        action: Action::Add,
        side,
        price: Cents(price),
        size: F(size),
        sequence,
        is_snapshot: false,
    })
}

fn print(ts_ns: i64, instrument: &str, price: i32) -> MarketEvent<F> {
    MarketEvent::Trade(TradeEvent {
        ts_ns,
        instrument: instrument.into(),
        aggressor_yes: true,
        price: Cents(price),
        size: F(1.0),
        trade_id: "t".into(),
    })
}

#[test]
fn data_quality_warnings_flag_obvious_problems() {
    let evs = vec![quote(5, Side::Bid, 0, 0.0, 1), quote(5, Side::Ask, 60, 10.0, 2)];
    let sum = summarize(&evs);
    let w = data_quality_warnings(&evs, &sum);
    let joined = w.join(" | ");
    assert!(joined.contains("outside (0,1]"), "price warning missing: {joined}");
    assert!(joined.contains("zero/negative size"), "size warning missing: {joined}");
    assert!(joined.contains("NO snapshot row"), "snapshot warning missing: {joined}");
    assert!(joined.contains("SAME timestamp"), "same-ts warning missing: {joined}");
}

#[test]
fn data_quality_warnings_empty_source() {
    let sum = summarize::<F>(&[]);
    let w = data_quality_warnings::<F>(&[], &sum);
    assert_eq!(w.len(), 1);
    assert!(w[0].contains("0 events"), "got: {}", w[0]);
}

fn demo_profile() -> AdapterProfile {
    let mut mapping = StrMap::new();
    mapping.insert("price".to_string(), "px".to_string());
    mapping.insert("price_scale".to_string(), "cents".to_string());
    AdapterProfile {
        adapter: Some("generic_csv".into()),
        venue: Some("DEMO".into()),
        instrument: None,
        mapping,
        ts_unit: None,
        price_scale: None,
        extra: StrMap::new(),
    }
}

#[test]
fn build_adapter_spec_profile_fills_then_cli_overrides() {
    let mut flags = base_source();
    flags.adapter_path = Some("/tmp/x.csv".into());
    let spec = build_adapter_spec_from_cli(&flags, &none(), &Some(Ok(demo_profile()))).unwrap();
    assert_eq!(spec.adapter, "generic_csv");
    assert_eq!(spec.venue, "DEMO");
    assert_eq!(spec.mapping.get("price").map(|s| s.as_str()), Some("px"));

    flags.adapter = Some("generic_ndjson".into());
    let spec2 = build_adapter_spec_from_cli(
        &flags,
        &vec!["price=other".to_string()],
        &Some(Ok(demo_profile())),
    )
    .unwrap();
    assert_eq!(spec2.adapter, "generic_ndjson");
    assert_eq!(spec2.mapping.get("price").map(|s| s.as_str()), Some("other"));
}

#[test]
fn adapters_have_to_be_named_and_placed() {
    let flags = base_source();
    assert!(build_adapter_spec_from_cli(&flags, &none(), &None).is_err());
    let mut flags = base_source();
    flags.adapter_path = Some("x.csv".into());
    assert!(build_adapter_spec_from_cli(&flags, &none(), &None).is_err());
    flags.adapter = Some("generic_csv".into());
    assert!(build_adapter_spec_from_cli(&flags, &none(), &None).is_ok());
    assert!(build_adapter_spec_from_cli(&flags, &vec!["noequals".into()], &None).is_err());
    flags.adapter_path = None;
    assert!(build_adapter_spec_from_cli(&flags, &none(), &None).is_err());
}

#[test]
fn extra_sources_are_read_and_collected() {
    let s = parse_extra_source("adapter=generic_csv,path=a.csv,venue=DEMO,instrument=K*").unwrap();
    assert_eq!(s.adapter, "generic_csv");
    assert_eq!(s.path, "a.csv");
    assert_eq!(s.venue, "DEMO");
    assert_eq!(s.instrument.as_deref(), Some("K*"));
    assert!(parse_extra_source("adapter=generic_csv,path=a.csv,price=px").is_err());
    assert!(parse_extra_source("adapter=generic_csv").is_err());
    assert!(parse_extra_source("nonsense").is_err());

    let mut flags = base_source();
    flags.extra_source = vec!["adapter=generic_csv,path=a.csv".into()];
    let all = sources_from_cli(false, &flags, &None).unwrap().unwrap();
    assert_eq!(all.len(), 1);
    assert!(sources_from_cli(false, &base_source(), &None).unwrap().is_none());
    assert!(sources_from_cli(true, &base_source(), &None).is_err());
}

fn looked_at(source: &str) -> DataSourceArgs {
    let mut from = base_source();
    from.ndjson = Some(TICKS.into());
    from.clickhouse = Some("http://localhost:8123".into());
    from.adapter_path = Some("a.csv".into());
    DataSourceArgs { source: source.into(), from }
}

#[test]
fn sources_are_labelled() {
    assert_eq!(source_label(&looked_at("ndjson")), "ndjson ticks.ndjson");
    assert_eq!(source_label(&looked_at("clickhouse")), "clickhouse http://localhost:8123");
    assert_eq!(source_label(&looked_at("x")), "x");
    let spec = Some(plain_source("generic_csv", "a.csv"));
    assert_eq!(
        validate_source_label(&looked_at("adapter"), &spec),
        "adapter generic_csv (venue GENERIC, a.csv)"
    );
    assert_eq!(
        validate_backtest_hint(&looked_at("adapter"), &spec, &Some("p.json".into())),
        "--source adapter --adapter generic_csv --adapter-path a.csv --adapter-profile p.json"
    );
    assert_eq!(
        validate_backtest_hint(&looked_at("ndjson"), &None, &None),
        "--source ndjson --ndjson ticks.ndjson"
    );
}

#[test]
fn sources_that_are_looked_at_are_checked() {
    assert!(validate_data_source(&looked_at("ndjson"), &there()).is_ok());
    let err = validate_data_source(&looked_at("ndjson"), &none()).unwrap_err();
    assert!(err.message.contains("not found"), "{}", err.message);
    assert!(validate_data_source(&looked_at("elsewhere"), &there()).is_err());
    assert!(validate_data_source(&looked_at("clickhouse"), &none()).is_ok());
    let spec = Some(plain_source("generic_csv", "a.csv"));
    assert!(check_validated(&looked_at("adapter"), &spec, &vec!["a.csv".into()]).is_ok());
    assert!(check_validated(&looked_at("adapter"), &spec, &none()).is_err());
}

#[test]
fn tables_list_what_is_there() {
    let evs = vec![quote(5, Side::Bid, 40, 1.0, 1), print(6, "DEMO:Y", 41), print(7, "X", 42)];
    let sum = summarize(&evs);
    let lines = describe_data("ndjson a", &sum);
    assert_eq!(lines[0], "Data source: ndjson a");
    assert_eq!(lines[1], "  total events : 3");
    assert_eq!(lines[4], "  trades       : 2");
    assert_eq!(lines[5], "  instruments  : 2");
    let lines = list_instruments("ndjson a", &sum);
    assert_eq!(lines[0], "Instruments in ndjson a (2):");
    assert_eq!(list_instruments("a", &summarize::<F>(&[])).len(), 3);
    assert_eq!(venue_tags(&evs), vec!["DEMO".to_string()]);
}

#[test]
fn databases_are_described() {
    let rows = vec![
        ChInstrumentRow { instrument: "A".into(), rows: 3, first_ns: 1, last_ns: 9 },
        ChInstrumentRow { instrument: "B".into(), rows: 4, first_ns: 2, last_ns: 8 },
    ];
    let lines = describe_clickhouse("u", &rows).unwrap();
    assert_eq!(lines[0], "Data source: clickhouse u");
    assert_eq!(lines[1], "  delta rows  : 7");
    assert_eq!(lines[2], "  instruments : 2");
    let lines = list_instruments_clickhouse("u", &rows);
    assert_eq!(lines[0], "Instruments in clickhouse u (2):");
    assert_eq!(lines.len(), 5);
    let many = vec![
        ChInstrumentRow { instrument: "A".into(), rows: u64::MAX, first_ns: 1, last_ns: 9 },
        ChInstrumentRow { instrument: "B".into(), rows: 1, first_ns: 1, last_ns: 9 },
    ];
    assert!(describe_clickhouse("u", &many).is_none());
}

#[test]
fn validations_say_how_to_go_on() {
    let evs = vec![quote(5, Side::Bid, 40, 1.0, 1), print(6, "X", 41)];
    let lines = validation_report("l", "--source x", &summarize(&evs), &evs, 1);
    assert_eq!(lines[0], "Validation of l");
    assert!(lines.contains(&"First 1 parsed event(s):".to_string()), "{lines:?}");
    assert_eq!(
        lines.last().unwrap(),
        "Looks right? Run it:  kalshi-backtest backtest --source x --strategy <name>"
    );
}

#[test]
fn strategies_are_listed_in_columns() {
    let list = vec![
        StrategyInfo { name: "mm", description: "quotes", key_params: "size" },
        StrategyInfo { name: "momentum", description: "follows", key_params: "up" },
    ];
    let lines = list_strategies(&list);
    assert_eq!(lines[0], "Available strategies (2):");
    assert_eq!(lines[2], "  mm        quotes");
    assert_eq!(lines[3], "            params: size");
    assert_eq!(lines[4], "  momentum  follows");
}

#[test]
fn loads_are_planned() {
    let mut spec: RunSpec<F> = RunSpec::default();
    spec.ndjson = Some(TICKS.into());
    spec.start = Some("1970-01-02".into());
    let day = 86_400_000_000_000;
    assert_eq!(
        plan_run_load(&spec).unwrap(),
        LoadPlan::Capture { path: TICKS.into(), start_ns: Some(day), end_ns: None }
    );
    spec.source = "clickhouse".into();
    assert_eq!(plan_run_load(&spec).unwrap(), LoadPlan::Database);
    spec.source = "csv".into();
    assert_eq!(plan_run_load(&spec).unwrap_err().message, "unknown source csv");
    spec.sources = vec![plain_source("generic_csv", "a.csv")];
    assert_eq!(plan_run_load(&spec).unwrap(), LoadPlan::Sources);

    assert!(matches!(plan_look_load(&looked_at("ndjson")), Ok(LoadPlan::Capture { .. })));
    assert_eq!(
        plan_look_load(&looked_at("clickhouse")).unwrap_err().message,
        "unsupported source clickhouse for this command"
    );
    let mut args = looked_at("ndjson");
    args.from.end = Some("soon".into());
    let late = plan_validated_load(&args, &None, &none()).unwrap_err();
    assert!(!late.message.contains("not found"), "{}", late.message);
    assert_eq!(
        plan_validated_load(&looked_at("clickhouse"), &None, &none()).unwrap(),
        LoadPlan::Database
    );
}

#[test]
fn formats_follow_the_extension() {
    assert_eq!(Format::of_extension(&Some("TOML".into())), Format::Toml);
    assert_eq!(Format::of_extension(&Some("json".into())), Format::Json);
    assert_eq!(Format::of_extension(&None), Format::Json);
    assert_eq!(Format::of_example(false, &Some("toml".into())), Format::Toml);
    assert_eq!(Format::of_example(false, &Some("Json".into())), Format::Json);
    assert_eq!(Format::of_example(true, &None), Format::Json);
}
