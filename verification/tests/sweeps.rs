use kalshi_backtester::cli::args::{ResolvedRun, RunSpec};
use kalshi_backtester::cli::resolve::parse_strategy_param;
use kalshi_backtester::cli::summary::{draw_box, human_summary};
use kalshi_backtester::cli::sweep::{check_sweep, pick_best, describe_best, optimize_csv, optimize_table, rank};
use kalshi_backtester::cli::walk::{
    aggregate, check_walk, walk_forward, walk_forward_csv, walk_table,
};
use kalshi_backtester::config::BacktestConfig;
use kalshi_backtester::data::ndjson;
use kalshi_backtester::engine::RunFiles;
use kalshi_backtester::error::ErrorKind;
use kalshi_backtester::settlement::{Outcome, SettlementMap};
use kalshi_backtester::number::{Analytic, Number};
use kalshi_backtester::optimize::{
    best_index, expand_grid, fmt_num, parse_param_axis, run_grid, run_made, split_segments, Builtins, Combo,
    Metric, ParamAxis, StrategyBuilder,
};
use kalshi_backtester::strategy::{Ctx, Strategy};
use kalshi_backtester::strmap::StrMap;
use kalshi_backtester::types::{
    Action, BookDelta, Cents, InstrumentBreakdown, MarketEvent, Report, Side, Summary, TradeEvent,
};

/// Double-precision numbers.
#[derive(Debug, Clone, Copy, PartialEq, PartialOrd)]
struct F(f64);

impl Number for F {
    fn from_int(n: i64) -> F {
        F(n as f64)
    }
    fn infinity() -> F {
        F(f64::INFINITY)
    }
    fn plus(self, other: F) -> F {
        F(self.0 + other.0)
    }
    fn minus(self, other: F) -> F {
        F(self.0 - other.0)
    }
    fn times(self, other: F) -> F {
        F(self.0 * other.0)
    }
    fn over(self, other: F) -> F {
        F(self.0 / other.0)
    }
    fn neg(self) -> F {
        F(-self.0)
    }
    fn abs(self) -> F {
        F(self.0.abs())
    }
    fn min(self, other: F) -> F {
        F(self.0.min(other.0))
    }
    fn max(self, other: F) -> F {
        F(self.0.max(other.0))
    }
    fn ceil(self) -> F {
        F(self.0.ceil())
    }
    fn round(self) -> F {
        F(self.0.round())
    }
    fn fract(self) -> F {
        F(self.0.fract())
    }
    fn sqrt(self) -> F {
        F(self.0.sqrt())
    }
    fn is_below(self, other: F) -> bool {
        self.0 < other.0
    }
    fn is_at_most(self, other: F) -> bool {
        self.0 <= other.0
    }
    fn is_equal(self, other: F) -> bool {
        self.0 == other.0
    }
    fn is_finite(self) -> bool {
        self.0.is_finite()
    }
    fn to_int(self) -> i64 {
        self.0 as i64
    }
    fn parse(s: &str) -> Option<F> {
        s.parse::<f64>().ok().map(F)
    }
    fn text(self) -> String {
        format!("{}", self.0)
    }
    fn fixed(self, decimals: usize) -> String {
        format!("{:.*}", decimals, self.0)
    }
}

impl Analytic for F {
    fn ln(self) -> F {
        F(self.0.ln())
    }
    fn exp(self) -> F {
        F(self.0.exp())
    }
    fn cos(self) -> F {
        F(self.0.cos())
    }
    fn tau() -> F {
        F(std::f64::consts::TAU)
    }
}

/// Quotes both sides of the middle.
struct Maker {
    half_spread: i32,
    size: f64,
}

impl Strategy<F> for Maker {
    fn name(&self) -> String {
        "market_maker".to_string()
    }
    fn on_event(&mut self, ev: &MarketEvent<F>, ctx: &mut Ctx<F>) {
        let inst = ev.instrument().to_string();
        for o in ctx.open_orders(&inst) {
            ctx.cancel(o.id);
        }
        if let Some(mid) = ctx.mid(&inst) {
            let mid_c = (mid.0 * 100.0).round() as i32;
            ctx.place_limit(&inst, Side::Bid, Cents(mid_c - self.half_spread), F(self.size));
            ctx.place_limit(&inst, Side::Ask, Cents(mid_c + self.half_spread), F(self.size));
        }
    }
    fn on_finish(&mut self, _ctx: &mut Ctx<F>) {}
}

struct Makers;

impl StrategyBuilder<F> for Makers {
    type Built = Maker;
    fn build(&self, name: &str, params: &StrMap<F>) -> Option<Maker> {
        if name != "market_maker" {
            return None;
        }
        let half_spread = params.get("half_spread_cents").map(|v| v.0 as i32).unwrap_or(2);
        let size = params.get("quote_size").map(|v| v.0).unwrap_or(10.0);
        Some(Maker { half_spread, size })
    }
}

fn synthetic_stream() -> Vec<MarketEvent<F>> {
    let d = |ts: i64, side: Side, px: i32, sz: f64, seq: i64, snap: bool| {
        MarketEvent::Delta(BookDelta {
            ts_ns: ts,
            instrument: "KXTEST-A".into(),
            action: Action::Add,
            side,
            price: Cents(px),
            size: F(sz),
            sequence: seq,
            is_snapshot: snap,
        })
    };
    let t = |ts: i64, px: i32, sz: f64| {
        MarketEvent::Trade(TradeEvent {
            ts_ns: ts,
            instrument: "KXTEST-A".into(),
            aggressor_yes: true,
            price: Cents(px),
            size: F(sz),
            trade_id: format!("t{ts}"),
        })
    };
    let mut v = vec![
        d(1_000, Side::Bid, 45, 200.0, 1, true),
        d(1_001, Side::Ask, 55, 200.0, 2, false),
    ];
    for (i, px) in [47, 49, 51, 53, 51, 49, 47, 50].iter().enumerate() {
        let ts = 2_000 + i as i64 * 1_000;
        v.push(d(ts, Side::Bid, px - 1, 100.0, 10 + i as i64 * 2, false));
        v.push(d(ts + 1, Side::Ask, px + 1, 100.0, 11 + i as i64 * 2, false));
        v.push(t(ts + 2, *px, 5.0));
    }
    v
}

fn axis(name: &str, values: &[f64]) -> ParamAxis<F> {
    ParamAxis { name: name.into(), values: values.iter().map(|v| F(*v)).collect() }
}

#[test]
fn grid_expansion_cartesian_and_order_stable() {
    let axes = vec![axis("a", &[1.0, 2.0]), axis("b", &[10.0, 20.0])];
    let combos = expand_grid(&axes).unwrap();
    assert_eq!(combos.len(), 4);
    let labels: Vec<String> = combos.iter().map(|c| c.label()).collect();
    assert_eq!(labels, vec!["a=1,b=10", "a=1,b=20", "a=2,b=10", "a=2,b=20"]);
    let again = expand_grid(&axes).unwrap();
    assert_eq!(combos, again);
}

#[test]
fn grid_expansion_three_axes_size_and_first_last() {
    let axes = vec![
        axis("x", &[1.0, 2.0, 3.0]),
        axis("y", &[1.0, 2.0]),
        axis("z", &[7.0, 8.0, 9.0, 10.0]),
    ];
    let combos = expand_grid(&axes).unwrap();
    assert_eq!(combos.len(), 3 * 2 * 4);
    assert_eq!(combos.first().unwrap().label(), "x=1,y=1,z=7");
    assert_eq!(combos.last().unwrap().label(), "x=3,y=2,z=10");
}

#[test]
fn grid_expansion_caps_oversized_product() {
    let axes: Vec<ParamAxis<F>> =
        (0..10).map(|i| axis(&format!("p{i}"), &[1.0, 2.0, 3.0, 4.0])).collect();
    let err = expand_grid(&axes).unwrap_err();
    assert!(err.contains("exceeding the cap") || err.contains("combinations"), "got: {err}");
}

#[test]
fn grid_expansion_rejects_empty_axes() {
    assert!(expand_grid::<F>(&[]).is_err());
}

#[test]
fn parse_param_axis_parses_and_rejects() {
    let ax = parse_param_axis::<F>("half_spread_cents=1,2,3").unwrap();
    assert_eq!(ax.name, "half_spread_cents");
    assert_eq!(ax.values, vec![F(1.0), F(2.0), F(3.0)]);
    let ax = parse_param_axis::<F>(" size = 5 , 10 , 20 ").unwrap();
    assert_eq!(ax.name, "size");
    assert_eq!(ax.values, vec![F(5.0), F(10.0), F(20.0)]);
    assert!(parse_param_axis::<F>("no_equals").is_err());
    assert!(parse_param_axis::<F>("k=").is_err());
    assert!(parse_param_axis::<F>("k=1,foo,3").is_err());
    assert!(parse_param_axis::<F>("=1,2").is_err());
}

fn combo_of(kvs: &[(&str, f64)]) -> Combo<F> {
    let mut params = StrMap::new();
    for (k, v) in kvs {
        params.insert((*k).to_string(), F(*v));
    }
    Combo { params }
}

fn zero_summary() -> Summary<F> {
    Summary {
        currency: "USD".into(),
        starting_balance: F(1000.0),
        ending_balance: F(1000.0),
        pnl_total: F(0.0),
        pnl_pct: F(0.0),
        total_orders: 0,
        total_positions: 0,
        avg_buy_price: F(0.0),
        avg_sell_price: F(0.0),
        num_trades: 0,
        num_fills: 0,
        win_rate: F(0.0),
        sharpe: F(0.0),
        sortino: F(0.0),
        max_drawdown: F(0.0),
        max_drawdown_pct: F(0.0),
        turnover: F(0.0),
        total_fees: F(0.0),
        profit_factor: F(0.0),
        gross_profit: F(0.0),
        gross_loss: F(0.0),
        avg_win: F(0.0),
        avg_loss: F(0.0),
        payoff_ratio: F(0.0),
        expectancy: F(0.0),
        num_round_trips: 0,
        avg_trade_pnl: F(0.0),
        largest_win: F(0.0),
        largest_loss: F(0.0),
        max_consecutive_wins: 0,
        max_consecutive_losses: 0,
        calmar_ratio: F(0.0),
        volatility: F(0.0),
        downside_volatility: F(0.0),
        exposure_pct: F(0.0),
        avg_holding_secs: F(0.0),
        fees_pct_of_gross: F(0.0),
        total_volume_contracts: F(0.0),
        total_slippage_cost: F(0.0),
        liquidity_rewards: F(0.0),
        gross_pnl_ex_costs: F(0.0),
        settled_pnl: F(0.0),
        num_settled: 0,
        halted: false,
        halt_reason: String::new(),
        risk_rejections: 0,
        post_only_rejects: 0,
    }
}

fn scored(pnl: f64, sharpe: f64) -> Summary<F> {
    let mut s = zero_summary();
    s.pnl_total = F(pnl);
    s.sharpe = F(sharpe);
    s
}

#[test]
fn metric_parse_and_value_and_best_picks_max() {
    assert_eq!(Metric::parse("pnl_total").unwrap(), Metric::PnlTotal);
    assert_eq!(Metric::parse("PnL").unwrap(), Metric::PnlTotal);
    assert_eq!(Metric::parse("sharpe").unwrap(), Metric::Sharpe);
    assert_eq!(Metric::parse("calmar").unwrap(), Metric::Calmar);
    assert!(Metric::parse("not_a_metric").is_err());

    let results = vec![
        (combo_of(&[("a", 1.0)]), scored(10.0, 0.1)),
        (combo_of(&[("a", 2.0)]), scored(30.0, 0.9)),
        (combo_of(&[("a", 3.0)]), scored(20.0, 0.5)),
    ];
    assert_eq!(best_index(&results, Metric::PnlTotal), Some(1));
    assert_eq!(best_index(&results, Metric::Sharpe), Some(1));

    let tie = vec![
        (combo_of(&[("a", 1.0)]), scored(42.0, 0.0)),
        (combo_of(&[("a", 2.0)]), scored(42.0, 0.0)),
    ];
    assert_eq!(best_index(&tie, Metric::PnlTotal), Some(0));
    let empty: Vec<(Combo<F>, Summary<F>)> = Vec::new();
    assert_eq!(best_index(&empty, Metric::PnlTotal), None);
}

#[test]
fn run_grid_deterministic_same_input_same_output() {
    let events = synthetic_stream();
    let cfg = BacktestConfig::default();
    let combos = expand_grid(&[
        axis("half_spread_cents", &[1.0, 2.0, 3.0]),
        axis("quote_size", &[5.0, 10.0]),
    ])
    .unwrap();

    let r1 = run_grid(&events, &cfg, &RunFiles::none(), &Makers, "market_maker", &combos).unwrap();
    let r2 = run_grid(&events, &cfg, &RunFiles::none(), &Makers, "market_maker", &combos).unwrap();
    assert_eq!(r1.len(), combos.len());
    for ((c1, s1), (c2, s2)) in r1.iter().zip(r2.iter()) {
        assert_eq!(c1, c2);
        assert_eq!(format!("{s1:?}"), format!("{s2:?}"));
    }
    assert!(run_grid(&events, &cfg, &RunFiles::none(), &Makers, "other", &combos).is_none());
    assert!(run_grid(&events, &cfg, &RunFiles::none(), &Builtins, "noop", &combos).is_some());
}

#[test]
fn run_grid_in_parts_equals_whole() {
    let events = synthetic_stream();
    let cfg = BacktestConfig::default();
    let combos = expand_grid(&[
        axis("half_spread_cents", &[1.0, 2.0, 3.0, 4.0]),
        axis("quote_size", &[5.0, 10.0, 20.0]),
    ])
    .unwrap();
    let whole = run_grid(&events, &cfg, &RunFiles::none(), &Makers, "market_maker", &combos).unwrap();
    let mut parts = run_grid(&events, &cfg, &RunFiles::none(), &Makers, "market_maker", &combos[..5]).unwrap();
    parts.extend(run_grid(&events, &cfg, &RunFiles::none(), &Makers, "market_maker", &combos[5..]).unwrap());
    assert_eq!(whole.len(), parts.len());
    for ((cs, ss), (cp, sp)) in whole.iter().zip(parts.iter()) {
        assert_eq!(cs, cp);
        assert_eq!(format!("{ss:?}"), format!("{sp:?}"), "combo {}", cs.label());
    }
}

#[test]
fn split_segments_tiles_the_timeline() {
    let ranges = split_segments(10, 3);
    assert_eq!(ranges, vec![(0, 4), (4, 7), (7, 10)]);
    assert_eq!(ranges.first().unwrap().0, 0);
    assert_eq!(ranges.last().unwrap().1, 10);
    for w in ranges.windows(2) {
        assert_eq!(w[0].1, w[1].0);
    }
}

#[test]
fn split_segments_k_plus_one_folds_for_walk_forward() {
    let len = 100;
    let k = 3;
    let ranges = split_segments(len, k + 1);
    assert_eq!(ranges.len(), 4);
    assert_eq!(ranges.first().unwrap().0, 0);
    assert_eq!(ranges.last().unwrap().1, len);
    let covered: usize = ranges.iter().map(|(a, b)| b - a).sum();
    assert_eq!(covered, len);
    for (a, b) in &ranges {
        assert!(b > a, "segment {a}..{b} should be non-empty");
    }
}

#[test]
fn split_segments_handles_indivisible_and_small() {
    assert_eq!(split_segments(7, 4), vec![(0, 2), (2, 4), (4, 6), (6, 7)]);
    let r = split_segments(2, 4);
    assert_eq!(r, vec![(0, 1), (1, 2), (2, 2), (2, 2)]);
}

fn tiny_ndjson() -> Vec<MarketEvent<F>> {
    let delta = |ts: i64, side: &str, price: f64, size: f64, snap: i64| {
        format!(
            "{{\"kind\":\"delta\",\"ts_ns\":{ts},\"instrument\":\"KXTEST-A\",\"action\":\"ADD\",\"side\":\"{side}\",\"price\":{price},\"size\":{size},\"sequence\":{ts},\"is_snapshot\":{snap}}}\n"
        )
    };
    let mut lines = String::new();
    lines.push_str(&delta(1000, "BUY", 0.45, 200.0, 1));
    lines.push_str(&delta(1001, "SELL", 0.55, 200.0, 0));
    for (i, px) in [0.47, 0.49, 0.51, 0.53, 0.51, 0.49, 0.47, 0.50].iter().enumerate() {
        let ts = 2000 + i as i64 * 1000;
        lines.push_str(&delta(ts, "BUY", px - 0.01, 100.0, 0));
        lines.push_str(&delta(ts + 1, "SELL", px + 0.01, 100.0, 0));
        lines.push_str(&format!(
            "{{\"kind\":\"trade\",\"ts_ns\":{},\"instrument\":\"KXTEST-A\",\"aggressor_side\":\"yes\",\"price\":{px},\"size\":5.0,\"trade_id\":\"t{ts}\"}}\n",
            ts + 2
        ));
    }
    ndjson::load(lines.as_bytes(), None, None, None).unwrap()
}

#[test]
fn optimize_end_to_end_runs_and_writes_csv() {
    let events = tiny_ndjson();
    let cfg = BacktestConfig::default();
    let axes = vec![axis("half_spread_cents", &[1.0, 2.0]), axis("quote_size", &[5.0, 10.0])];
    let combos = expand_grid(&axes).unwrap();
    let results = run_grid(&events, &cfg, &RunFiles::none(), &Makers, "market_maker", &combos).unwrap();
    let csv = optimize_csv(&results, &axes);
    let rows: Vec<&str> = csv.lines().collect();
    assert_eq!(rows.len(), 1 + 4, "header + 4 combo rows");
    assert!(rows[0].starts_with("half_spread_cents,quote_size,pnl_total"));
    assert!(rows[1].starts_with("1,5,"), "{}", rows[1]);
    let order = rank(&results, Metric::PnlTotal);
    assert_eq!(order[0], best_index(&results, Metric::PnlTotal).unwrap());
}

#[test]
fn rankings_descend_and_keep_ties_in_order() {
    let results = vec![
        (combo_of(&[("a", 1.0)]), scored(10.0, 0.0)),
        (combo_of(&[("a", 2.0)]), scored(30.0, 0.0)),
        (combo_of(&[("a", 3.0)]), scored(10.0, 0.0)),
        (combo_of(&[("a", 4.0)]), scored(20.0, 0.0)),
    ];
    let order = rank(&results, Metric::PnlTotal);
    assert_eq!(order, vec![1, 3, 0, 2]);
    let table = optimize_table(&results, &order, Metric::PnlTotal);
    assert_eq!(table[1], "Ranked results (top 4 of 4, by pnl_total):");
    assert_eq!(table.len(), 3 + 4);
    assert!(table[3].starts_with("     1  a=2 "), "{}", table[3]);
    let (best, sum) = &results[1];
    assert_eq!(
        describe_best(best, sum, Metric::PnlTotal),
        "BEST by pnl_total: a=2  ->  pnl_total = 30  (pnl_total=30, sharpe=0.000, win_rate=0.0%, ending_balance=1000)"
    );
}

#[test]
fn long_rankings_are_cut() {
    let results: Vec<(Combo<F>, Summary<F>)> =
        (0..30).map(|i| (combo_of(&[("a", i as f64)]), scored(i as f64, 0.0))).collect();
    let order = rank(&results, Metric::PnlTotal);
    let table = optimize_table(&results, &order, Metric::PnlTotal);
    assert_eq!(table.len(), 3 + 25 + 1);
    assert_eq!(table[28], "  ... (5 more rows in optimize_results.csv if --out-dir set)");
}

#[test]
fn walk_forward_end_to_end_folds_cover_timeline() {
    let events = tiny_ndjson();
    let cfg = BacktestConfig::default();
    let combos = expand_grid(&[axis("half_spread_cents", &[1.0, 2.0])]).unwrap();
    let folds =
        walk_forward(&events, &cfg, &RunFiles::none(), &Makers, "market_maker", &combos, Metric::PnlTotal, 3).unwrap();
    let csv = walk_forward_csv(&folds, Metric::PnlTotal);
    assert_eq!(csv.lines().count(), 1 + 3, "header + 3 fold rows");
    assert!(csv.starts_with(
        "fold,chosen_params,train_start,train_end,test_start,test_end,in_sample_pnl_total,oos_pnl_total,oos_pnl\n"
    ));
    assert_eq!(folds[0].train_range.0, 0);
    for f in &folds {
        assert_eq!(f.train_range.1, f.test_range.0);
        assert!(f.test_range.0 < f.test_range.1);
    }
    assert_eq!(folds[2].test_range.1, events.len());
    let (pnl, mean) = aggregate(&folds);
    let sum: f64 = folds.iter().map(|f| f.oos_pnl.0).sum();
    assert!((pnl.0 - sum).abs() < 1e-12);
    assert!((mean.0 - sum / 3.0).abs() < 1e-12);
    let table = walk_table(&folds, Metric::PnlTotal);
    assert_eq!(table.len(), 3 + 3 + 2);
    assert!(table[7].ends_with("(3 folds)"), "{}", table[7]);
}

#[test]
fn walk_forward_zero_windows_is_rejected() {
    let events = tiny_ndjson();
    let cfg = BacktestConfig::default();
    let combos = expand_grid(&[axis("half_spread_cents", &[1.0, 2.0])]).unwrap();
    let err = walk_forward(&events, &cfg, &RunFiles::none(), &Makers, "market_maker", &combos, Metric::PnlTotal, 0)
        .unwrap_err();
    assert!(err.message.contains("windows"), "got: {}", err.message);
    let err = check_walk(3, 3).unwrap_err();
    assert_eq!(
        err.message,
        "only 3 events — need at least K+1=4 to form 3 walk-forward folds (try fewer --windows)"
    );
    let err =
        walk_forward(&events, &cfg, &RunFiles::none(), &Makers, "nobody", &combos, Metric::PnlTotal, 2).unwrap_err();
    assert_eq!(err.message, "unknown strategy nobody");
}

#[test]
fn cli_strategy_params_override_config_and_build() {
    let empty: StrMap<F> = StrMap::new();
    assert!(Makers.build("market_maker", &empty).is_some());
    let mut m: StrMap<F> = StrMap::new();
    m.insert("half_spread_cents".into(), F(3.0));
    assert_eq!(Makers.build("market_maker", &m).unwrap().half_spread, 3);
    let mut merged: StrMap<F> = StrMap::new();
    merged.insert("half_spread_cents".into(), F(2.0));
    let (k, v) = parse_strategy_param::<F>("half_spread_cents=3").unwrap();
    merged.insert(k, v);
    assert_eq!(merged.get("half_spread_cents"), Some(&F(3.0)));
}

#[test]
fn numbers_of_a_grid_are_short() {
    assert_eq!(fmt_num(F(3.0)), "3");
    assert_eq!(fmt_num(F(0.5)), "0.5");
}

fn quiet_run() -> ResolvedRun<F> {
    let mut spec: RunSpec<F> = RunSpec::default();
    spec.strategy = "momentum".into();
    ResolvedRun { spec, tearsheet: "t.html".into(), emit_tearsheet_b64: false }
}

fn breakdown(name: &str) -> InstrumentBreakdown<F> {
    InstrumentBreakdown {
        instrument: name.into(),
        pnl: F(0.0),
        num_fills: 0,
        num_round_trips: 0,
        net_position: F(0.0),
        volume: F(0.0),
    }
}

#[test]
fn summary_shows_what_matters() {
    let mut report = Report {
        plugin_name: "momentum".into(),
        summary: scored(12.5, 0.25),
        equity_curve: vec![],
        instrument_breakdown: vec![breakdown("A"), breakdown("B")],
    };
    let mut run = quiet_run();
    let lines = human_summary(&report, &run, 12345, &None, &None);
    let text = lines.join("\n");
    assert_eq!(lines[0], "");
    assert!(lines[2].contains("BACKTEST SUMMARY"));
    assert!(text.contains("Strategy             : momentum"), "{text}");
    assert!(text.contains("Instrument(s)        : A, B"), "{text}");
    assert!(text.contains("12,345"), "{text}");
    assert!(text.contains("12.50 USD (+0.00%)"), "{text}");
    assert!(text.contains("(off)"));
    assert!(!text.contains("Latency model") && !text.contains("Risk halt"));
    let widths: Vec<usize> = lines[1..].iter().map(|l| l.chars().count()).collect();
    assert!(widths.iter().all(|w| *w == widths[0]), "{widths:?}");

    run.spec.execution.latency.enabled = true;
    report.summary.halted = true;
    report.summary.halt_reason = "equity_floor".into();
    report.instrument_breakdown =
        vec![breakdown("A"), breakdown("B"), breakdown("C"), breakdown("D")];
    let text = human_summary(&report, &run, 1, &Some("t.html".into()), &Some("out".into()))
        .join("\n");
    assert!(text.contains("HALTED — equity_floor"), "{text}");
    assert!(text.contains("Latency model"), "{text}");
    assert!(text.contains("4 instruments (e.g. A, B)"), "{text}");
    assert!(text.contains("Tearsheet            : t.html"), "{text}");
    assert!(text.contains("Exports              : out"), "{text}");
}

#[test]
fn narrow_boxes_keep_room_for_their_title() {
    let lines = draw_box(&vec![("k".to_string(), "v".to_string())]);
    assert_eq!(lines[1], format!("┌{}┐", "─".repeat(20)));
    assert_eq!(lines[2], "│  BACKTEST SUMMARY  │");
    assert_eq!(lines[4], "│ k : v              │");
    assert_eq!(lines.len(), 6);
}

#[test]
fn sweeps_need_events_and_results() {
    assert!(check_sweep(1).is_ok());
    assert_eq!(
        check_sweep(0).unwrap_err().message,
        "no events matched the source/instrument/date filters — nothing to optimize"
    );
    let empty: Vec<(Combo<F>, Summary<F>)> = Vec::new();
    assert_eq!(
        pick_best(&empty, Metric::PnlTotal).unwrap_err().message,
        "optimization produced no results"
    );
}

#[test]
fn the_best_combination_is_run_again() {
    let events = tiny_ndjson();
    let cfg = BacktestConfig::default();
    let combos = expand_grid(&[axis("half_spread_cents", &[1.0, 2.0])]).unwrap();
    let files = RunFiles::none();
    let results = run_grid(&events, &cfg, &files, &Makers, "market_maker", &combos).unwrap();
    let best = pick_best(&results, Metric::PnlTotal).unwrap();
    let params = results[best].0.as_strategy_params();
    let out = run_made(&events, &cfg, &files, &Makers, "market_maker", &params).unwrap();
    assert_eq!(format!("{:?}", out.report.summary), format!("{:?}", results[best].1));
    assert!(run_made(&events, &cfg, &files, &Makers, "nobody", &params).is_none());
}

#[test]
fn sweeps_know_outcomes() {
    let events = synthetic_stream();
    let cfg = BacktestConfig::default();
    let combos = expand_grid(&[axis("half_spread_cents", &[1.0])]).unwrap();
    let mut outcomes = SettlementMap::new();
    outcomes.insert("KXTEST-A", Outcome::Yes);
    let files = RunFiles { samples: Vec::new(), outcomes };
    let settled = run_grid(&events, &cfg, &files, &Makers, "market_maker", &combos).unwrap();
    let plain =
        run_grid(&events, &cfg, &RunFiles::none(), &Makers, "market_maker", &combos).unwrap();
    assert_eq!(plain[0].1.num_settled, 0);
    assert!(settled[0].1.num_settled <= 1);
}

#[test]
fn outcomes_are_read_from_lines() {
    let map = SettlementMap::from_csv("instrument_id,result\nA,yes\r\nB, NO \nC,maybe\nA,0\n\nD,1");
    assert_eq!(map.outcome("A"), Outcome::No);
    assert_eq!(map.outcome("B"), Outcome::No);
    assert_eq!(map.outcome("C"), Outcome::Unknown);
    assert_eq!(map.outcome("D"), Outcome::Yes);
    assert_eq!(map.outcome("instrument_id"), Outcome::Unknown);
}

#[test]
fn best_is_a_number_where_there_is_one() {
    let result = |pnl: f64| (combo_of(&[("a", pnl)]), scored(pnl, 0.0));
    let some = vec![result(f64::NAN), result(f64::NEG_INFINITY)];
    assert_eq!(best_index(&some, Metric::PnlTotal), Some(1));
    let more = vec![result(f64::NAN), result(f64::NEG_INFINITY), result(-3.0), result(f64::NAN)];
    assert_eq!(best_index(&more, Metric::PnlTotal), Some(2));
    let none = vec![result(f64::NAN), result(f64::NAN)];
    assert_eq!(best_index(&none, Metric::PnlTotal), Some(0));
}

#[test]
fn outcomes_are_read_from_json() {
    let map = SettlementMap::from_text("{\"A\":\"yes\",\"B\":false,\"C\":1,\"D\":\"maybe\"}").unwrap();
    assert_eq!(map.outcome("A"), Outcome::Yes);
    assert_eq!(map.outcome("B"), Outcome::No);
    assert_eq!(map.outcome("C"), Outcome::Yes);
    assert_eq!(map.outcome("D"), Outcome::Unknown);
    let list = SettlementMap::from_text(
        " [{\"instrument_id\":\"A\",\"result\":\"no\"},{\"instrument_id\":\"B\"},{\"result\":\"yes\"}]",
    )
    .unwrap();
    assert_eq!(list.outcome("A"), Outcome::No);
    assert_eq!(list.outcome("B"), Outcome::Unknown);
    let lines = SettlementMap::from_text("instrument_id,result\nA,yes\n").unwrap();
    assert_eq!(lines.outcome("A"), Outcome::Yes);
    let e = SettlementMap::from_text("{\"A\":").unwrap_err();
    assert_eq!(e.kind, ErrorKind::BadJson);
    assert!(e.message.contains("EOF"), "{}", e.message);
}

#[test]
fn metrics_are_listed_in_one_order() {
    let names = [
        "pnl_total",
        "sharpe",
        "sortino",
        "calmar_ratio",
        "win_rate",
        "profit_factor",
        "ending_balance",
        "expectancy",
    ];
    assert_eq!(Metric::all(), names.map(|n| n.to_string()).to_vec());
    for n in names {
        assert_eq!(Metric::parse(n).unwrap().name(), n);
    }
    assert_eq!(
        Metric::parse(" Luck ").unwrap_err(),
        format!("unknown --metric 'luck' \u{2014} supported: {}", names.join(", "))
    );
}
