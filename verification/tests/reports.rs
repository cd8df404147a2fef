use kalshi_backtester::base64::base64_encode;
use kalshi_backtester::config::BacktestConfig;
use kalshi_backtester::exports::{
    csv_field, equity_csv, fills_csv, fmt, instrument_stats_csv, round_trips_csv, trades_csv,
};
use kalshi_backtester::number::{Analytic, Number};
use kalshi_backtester::portfolio::Portfolio;
use kalshi_backtester::report::{
    build_report, build_svg_paths, html_escape, render_tearsheet, NO_LOSS_SENTINEL,
};
use kalshi_backtester::types::{
    Cents, EquityPoint, Fill, InstrumentBreakdown, Liquidity, Report, Side, Summary, TradeEvent,
};

/// Double-precision numbers.
#[derive(Debug, Clone, Copy, PartialEq, PartialOrd)]
struct F(f64);

impl Number for F {
    fn from_int(n: i64) -> F {
        F(n as f64)
    }
    fn infinity() -> F {
        F(f64::INFINITY)
    }
    fn plus(self, other: F) -> F {
        F(self.0 + other.0)
    }
    fn minus(self, other: F) -> F {
        F(self.0 - other.0)
    }
    fn times(self, other: F) -> F {
        F(self.0 * other.0)
    }
    fn over(self, other: F) -> F {
        F(self.0 / other.0)
    }
    fn neg(self) -> F {
        F(-self.0)
    }
    fn abs(self) -> F {
        F(self.0.abs())
    }
    fn min(self, other: F) -> F {
        F(self.0.min(other.0))
    }
    fn max(self, other: F) -> F {
        F(self.0.max(other.0))
    }
    fn ceil(self) -> F {
        F(self.0.ceil())
    }
    fn round(self) -> F {
        F(self.0.round())
    }
    fn fract(self) -> F {
        F(self.0.fract())
    }
    fn sqrt(self) -> F {
        F(self.0.sqrt())
    }
    fn is_below(self, other: F) -> bool {
        self.0 < other.0
    }
    fn is_at_most(self, other: F) -> bool {
        self.0 <= other.0
    }
    fn is_equal(self, other: F) -> bool {
        self.0 == other.0
    }
    fn is_finite(self) -> bool {
        self.0.is_finite()
    }
    fn to_int(self) -> i64 {
        self.0 as i64
    }
    fn parse(s: &str) -> Option<F> {
        s.parse::<f64>().ok().map(F)
    }
    fn text(self) -> String {
        format!("{}", self.0)
    }
    fn fixed(self, decimals: usize) -> String {
        format!("{:.*}", decimals, self.0)
    }
}

impl Analytic for F {
    fn ln(self) -> F {
        F(self.0.ln())
    }
    fn exp(self) -> F {
        F(self.0.exp())
    }
    fn cos(self) -> F {
        F(self.0.cos())
    }
    fn tau() -> F {
        F(std::f64::consts::TAU)
    }
}

#[test]
fn no_loss_profit_factor_is_large_sentinel_in_report() {
    let sentinel = F(NO_LOSS_SENTINEL as f64);
    let cfg: BacktestConfig<F> = BacktestConfig::default();
    let mut pf = Portfolio::new(cfg.starting_balance, cfg.currency.clone(), 1);
    pf.round_trip_pnls = vec![F(5.0), F(7.0)];
    let report = build_report("t", &pf, &cfg);
    assert_eq!(report.summary.profit_factor, sentinel);
    assert_eq!(report.summary.payoff_ratio, sentinel);
    assert!(report.summary.profit_factor.0.is_finite());

    let mut pf_losers = Portfolio::new(cfg.starting_balance, cfg.currency.clone(), 1);
    pf_losers.round_trip_pnls = vec![F(-5.0), F(-7.0)];
    let report_losers = build_report("t", &pf_losers, &cfg);
    assert_eq!(report_losers.summary.profit_factor, F(0.0));
    assert!(report_losers.summary.profit_factor != sentinel);
}

#[test]
fn base64_known_vectors() {
    assert_eq!(base64_encode(b""), "");
    assert_eq!(base64_encode(b"f"), "Zg==");
    assert_eq!(base64_encode(b"fo"), "Zm8=");
    assert_eq!(base64_encode(b"foo"), "Zm9v");
    assert_eq!(base64_encode(b"foob"), "Zm9vYg==");
    assert_eq!(base64_encode(b"fooba"), "Zm9vYmE=");
    assert_eq!(base64_encode(b"foobar"), "Zm9vYmFy");
}

fn pt(ts: i64, total: f64) -> EquityPoint<F> {
    EquityPoint { ts_ns: ts, total: F(total), currency: "USD".into() }
}

fn sample_report() -> Report<F> {
    Report {
        plugin_name: "test".into(),
        summary: Summary {
            currency: "USD".into(),
            starting_balance: F(1000.0),
            ending_balance: F(1010.0),
            pnl_total: F(10.0),
            pnl_pct: F(1.0),
            total_orders: 3,
            total_positions: 1,
            avg_buy_price: F(0.4),
            avg_sell_price: F(0.6),
            num_trades: 1,
            num_fills: 2,
            win_rate: F(1.0),
            sharpe: F(0.5),
            sortino: F(0.8),
            max_drawdown: F(5.0),
            max_drawdown_pct: F(0.005),
            turnover: F(0.1),
            total_fees: F(0.2),
            profit_factor: F(2.0),
            gross_profit: F(30.0),
            gross_loss: F(15.0),
            avg_win: F(15.0),
            avg_loss: F(15.0),
            payoff_ratio: F(1.0),
            expectancy: F(5.0),
            num_round_trips: 1,
            avg_trade_pnl: F(10.0),
            largest_win: F(30.0),
            largest_loss: F(-15.0),
            max_consecutive_wins: 1,
            max_consecutive_losses: 0,
            calmar_ratio: F(2.0),
            volatility: F(0.01),
            downside_volatility: F(0.008),
            exposure_pct: F(0.5),
            avg_holding_secs: F(12.0),
            fees_pct_of_gross: F(0.006),
            total_volume_contracts: F(200.0),
            total_slippage_cost: F(0.0),
            liquidity_rewards: F(0.0),
            gross_pnl_ex_costs: F(10.2),
            settled_pnl: F(0.0),
            num_settled: 0,
            halted: false,
            halt_reason: String::new(),
            risk_rejections: 0,
            post_only_rejects: 0,
        },
        equity_curve: vec![pt(1, 1000.0), pt(2, 990.0), pt(3, 1010.0)],
        instrument_breakdown: vec![],
    }
}

#[test]
fn tearsheet_renders_without_panic() {
    let html = render_tearsheet(&sample_report());
    assert!(html.contains("Backtest Tearsheet"));
    assert!(html.contains("<svg"));
}

#[test]
fn tearsheet_escapes_the_name() {
    let mut r = sample_report();
    r.plugin_name = "<b>\"x\" & y".into();
    let html = render_tearsheet(&r);
    assert!(!html.contains("<b>\"x\""));
    assert!(html.contains(&html_escape(&r.plugin_name)));
    assert_eq!(html_escape("a<b>&\"c\""), "a&lt;b&gt;&amp;&quot;c&quot;");
}

#[test]
fn curves_are_drawn_between_their_extremes() {
    let (equity, drawdown, lo, hi) = build_svg_paths(&sample_report().equity_curve);
    assert_eq!((lo, hi), (F(990.0), F(1010.0)));
    assert!(equity.starts_with('M'), "{equity}");
    assert!(!drawdown.is_empty());
}

#[test]
fn writes_all_seven_files_with_headers() {
    let fills = vec![Fill {
        ts_ns: 5,
        order_id: 1,
        instrument: "X".into(),
        side: Side::Bid,
        price: Cents(40),
        qty: F(10.0),
        liquidity: Liquidity::Taker,
        fee: F(0.01),
    }];
    let stats = vec![InstrumentBreakdown {
        instrument: "X".into(),
        pnl: F(1.0),
        num_fills: 1,
        num_round_trips: 0,
        net_position: F(10.0),
        volume: F(10.0),
    }];
    let trades = vec![TradeEvent {
        ts_ns: 7,
        instrument: "X".into(),
        aggressor_yes: false,
        price: Cents(55),
        size: F(3.0),
        trade_id: "t1".into(),
    }];
    let head = |text: String| text.lines().next().unwrap().to_string();
    assert_eq!(head(equity_csv(&[pt(1, 1000.0)])), "ts_ns,total,currency,drawdown");
    assert_eq!(
        head(fills_csv(&fills)),
        "ts_ns,instrument,order_id,side,price,qty,liquidity,fee"
    );
    assert_eq!(head(trades_csv(&trades)), "ts_ns,instrument,aggressor_side,price,size");
    assert_eq!(
        head(round_trips_csv::<F>(&[])),
        "instrument,entry_ts_ns,exit_ts_ns,qty,entry_price,exit_price,pnl"
    );
    assert_eq!(
        head(instrument_stats_csv(&stats)),
        "instrument,pnl,num_fills,num_round_trips,net_position,volume"
    );
    let text = fills_csv(&fills);
    assert!(text.contains("5,X,1,BUY,0.4,10,Taker,0.01"), "fills:\n{text}");
}

#[test]
fn drawdowns_are_measured_from_the_peak() {
    let text = equity_csv(&[pt(1, 100.0), pt(2, 120.0), pt(3, 90.0)]);
    let rows: Vec<&str> = text.lines().skip(1).collect();
    assert_eq!(rows.len(), 3);
    assert!(rows[2].starts_with("3,90,USD,"), "{}", rows[2]);
    assert!(rows[1].ends_with(",0"), "{}", rows[1]);
}

#[test]
fn fields_are_quoted_where_they_have_to_be() {
    assert_eq!(csv_field("plain"), "plain");
    assert_eq!(csv_field("a,b"), "\"a,b\"");
    assert_eq!(csv_field("say \"hi\""), "\"say \"\"hi\"\"\"");
    assert_eq!(fmt(F(2.0)), "2");
    assert_eq!(fmt(F(0.25)), "0.25");
}
