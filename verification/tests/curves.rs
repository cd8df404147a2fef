use kalshi_backtester::event_curves::{EventCurves, StrikeLadder};
use kalshi_backtester::fit_logistic::{
    fit, logistic_survival, parse_event_strike, partials, LogisticFit,
};
use kalshi_backtester::number::{Analytic, Number};

/// Double-precision numbers.
#[derive(Debug, Clone, Copy, PartialEq, PartialOrd)]
struct F(f64);

impl Number for F {
    fn from_int(n: i64) -> F {
        F(n as f64)
    }
    fn infinity() -> F {
        F(f64::INFINITY)
    }
    fn plus(self, other: F) -> F {
        F(self.0 + other.0)
    }
    fn minus(self, other: F) -> F {
        F(self.0 - other.0)
    }
    fn times(self, other: F) -> F {
        F(self.0 * other.0)
    }
    fn over(self, other: F) -> F {
        F(self.0 / other.0)
    }
    fn neg(self) -> F {
        F(-self.0)
    }
    fn abs(self) -> F {
        F(self.0.abs())
    }
    fn min(self, other: F) -> F {
        F(self.0.min(other.0))
    }
    fn max(self, other: F) -> F {
        F(self.0.max(other.0))
    }
    fn ceil(self) -> F {
        F(self.0.ceil())
    }
    fn round(self) -> F {
        F(self.0.round())
    }
    fn fract(self) -> F {
        F(self.0.fract())
    }
    fn sqrt(self) -> F {
        F(self.0.sqrt())
    }
    fn is_below(self, other: F) -> bool {
        self.0 < other.0
    }
    fn is_at_most(self, other: F) -> bool {
        self.0 <= other.0
    }
    fn is_equal(self, other: F) -> bool {
        self.0 == other.0
    }
    fn is_finite(self) -> bool {
        self.0.is_finite()
    }
    fn to_int(self) -> i64 {
        self.0 as i64
    }
    fn parse(s: &str) -> Option<F> {
        s.parse::<f64>().ok().map(F)
    }
    fn text(self) -> String {
        format!("{}", self.0)
    }
    fn fixed(self, decimals: usize) -> String {
        format!("{:.*}", decimals, self.0)
    }
}

impl Analytic for F {
    fn ln(self) -> F {
        F(self.0.ln())
    }
    fn exp(self) -> F {
        F(self.0.exp())
    }
    fn cos(self) -> F {
        F(self.0.cos())
    }
    fn tau() -> F {
        F(std::f64::consts::TAU)
    }
}

fn survival(k: f64, mu: f64, s: f64) -> f64 {
    logistic_survival(F(k), F(mu), F(s)).0
}

fn synth_ladder(mu: f64, s: f64, k_lo: f64, k_hi: f64, n: usize) -> Vec<(F, F)> {
    (0..n)
        .map(|i| {
            let k = k_lo + (k_hi - k_lo) * i as f64 / (n - 1) as f64;
            (F(k), F(survival(k, mu, s)))
        })
        .collect()
}

#[test]
fn recovers_known_mu_and_s() {
    let (mu, s) = (3.00, 0.075);
    let pts = synth_ladder(mu, s, 2.7, 3.3, 28);
    let f = fit(&pts).expect("fit should succeed on clean logistic data");
    assert!((f.mu.0 - mu).abs() < 1e-3, "mu off: got {}", f.mu.0);
    assert!((f.s.0 - s).abs() < 1e-3, "s off: got {}", f.s.0);
    assert!(f.rmse.0 < 1e-6, "rmse too high: {}", f.rmse.0);
    assert!(f.converged);
    assert_eq!(f.n_points, 28);
}

#[test]
fn recovers_with_mild_noise() {
    let (mu, s) = (3.10, 0.09);
    let mut pts = synth_ladder(mu, s, 2.7, 3.5, 24);
    for (i, p) in pts.iter_mut().enumerate() {
        let n = ((i as f64 * 12.9898).sin() * 43758.5453).fract() - 0.5;
        p.1 = F((p.1 .0 + 0.01 * n).clamp(1e-3, 1.0 - 1e-3));
    }
    let f = fit(&pts).expect("fit should survive mild noise");
    assert!((f.mu.0 - mu).abs() < 0.03, "mu off under noise: {}", f.mu.0);
    assert!((f.s.0 - s).abs() < 0.03, "s off under noise: {}", f.s.0);
}

fn sample_fit() -> LogisticFit<F> {
    LogisticFit { mu: F(3.0), s: F(0.075), n_points: 10, rmse: F(0.0), converged: true }
}

#[test]
fn implied_vol_formula() {
    let f = sample_fit();
    let expected = 0.075 * std::f64::consts::PI / 3.0f64.sqrt();
    assert!((f.implied_vol().0 - expected).abs() < 1e-12);
    assert!((f.implied_vol().0 - 0.13603).abs() < 1e-4);
    assert_eq!(f.fair_value(), F(3.0));
}

#[test]
fn edge_sign_is_market_minus_curve() {
    let f = sample_fit();
    assert!(f.edge(F(3.0), F(0.60)).0 > 0.0);
    assert!(f.edge(F(3.0), F(0.40)).0 < 0.0);
    assert!(f.edge(F(3.0), f.fitted(F(3.0))).0.abs() < 1e-12);
}

#[test]
fn too_few_points_returns_none() {
    let pts = vec![(F(2.9), F(0.7)), (F(3.0), F(0.5)), (F(3.1), F(0.3))];
    assert!(fit(&pts).is_none());
    let pts2 =
        vec![(F(2.9), F(1.0)), (F(3.0), F(0.5)), (F(3.1), F(0.3)), (F(3.2), F(0.0))];
    assert!(fit(&pts2).is_none());
}

#[test]
fn flat_ladder_does_not_panic() {
    let pts: Vec<(F, F)> = (0..10).map(|i| (F(2.8 + i as f64 * 0.05), F(0.5))).collect();
    let r = fit(&pts);
    if let Some(f) = r {
        assert!(f.mu.0.is_finite() && f.s.0.is_finite() && f.rmse.0.is_finite());
    }
}

#[test]
fn parser_basic_and_venue_tagged() {
    assert_eq!(
        parse_event_strike("KXNATGASD-26JUN1517-T3.085"),
        Some(("KXNATGASD-26JUN1517".to_string(), F(3.085)))
    );
    assert_eq!(
        parse_event_strike("KALSHI:KXNATGASD-26JUN1517-T2.850"),
        Some(("KXNATGASD-26JUN1517".to_string(), F(2.850)))
    );
    assert_eq!(parse_event_strike::<F>("KXNATGASD-26JUN1517"), None);
    assert_eq!(parse_event_strike::<F>("RANDOM"), None);
    assert_eq!(parse_event_strike::<F>("FOO-Tbar"), None);
}

#[test]
fn jacobian_matches_finite_differences() {
    let (mu, s) = (3.05, 0.08);
    let h = 1e-6;
    for &k in &[2.75, 2.9, 3.0, 3.05, 3.2, 3.4] {
        let (_, d_mu, d_s) = partials(F(k), F(mu), F(s));
        let fd_mu = (survival(k, mu + h, s) - survival(k, mu - h, s)) / (2.0 * h);
        let fd_s = (survival(k, mu, s + h) - survival(k, mu, s - h)) / (2.0 * h);
        assert!(
            (d_mu.0 - fd_mu).abs() < 1e-5,
            "slope by mu off at k={k}: {} against {fd_mu}",
            d_mu.0
        );
        assert!((d_s.0 - fd_s).abs() < 1e-5, "slope by s off at k={k}: {} against {fd_s}", d_s.0);
    }
}

#[test]
fn survival_is_decreasing_and_bounded() {
    let (mu, s) = (3.0, 0.1);
    let mut prev = 1.1;
    for i in 0..50 {
        let k = 2.5 + i as f64 * 0.02;
        let v = survival(k, mu, s);
        assert!(v > 0.0 && v < 1.0);
        assert!(v < prev, "not decreasing at k={k}");
        prev = v;
    }
    assert!(survival(1e6, mu, s).is_finite());
    assert!(survival(-1e6, mu, s).is_finite());
}

fn feed_logistic(ec: &mut EventCurves<F>, event: &str, mu: f64, s: f64, n: usize) {
    let (k_lo, k_hi) = (mu - 4.0 * s, mu + 4.0 * s);
    for i in 0..n {
        let k = k_lo + (k_hi - k_lo) * i as f64 / (n - 1) as f64;
        let surv = 1.0 / (1.0 + ((k - mu) / s).exp());
        let inst = format!("{event}-T{k:.4}");
        ec.update(&inst, Some(F(surv)));
    }
}

#[test]
fn update_then_fit_recovers_mu_and_caches() {
    let mut ec = EventCurves::new();
    let (mu, s) = (3.0, 0.075);
    feed_logistic(&mut ec, "KXNATGASD-26JUN1517", mu, s, 28);

    let f = ec.fit("KXNATGASD-26JUN1517").expect("ladder should fit");
    assert!((f.mu.0 - mu).abs() < 1e-2, "mu off: {}", f.mu.0);
    assert!((f.s.0 - s).abs() < 1e-2, "s off: {}", f.s.0);

    let f2 = ec.fit("KXNATGASD-26JUN1517").unwrap();
    assert_eq!(f, f2);
}

#[test]
fn update_marks_dirty_and_changes_fit() {
    let mut ec = EventCurves::new();
    feed_logistic(&mut ec, "EVT", 3.0, 0.08, 24);
    let mu1 = ec.fit("EVT").unwrap().mu.0;

    feed_logistic(&mut ec, "EVT", 3.25, 0.08, 24);
    let mu2 = ec.fit("EVT").unwrap().mu.0;
    assert!(mu2 > mu1 + 0.1, "fit did not track the new ladder: {mu1} -> {mu2}");
}

#[test]
fn non_ladder_instrument_is_ignored() {
    let mut ec: EventCurves<F> = EventCurves::new();
    ec.update("KXNATGASD-26JUN1517", Some(F(0.5)));
    ec.update("SOMETHING-ELSE", Some(F(0.4)));
    assert!(ec.fit("KXNATGASD-26JUN1517").is_none());
    assert!(ec.events.is_empty());
}

#[test]
fn mid_out_of_range_removes_strike() {
    let mut ec = EventCurves::new();
    feed_logistic(&mut ec, "EVT", 3.0, 0.08, 24);
    assert!(ec.fit("EVT").is_some());
    for i in 0..22 {
        let k = 3.0 - 0.32 + 0.64 * i as f64 / 23.0;
        ec.update(&format!("EVT-T{k:.4}"), None);
    }
    assert!(ec.fit("EVT").is_none());
}

#[test]
fn fit_for_instrument_routes_to_event() {
    let mut ec = EventCurves::new();
    feed_logistic(&mut ec, "KXNATGASD-26JUN1517", 3.0, 0.075, 28);
    let f = ec
        .fit_for_instrument("KXNATGASD-26JUN1517-T3.000")
        .expect("instrument routes to its event fit");
    assert!((f.mu.0 - 3.0).abs() < 1e-2);
    assert!(ec.fit_for_instrument("KALSHI:KXNATGASD-26JUN1517-T2.900").is_some());
}

#[test]
fn ladder_points_are_ordered_by_strike() {
    let mut l: StrikeLadder<F> = StrikeLadder::new();
    l.set(F(3.1), Some(F(0.3)));
    l.set(F(2.9), Some(F(0.7)));
    l.set(F(3.0), Some(F(0.5)));
    l.set(F(2.9), Some(F(0.6)));
    l.set(F(3.1), Some(F(1.0)));
    assert_eq!(l.points(), vec![(F(2.9), F(0.6)), (F(3.0), F(0.5))]);
}

#[test]
fn copies_of_curves_stand_alone() {
    let mut ec = EventCurves::new();
    feed_logistic(&mut ec, "KXNATGASD-26JUN0417", 3.0, 0.075, 20);
    let mut copy = ec.clone();
    assert_eq!(format!("{copy:?}"), format!("{ec:?}"));
    ec.update("KXNATGASD-26JUN0417-T9.0000", Some(F(0.5)));
    let count = |c: &EventCurves<F>| c.events.get("KXNATGASD-26JUN0417").unwrap().mids.len();
    assert_eq!((count(&ec), count(&copy)), (21, 20));
    assert!((copy.fit("KXNATGASD-26JUN0417").unwrap().mu.0 - 3.0).abs() < 1e-2);
}

#[test]
fn fits_do_not_depend_on_the_order_of_the_points() {
    let pts = synth_ladder(3.0, 0.075, 2.7, 3.3, 12);
    let mut turned = pts.clone();
    turned.reverse();
    turned.swap(2, 7);
    turned.insert(3, (F(2.9), F(1.0)));
    let (a, b) = (fit(&pts).unwrap(), fit(&turned).unwrap());
    assert_eq!((a.mu, a.s, a.rmse, a.n_points), (b.mu, b.s, b.rmse, b.n_points));
    assert!(a.rmse.0 >= 0.0);
    assert_eq!(a.n_points, 12);
}
