use kalshi_backtester::config::{LatencyConfig, LatencyDist};
use kalshi_backtester::latency::{parse_samples, LatencyModel, SplitMix64};
use kalshi_backtester::number::{Analytic, Number};

/// Double-precision numbers.
#[derive(Debug, Clone, Copy, PartialEq, PartialOrd)]
struct F(f64);

impl Number for F {
    fn from_int(n: i64) -> F {
        F(n as f64)
    }
    fn infinity() -> F {
        F(f64::INFINITY)
    }
    fn plus(self, other: F) -> F {
        F(self.0 + other.0)
    }
    fn minus(self, other: F) -> F {
        F(self.0 - other.0)
    }
    fn times(self, other: F) -> F {
        F(self.0 * other.0)
    }
    fn over(self, other: F) -> F {
        F(self.0 / other.0)
    }
    fn neg(self) -> F {
        F(-self.0)
    }
    fn abs(self) -> F {
        F(self.0.abs())
    }
    fn min(self, other: F) -> F {
        F(self.0.min(other.0))
    }
    fn max(self, other: F) -> F {
        F(self.0.max(other.0))
    }
    fn ceil(self) -> F {
        F(self.0.ceil())
    }
    fn round(self) -> F {
        F(self.0.round())
    }
    fn fract(self) -> F {
        F(self.0.fract())
    }
    fn sqrt(self) -> F {
        F(self.0.sqrt())
    }
    fn is_below(self, other: F) -> bool {
        self.0 < other.0
    }
    fn is_at_most(self, other: F) -> bool {
        self.0 <= other.0
    }
    fn is_equal(self, other: F) -> bool {
        self.0 == other.0
    }
    fn is_finite(self) -> bool {
        self.0.is_finite()
    }
    fn to_int(self) -> i64 {
        self.0 as i64
    }
    fn parse(s: &str) -> Option<F> {
        s.parse::<f64>().ok().map(F)
    }
    fn text(self) -> String {
        format!("{}", self.0)
    }
    fn fixed(self, decimals: usize) -> String {
        format!("{:.*}", decimals, self.0)
    }
}

impl Analytic for F {
    fn ln(self) -> F {
        F(self.0.ln())
    }
    fn exp(self) -> F {
        F(self.0.exp())
    }
    fn cos(self) -> F {
        F(self.0.cos())
    }
    fn tau() -> F {
        F(std::f64::consts::TAU)
    }
}

fn cfg(enabled: bool, order: i64, cancel: i64, md: i64, jitter: i64) -> LatencyConfig {
    LatencyConfig {
        enabled,
        order_latency_ns: order,
        cancel_latency_ns: cancel,
        market_data_latency_ns: md,
        jitter_ns: jitter,
        ..Default::default()
    }
}

fn model(cfg: &LatencyConfig) -> LatencyModel {
    LatencyModel::from_config(cfg, Vec::new())
}

fn active_at(m: &mut LatencyModel, placed: i64, seq: u64) -> i64 {
    m.order_activation_ts::<F>(placed, seq)
}

#[test]
fn disabled_is_pass_through() {
    let mut m = model(&cfg(false, 999, 999, 999, 999));
    assert!(!m.is_active());
    assert_eq!(active_at(&mut m, 1000, 7), 1000);
    assert_eq!(m.cancel_effective_ts(1000), 1000);
}

#[test]
fn order_latency_adds_delay() {
    let mut m = model(&cfg(true, 500, 0, 100, 0));
    assert_eq!(active_at(&mut m, 1_000, 1), 1_600);
}

#[test]
fn cancel_latency_adds_delay() {
    let m = model(&cfg(true, 0, 250, 0, 0));
    assert_eq!(m.cancel_effective_ts(1_000), 1_250);
}

#[test]
fn jitter_is_deterministic_and_bounded() {
    let mut m = model(&cfg(true, 1000, 0, 0, 100));
    let a = active_at(&mut m, 0, 42);
    let b = active_at(&mut m, 0, 42);
    assert_eq!(a, b);
    for seq in 0..1000u64 {
        let act = active_at(&mut m, 0, seq);
        assert!((900..=1100).contains(&act), "seq {seq} -> {act}");
    }
}

#[test]
fn jitter_varies_across_seqs() {
    let mut m = model(&cfg(true, 1000, 0, 0, 500));
    let vals: std::collections::HashSet<i64> =
        (0..50u64).map(|s| active_at(&mut m, 0, s)).collect();
    assert!(vals.len() > 5, "jitter not varying: {} distinct", vals.len());
}

#[test]
fn splitmix64_f64_in_unit_interval() {
    let mut r = SplitMix64::new(123);
    for _ in 0..10_000 {
        let u = r.next_f64::<F>().0;
        assert!((0.0..1.0).contains(&u), "f64 out of [0,1): {u}");
        let uo = r.next_f64_open::<F>().0;
        assert!(uo > 0.0 && uo <= 1.0, "f64_open out of (0,1]: {uo}");
    }
}

fn cfg_dist(dist: LatencyDist, seed: u64) -> LatencyConfig {
    LatencyConfig {
        enabled: true,
        order_latency_ns: 0,
        cancel_latency_ns: 0,
        market_data_latency_ns: 0,
        jitter_ns: 0,
        dist,
        seed,
    }
}

#[test]
fn same_seed_same_latency_sequence_diff_seed_differs() {
    let dist = LatencyDist::Uniform { min_ns: 100, max_ns: 1_000_000 };
    let mut m1 = model(&cfg_dist(dist.clone(), 1));
    let mut m2 = model(&cfg_dist(dist.clone(), 1));
    let mut m3 = model(&cfg_dist(dist, 2));
    let s1: Vec<i64> = (0..64).map(|i| active_at(&mut m1, 0, i)).collect();
    let s2: Vec<i64> = (0..64).map(|i| active_at(&mut m2, 0, i)).collect();
    let s3: Vec<i64> = (0..64).map(|i| active_at(&mut m3, 0, i)).collect();
    assert_eq!(s1, s2, "same seed -> identical latency sequence");
    assert_ne!(s1, s3, "different seed -> different latency sequence");
}

#[test]
fn uniform_samples_land_in_range() {
    let mut m = model(&cfg_dist(LatencyDist::Uniform { min_ns: 1_000, max_ns: 5_000 }, 7));
    for i in 0..5_000u64 {
        let act = active_at(&mut m, 0, i);
        assert!((1_000..=5_000).contains(&act), "uniform out of range: {act}");
    }
}

#[test]
fn normal_is_nonneg_with_right_mean() {
    let mean = 1_000_000i64;
    let std = 200_000i64;
    let mut m = model(&cfg_dist(LatencyDist::Normal { mean_ns: mean, std_ns: std }, 42));
    let n = 50_000u64;
    let mut sum = 0i128;
    for i in 0..n {
        let v = active_at(&mut m, 0, i);
        assert!(v >= 0, "normal produced negative latency: {v}");
        sum += v as i128;
    }
    let avg = (sum / n as i128) as i64;
    let tol = mean / 20;
    assert!((mean - tol..=mean + tol).contains(&avg), "normal mean off: {avg}");
}

#[test]
fn exponential_is_nonneg_with_right_mean() {
    let mean = 500_000i64;
    let mut m = model(&cfg_dist(LatencyDist::Exponential { mean_ns: mean }, 9));
    let n = 100_000u64;
    let mut sum = 0i128;
    for i in 0..n {
        let v = active_at(&mut m, 0, i);
        assert!(v >= 0, "exponential produced negative latency: {v}");
        sum += v as i128;
    }
    let avg = (sum / n as i128) as i64;
    let tol = mean / 20;
    assert!((mean - tol..=mean + tol).contains(&avg), "exp mean off: {avg}");
}

#[test]
fn empirical_loads_and_samples_from_file() {
    let samples = parse_samples::<F>("# measured ns\n1000, 2000\n3000\n4000.0\n");
    let mut m = LatencyModel::from_config(
        &cfg_dist(LatencyDist::Empirical { path: "latencies.txt".to_string() }, 3),
        samples,
    );
    let allowed = [1000i64, 2000, 3000, 4000];
    let mut seen = std::collections::HashSet::new();
    for i in 0..2_000u64 {
        let v = active_at(&mut m, 0, i);
        assert!(allowed.contains(&v), "empirical sampled out-of-set value: {v}");
        seen.insert(v);
    }
    assert_eq!(seen.len(), 4, "did not sample all empirical values: {seen:?}");
}

#[test]
fn empirical_missing_file_falls_back_to_fixed() {
    let mut c = cfg_dist(
        LatencyDist::Empirical { path: "/definitely/missing/latencies-xyz.txt".to_string() },
        1,
    );
    c.order_latency_ns = 1234;
    let mut m = model(&c);
    assert_eq!(active_at(&mut m, 0, 0), 1234);
    assert_eq!(active_at(&mut m, 0, 999), 1234);
}

#[test]
fn fixed_default_ignores_seed_and_is_unchanged() {
    let mut c1 = cfg(true, 1000, 0, 0, 100);
    c1.seed = 1;
    let mut c2 = cfg(true, 1000, 0, 0, 100);
    c2.seed = 99999;
    let mut m1 = model(&c1);
    let mut m2 = model(&c2);
    for seq in 0..200u64 {
        assert_eq!(
            active_at(&mut m1, 0, seq),
            active_at(&mut m2, 0, seq),
            "Fixed dist must not depend on seed (seq {seq})"
        );
    }
}

#[test]
fn samples_skip_what_is_no_number() {
    assert_eq!(
        parse_samples::<F>("10,20\t30 x -5\n# 40\n\n1.5e3 inf\n50"),
        vec![10, 20, 30, -5, 1500, 50]
    );
}

#[test]
fn generators_go_on_from_their_state() {
    for seed in [0u64, 1, 0x1234_5678_9abc_def0, u64::MAX] {
        let mut r = SplitMix64::new(seed);
        for n in 0..20u64 {
            let state = seed.wrapping_add(n.wrapping_mul(0x9E37_79B9_7F4A_7C15));
            assert_eq!(r.state, state);
            assert_eq!(SplitMix64::new(state).next_u64(), r.next_u64());
        }
    }
}

#[test]
fn generators_with_different_seeds_never_agree() {
    for (a, b) in [(0u64, 1u64), (7, 8), (1, u64::MAX)] {
        let (mut x, mut y) = (SplitMix64::new(a), SplitMix64::new(b));
        for _ in 0..1000 {
            assert_ne!(x.next_u64(), y.next_u64());
        }
    }
}

#[test]
fn draws_stand_for_their_upper_bits() {
    let (mut a, mut b) = (SplitMix64::new(42), SplitMix64::new(42));
    for _ in 0..1000 {
        let d = a.next_u64();
        let u = b.next_f64::<F>().0;
        assert_eq!(u, (d >> 11) as f64 * (1.0 / (1u64 << 53) as f64));
    }
}
