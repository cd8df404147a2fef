//! What a run is set to. Every setting has a default, and with the defaults nothing is modelled
//! beyond the book and the fees.
use crate::adapters::opt_text;
use crate::fixed::Fixed;
use crate::number::{fraction_of, ratio, Number};
use crate::text::{ascii_lower, same_text, to_ascii_lower};
use vstd::prelude::*;

verus! {

/// How a file of settings is written.
#[derive(Debug, Clone, Copy, PartialEq, Eq, Structural)]
pub enum Format {
    Toml,
    Json,
}

/// Whether the name of a file ends in an extension, in whatever case.
pub open spec fn has_extension(extension: Option<Seq<char>>, known: Seq<char>) -> bool {
    extension matches Some(e) && ascii_lower(e) == known
}

fn is_extension(extension: &Option<String>, known: &str) -> (r: bool)
    ensures
        r == has_extension(opt_text(*extension), known@),
{
    match extension {
        Some(e) => same_text(to_ascii_lower(e.as_str()).as_str(), known),
        None => false,
    }
}

impl Format {
    /// How a file with an extension is written: TOML where that says so, else JSON.
    pub fn of_extension(extension: &Option<String>) -> (r: Format)
        ensures
            r == if has_extension(opt_text(*extension), "toml"@) {
                Format::Toml
            } else {
                Format::Json
            },
    {
        if is_extension(extension, "toml") {
            Format::Toml
        } else {
            Format::Json
        }
    }

    /// How an example is written: JSON where that is asked for or the extension says so, else TOML.
    pub fn of_example(json: bool, extension: &Option<String>) -> (r: Format)
        ensures
            r == if json || has_extension(opt_text(*extension), "json"@) {
                Format::Json
            } else {
                Format::Toml
            },
    {
        if json || is_extension(extension, "json") {
            Format::Json
        } else {
            Format::Toml
        }
    }
}

/// The settings of a run.
#[derive(Debug, Clone, PartialEq)]
pub struct BacktestConfig<N> {
    /// Cash at the start.
    pub starting_balance: N,
    /// Name of the currency.
    pub currency: String,
    /// Whether fees follow the formula of the exchange; else the two flat rates below.
    pub fee_bps_formula: bool,
    /// Flat fee of a maker, per contract.
    pub maker_fee: N,
    /// Flat fee of a taker, as a fraction of what is traded.
    pub taker_fee_rate: N,
    /// Least number of seconds between two points of the equity curve.
    pub equity_snapshot_secs: i64,
    /// Delay of an order. Superseded by `execution.latency`.
    pub order_latency_ns: i64,
    /// Whether open positions are closed at the end.
    pub flatten_at_end: bool,
    /// How executions are modelled.
    pub execution: ExecutionConfig<N>,
}

impl<N: Number> BacktestConfig<N> {
    /// The default.
    pub open spec fn is_default(self) -> bool {
        &&& self.starting_balance == N::integer(1000)
        &&& self.currency@ == "USD"@
        &&& self.fee_bps_formula
        &&& self.maker_fee == N::integer(0)
        &&& self.taker_fee_rate == fraction_of::<N>(1, 100)
        &&& self.equity_snapshot_secs == 1
        &&& self.order_latency_ns == 0
        &&& self.flatten_at_end
        &&& self.execution == ExecutionConfig::<N>::standard()
    }

    /// The settings with another starting balance.
    pub fn with_starting_balance(self, bal: N) -> (r: BacktestConfig<N>)
        ensures
            r == (BacktestConfig { starting_balance: bal, ..self }),
    {
        let mut r = self;
        r.starting_balance = bal;
        r
    }
}

impl<N: Number> Default for BacktestConfig<N> {
    fn default() -> (r: BacktestConfig<N>)
        ensures
            r.is_default(),
    {
        BacktestConfig {
            starting_balance: N::from_int(1000),
            currency: "USD".to_owned(),
            fee_bps_formula: true,
            maker_fee: N::from_int(0),
            taker_fee_rate: ratio::<N>(1, 100),
            equity_snapshot_secs: 1,
            order_latency_ns: 0,
            flatten_at_end: true,
            execution: ExecutionConfig::default(),
        }
    }
}

/// How executions are modelled. Each effect can be switched by itself.
#[derive(Debug, Clone, PartialEq)]
pub struct ExecutionConfig<N> {
    /// Whether fees are charged.
    pub include_fees: bool,
    /// Whether liquidity rewards are credited.
    pub include_rewards: bool,
    /// Delays.
    pub latency: LatencyConfig,
    /// Worse prices than quoted.
    pub slippage: SlippageConfig<N>,
    /// Liquidity rewards.
    pub rewards: RewardsConfig<N>,
    /// Limits.
    pub risk: RiskConfig<N>,
    /// Place in the queue.
    pub queue: QueueConfig,
    /// Outcomes at expiry.
    pub settlement: SettlementConfig,
}

impl<N: Number> ExecutionConfig<N> {
    /// The default: fees are charged, and nothing else is modelled.
    pub open spec fn standard() -> ExecutionConfig<N> {
        ExecutionConfig {
            include_fees: true,
            include_rewards: false,
            latency: LatencyConfig::standard(),
            slippage: SlippageConfig::standard(),
            rewards: RewardsConfig::standard(),
            risk: RiskConfig::standard(),
            queue: QueueConfig { model: QueueModel::Pessimistic },
            settlement: SettlementConfig { path: None },
        }
    }

    /// The same settings once more.
    pub fn copy(&self) -> (r: ExecutionConfig<N>)
        ensures
            r == *self,
    {
        let path = match &self.settlement.path {
            Some(p) => Some(p.clone()),
            None => None,
        };
        ExecutionConfig {
            include_fees: self.include_fees,
            include_rewards: self.include_rewards,
            latency: LatencyConfig {
                enabled: self.latency.enabled,
                order_latency_ns: self.latency.order_latency_ns,
                cancel_latency_ns: self.latency.cancel_latency_ns,
                market_data_latency_ns: self.latency.market_data_latency_ns,
                jitter_ns: self.latency.jitter_ns,
                dist: self.latency.dist.copy(),
                seed: self.latency.seed,
            },
            slippage: self.slippage,
            rewards: self.rewards,
            risk: self.risk,
            queue: self.queue,
            settlement: SettlementConfig { path },
        }
    }
}

impl<N: Number> Default for ExecutionConfig<N> {
    fn default() -> (r: ExecutionConfig<N>)
        ensures
            r == ExecutionConfig::<N>::standard(),
    {
        ExecutionConfig {
            include_fees: true,
            include_rewards: false,
            latency: LatencyConfig::default(),
            slippage: SlippageConfig::default(),
            rewards: RewardsConfig::default(),
            risk: RiskConfig::default(),
            queue: QueueConfig::default(),
            settlement: SettlementConfig::default(),
        }
    }
}

/// Where the outcomes of the instruments are found. With a path, open positions of instruments
/// with a known outcome are settled at the end.
#[derive(Debug, Clone, PartialEq, Eq)]
pub struct SettlementConfig {
    pub path: Option<String>,
}

impl Default for SettlementConfig {
    fn default() -> (r: SettlementConfig)
        ensures
            r.path is None,
    {
        SettlementConfig { path: None }
    }
}

impl SettlementConfig {
    /// Whether outcomes are looked up.
    pub fn is_enabled(&self) -> (r: bool)
        ensures
            r == (self.path is Some),
    {
        self.path.is_some()
    }
}

/// What becomes of the queue ahead of a resting order when its level shrinks without a trade.
#[derive(Debug, Clone, Copy, PartialEq, Eq, Structural)]
pub enum QueueModel {
    /// Whoever left stood behind: the queue ahead stays.
    Pessimistic,
    /// Whoever left stood ahead: the queue ahead shrinks as the level does.
    Optimistic,
}

impl Default for QueueModel {
    fn default() -> (r: QueueModel)
        ensures
            r == QueueModel::Pessimistic,
    {
        QueueModel::Pessimistic
    }
}

/// Which queue model is used.
#[derive(Debug, Clone, Copy, PartialEq, Eq, Structural)]
pub struct QueueConfig {
    pub model: QueueModel,
}

impl Default for QueueConfig {
    fn default() -> (r: QueueConfig)
        ensures
            r == (QueueConfig { model: QueueModel::Pessimistic }),
    {
        QueueConfig { model: QueueModel::default() }
    }
}

/// Limits that the engine enforces. `None` is no limit.
#[derive(Debug, Clone, Copy, PartialEq)]
pub struct RiskConfig<N> {
    /// Most contracts of one order.
    pub max_order_qty: Option<N>,
    /// Largest position of one instrument, long or short.
    pub max_position_per_instrument: Option<N>,
    /// Largest sum of the positions, each without its sign.
    pub max_gross_position: Option<N>,
    /// Equity at or below which the run halts.
    pub equity_floor: Option<N>,
    /// Drawdown from the peak, in percent, at which the run halts.
    pub max_drawdown_pct: Option<N>,
}

impl<N: Number> RiskConfig<N> {
    /// No limit.
    pub open spec fn standard() -> RiskConfig<N> {
        RiskConfig {
            max_order_qty: None,
            max_position_per_instrument: None,
            max_gross_position: None,
            equity_floor: None,
            max_drawdown_pct: None,
        }
    }

    /// Whether there is any limit.
    pub fn any_enabled(&self) -> (r: bool)
        ensures
            r == (*self != RiskConfig::<N>::standard()),
    {
        self.max_order_qty.is_some() || self.max_position_per_instrument.is_some()
            || self.max_gross_position.is_some() || self.equity_floor.is_some()
            || self.max_drawdown_pct.is_some()
    }
}

impl<N: Number> Default for RiskConfig<N> {
    fn default() -> (r: RiskConfig<N>)
        ensures
            r == RiskConfig::<N>::standard(),
    {
        RiskConfig {
            max_order_qty: None,
            max_position_per_instrument: None,
            max_gross_position: None,
            equity_floor: None,
            max_drawdown_pct: None,
        }
    }
}

/// How the delay of an order comes about.
#[derive(Debug, Clone, PartialEq)]
pub enum LatencyDist {
    /// A fixed delay and a jitter that depends on the order's number alone.
    Fixed,
    /// Anywhere between two delays, each as likely as the other.
    Uniform { min_ns: i64, max_ns: i64 },
    /// Normally distributed, cut off at 0.
    Normal { mean_ns: i64, std_ns: i64 },
    /// Exponentially distributed.
    Exponential { mean_ns: i64 },
    /// One of the delays that a file lists.
    Empirical { path: String },
}

impl Default for LatencyDist {
    fn default() -> (r: LatencyDist)
        ensures
            r == LatencyDist::Fixed,
    {
        LatencyDist::Fixed
    }
}

impl LatencyDist {
    /// The same once more.
    pub fn copy(&self) -> (r: LatencyDist)
        ensures
            r == *self,
    {
        match self {
            LatencyDist::Fixed => LatencyDist::Fixed,
            LatencyDist::Uniform { min_ns, max_ns } => LatencyDist::Uniform {
                min_ns: *min_ns,
                max_ns: *max_ns,
            },
            LatencyDist::Normal { mean_ns, std_ns } => LatencyDist::Normal {
                mean_ns: *mean_ns,
                std_ns: *std_ns,
            },
            LatencyDist::Exponential { mean_ns } => LatencyDist::Exponential { mean_ns: *mean_ns },
            LatencyDist::Empirical { path } => LatencyDist::Empirical { path: path.clone() },
        }
    }
}

/// The seed where none is set. It fits an `i64`.
pub const DEFAULT_LATENCY_SEED: u64 = 0x0123_4567_89AB_CDEF;

/// The delays.
#[derive(Debug, Clone, PartialEq)]
pub struct LatencyConfig {
    /// Whether there are any.
    pub enabled: bool,
    /// From placing an order until it can match.
    pub order_latency_ns: i64,
    /// From asking for a cancel until it takes effect.
    pub cancel_latency_ns: i64,
    /// How far behind the strategy sees the market. It is added to the delay of an order.
    pub market_data_latency_ns: i64,
    /// How far the delay of an order strays, to either side.
    pub jitter_ns: i64,
    /// How the delay of an order comes about.
    pub dist: LatencyDist,
    /// The seed of the draws.
    pub seed: u64,
}

impl LatencyConfig {
    /// No delay.
    pub open spec fn standard() -> LatencyConfig {
        LatencyConfig {
            enabled: false,
            order_latency_ns: 0,
            cancel_latency_ns: 0,
            market_data_latency_ns: 0,
            jitter_ns: 0,
            dist: LatencyDist::Fixed,
            seed: DEFAULT_LATENCY_SEED,
        }
    }
}

impl Default for LatencyConfig {
    fn default() -> (r: LatencyConfig)
        ensures
            r == LatencyConfig::standard(),
    {
        LatencyConfig {
            enabled: false,
            order_latency_ns: 0,
            cancel_latency_ns: 0,
            market_data_latency_ns: 0,
            jitter_ns: 0,
            dist: LatencyDist::Fixed,
            seed: DEFAULT_LATENCY_SEED,
        }
    }
}

/// How much worse than quoted executions are.
#[derive(Debug, Clone, Copy, PartialEq)]
pub struct SlippageConfig<N> {
    /// Whether they are.
    pub enabled: bool,
    /// Cents by which a taker's price is worse.
    pub taker_ticks: i32,
    /// Cost of a taker, as a fraction of what is traded.
    pub taker_bps: N,
    /// Cost of a maker, as a fraction of what is traded.
    pub maker_adverse_selection_bps: N,
}

impl<N: Number> SlippageConfig<N> {
    /// Executions as quoted.
    pub open spec fn standard() -> SlippageConfig<N> {
        SlippageConfig {
            enabled: false,
            taker_ticks: 0,
            taker_bps: N::integer(0),
            maker_adverse_selection_bps: N::integer(0),
        }
    }
}

impl<N: Number> Default for SlippageConfig<N> {
    fn default() -> (r: SlippageConfig<N>)
        ensures
            r == SlippageConfig::<N>::standard(),
    {
        SlippageConfig {
            enabled: false,
            taker_ticks: 0,
            taker_bps: N::from_int(0),
            maker_adverse_selection_bps: N::from_int(0),
        }
    }
}

/// Rewards for resting near the middle of the book.
#[derive(Debug, Clone, Copy, PartialEq)]
pub struct RewardsConfig<N> {
    /// Whether there are any.
    pub enabled: bool,
    /// Length of a period in seconds.
    pub period_secs: i64,
    /// What a period pays to whoever qualifies all through it.
    pub reward_per_period: N,
    /// Least size that qualifies, on each side that is needed.
    pub min_resting_size: N,
    /// Largest distance from the middle that qualifies, in cents.
    pub max_spread_cents: i32,
    /// Whether both sides are needed.
    pub both_sides_required: bool,
}

impl<N: Number> RewardsConfig<N> {
    /// No rewards.
    pub open spec fn standard() -> RewardsConfig<N> {
        RewardsConfig {
            enabled: false,
            period_secs: 3600,
            reward_per_period: N::integer(0),
            min_resting_size: N::integer(10),
            max_spread_cents: 4,
            both_sides_required: true,
        }
    }
}

impl<N: Number> Default for RewardsConfig<N> {
    fn default() -> (r: RewardsConfig<N>)
        ensures
            r == RewardsConfig::<N>::standard(),
    {
        RewardsConfig {
            enabled: false,
            period_secs: 3600,
            reward_per_period: N::from_int(0),
            min_resting_size: N::from_int(10),
            max_spread_cents: 4,
            both_sides_required: true,
        }
    }
}

/// With the defaults fees are charged and nothing else is modelled: no delay, no slippage, no rewards,
/// no limit and no outcome, and queues shrink from behind. Rewards that are switched on ask for ten
/// contracts on both sides, within four cents of the middle, by the hour.
pub proof fn law_defaults_model_nothing_beyond_fees()
    ensures
        ({
            let d = ExecutionConfig::<Fixed>::standard();
            &&& d.include_fees
            &&& !d.include_rewards
            &&& !d.latency.enabled
            &&& d.latency.order_latency_ns == 0
            &&& d.latency.cancel_latency_ns == 0
            &&& d.latency.market_data_latency_ns == 0
            &&& d.latency.jitter_ns == 0
            &&& d.latency.dist is Fixed
            &&& !d.slippage.enabled
            &&& d.slippage.taker_ticks == 0
            &&& d.slippage.taker_bps.units == 0
            &&& d.slippage.maker_adverse_selection_bps.units == 0
            &&& !d.rewards.enabled
            &&& d.rewards.period_secs == 3600
            &&& d.rewards.reward_per_period.units == 0
            &&& d.rewards.min_resting_size.units == 10_000_000
            &&& d.rewards.max_spread_cents == 4
            &&& d.rewards.both_sides_required
            &&& d.risk.max_order_qty is None
            &&& d.risk.max_position_per_instrument is None
            &&& d.risk.max_gross_position is None
            &&& d.risk.equity_floor is None
            &&& d.risk.max_drawdown_pct is None
            &&& d.queue.model == QueueModel::Pessimistic
            &&& d.settlement.path is None
        }),
{
}

} // verus!
